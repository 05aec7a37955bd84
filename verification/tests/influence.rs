use std::collections::HashSet;

use oif_sim::cell::Cell;
use oif_sim::cellmap::CellSet;
use oif_sim::ids::{BlockId, StructureId};
use oif_sim::influence::{ExecutedMovement, MovementInfluenceCache};
use oif_sim::moves::{MovementMark, StructureMove};

fn push_by(structure: u64, source: u64) -> StructureMove {
    StructureMove::translate_marked(StructureId(structure), CellSet::from_slice(&[Cell::new(0, 0, 0)]), Cell::new(1, 0, 0), MovementMark::Push)
        .with_source(BlockId(source), Cell::new(-1, 0, 0))
}

fn ran(structure: u64, source: u64) -> ExecutedMovement {
    ExecutedMovement { structure_id: StructureId(structure), source: BlockId(source) }
}

#[test]
fn executed_movements_are_counted_per_structure_and_source() {
    let mut cache = MovementInfluenceCache::default();
    assert_eq!(cache.count(&push_by(1, 7)), 0);
    cache.record_executed(vec![ran(1, 7), ran(1, 7), ran(2, 7), ran(1, 8)]);
    assert_eq!(cache.count(&push_by(1, 7)), 2);
    assert_eq!(cache.count(&push_by(2, 7)), 1);
    assert_eq!(cache.count(&push_by(1, 8)), 1);
    assert_eq!(cache.count(&push_by(2, 8)), 0);
    let unsourced = StructureMove::translate_marked(StructureId(1), CellSet::new(), Cell::new(0, -1, 0), MovementMark::Vertical);
    assert_eq!(cache.count(&unsourced), 0);
}

#[test]
fn pruning_keeps_only_living_structures_and_sources() {
    let mut cache = MovementInfluenceCache::new();
    cache.record_executed(vec![ran(1, 7), ran(2, 7), ran(1, 8)]);
    let structures: HashSet<u64> = [1u64].into_iter().collect();
    let blocks: HashSet<u64> = [7u64].into_iter().collect();
    cache.prune_missing(&structures, &blocks);
    assert_eq!(cache.count(&push_by(1, 7)), 1);
    assert_eq!(cache.count(&push_by(2, 7)), 0);
    assert_eq!(cache.count(&push_by(1, 8)), 0);
    cache.clear();
    assert_eq!(cache.count(&push_by(1, 7)), 0);
}
