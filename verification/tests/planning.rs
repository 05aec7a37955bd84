use oif_sim::cell::Cell;
use oif_sim::cellmap::{CellMap, CellSet};
use oif_sim::history::{ExecutedMovement, MovementHistory};
use oif_sim::ids::{BlockId, StructureId};
use oif_sim::moves::{
    apply_motion_tags, movement_expansion_mode, MovementExpansionMode, MovementMark, PusherActor, PusherAnimationKind,
    StructureMove,
};
use oif_sim::plan::{
    coalesce_same_push_moves, conveyor_source_priority, merge_structure_movement_plan,
    movement_kind_priority, sort_by_priority, ConveyorSourcePriority,
};
use oif_sim::structure::{FactoryActivity, StructureFreedom, StructureKind};
use oif_sim::structure_state::StructureState;

fn c(x: i32, y: i32, z: i32) -> Cell {
    Cell::new(x, y, z)
}

fn one(x: i32, y: i32, z: i32) -> CellSet {
    CellSet::from_slice(&[c(x, y, z)])
}

fn push(id: u64, cell: (i32, i32, i32), offset: Cell) -> StructureMove {
    StructureMove::translate_marked(StructureId(id), one(cell.0, cell.1, cell.2), offset, MovementMark::Push)
}

fn conveyor(id: u64, source: u64, source_pos: Cell) -> StructureMove {
    StructureMove::translate_marked(StructureId(id), one(0, 0, id as i32), c(1, 0, 0), MovementMark::Conveyor)
        .with_source(BlockId(source), source_pos)
}

fn fall(id: u64) -> StructureMove {
    StructureMove::translate_marked(StructureId(id), one(0, 3, id as i32), c(0, -1, 0), MovementMark::Vertical)
}

fn lift(id: u64, cell: Cell, source: u64) -> StructureMove {
    StructureMove::translate_marked(StructureId(id), CellSet::from_slice(&[cell]), c(0, 1, 0), MovementMark::Vertical)
        .with_source(BlockId(source), c(9, 9, 9))
}

fn ids(moves: &[StructureMove]) -> Vec<u64> {
    moves.iter().map(|m| m.structure_id().0).collect()
}

#[test]
fn kind_priority_order() {
    assert_eq!(movement_kind_priority(&push(1, (0, 0, 0), c(1, 0, 0))), 0);
    assert_eq!(movement_kind_priority(&lift(2, c(0, 0, 0), 5)), 1);
    assert_eq!(movement_kind_priority(&fall(3)), 2);
    assert_eq!(movement_kind_priority(&StructureMove::rotate(StructureId(4), one(0, 0, 0), c(0, 0, 0), true)), 3);
    assert_eq!(movement_kind_priority(&conveyor(5, 6, c(0, 0, 0))), 4);
}

#[test]
fn conveyor_tie_break_from_source_position() {
    let p = conveyor_source_priority(&conveyor(1, 2, c(2, -3, 4)));
    assert_eq!(
        p,
        ConveyorSourcePriority {
            positive_x: -2,
            negative_x: 2,
            positive_y: 3,
            negative_y: -3,
            positive_z: -4,
            negative_z: 4,
        }
    );
    let sourced_push = push(1, (0, 0, 0), c(1, 0, 0)).with_source(BlockId(3), c(5, 5, 5));
    assert_eq!(conveyor_source_priority(&sourced_push), ConveyorSourcePriority::neutral());
}

#[test]
fn sort_puts_pushes_first_and_conveyors_last() {
    let history = MovementHistory::new();
    let moves = vec![
        conveyor(1, 10, c(0, 0, 0)),
        push(2, (0, 0, 0), c(1, 0, 0)),
        fall(3),
        StructureMove::rotate(StructureId(4), one(4, 0, 0), c(4, 0, 0), false),
    ];
    assert_eq!(ids(&sort_by_priority(moves, &history)), vec![2, 3, 4, 1]);
}

#[test]
fn sort_prefers_sources_that_moved_less_and_keeps_ties_in_order() {
    let mut history = MovementHistory::new();
    history.record_executed(vec![ExecutedMovement { structure_id: StructureId(5), source: BlockId(1) }]);
    let moves = vec![
        push(5, (0, 0, 0), c(1, 0, 0)).with_source(BlockId(1), c(0, 0, 1)),
        push(6, (2, 0, 0), c(1, 0, 0)).with_source(BlockId(2), c(2, 0, 1)),
        push(7, (4, 0, 0), c(1, 0, 0)).with_source(BlockId(3), c(4, 0, 1)),
    ];
    assert_eq!(ids(&sort_by_priority(moves, &history)), vec![6, 7, 5]);
}

#[test]
fn conveyors_sourced_further_along_x_go_first() {
    let history = MovementHistory::new();
    let moves = vec![conveyor(1, 10, c(0, 0, 0)), conveyor(2, 11, c(3, 0, 0))];
    assert_eq!(ids(&sort_by_priority(moves, &history)), vec![2, 1]);
}

#[test]
fn same_push_moves_are_merged() {
    let actor = |id: u64, x: i32| PusherActor { id: BlockId(id), pos: c(x, 0, 1), animation: PusherAnimationKind::Extend };
    let a = StructureMove::translate_by_pusher_actor(StructureId(1), one(0, 0, 0), c(0, 0, -1), actor(10, 0), MovementMark::Push);
    let b = StructureMove::translate_by_pusher_actor(StructureId(1), one(1, 0, 0), c(0, 0, -1), actor(11, 1), MovementMark::Push);
    let other = push(1, (0, 0, 0), c(1, 0, 0));
    let merged = coalesce_same_push_moves(vec![a, other, b]);
    assert_eq!(merged.len(), 2);
    match &merged[0] {
        StructureMove::Translate { structure, actors, .. } => {
            assert_eq!(structure.len(), 2);
            assert!(structure.contains(c(1, 0, 0)));
            assert_eq!(actors.len(), 2);
            assert_eq!(actors[1].id, BlockId(11));
        }
        _ => panic!("expected a translation"),
    }
}

#[test]
fn merge_drops_falls_held_by_lifts_and_prunes_history() {
    let mut st = StructureState::new();
    let s1 = st.add_structure(
        StructureKind::Material,
        one(0, 3, 3),
        FactoryActivity::Active,
        StructureFreedom::All,
        CellSet::new(),
    );
    let mut history = MovementHistory::new();
    history.record_executed(vec![
        ExecutedMovement { structure_id: s1, source: BlockId(7) },
        ExecutedMovement { structure_id: StructureId(99), source: BlockId(7) },
    ]);
    let planned = vec![fall(3), fall(4)];
    let device = vec![lift(8, c(0, 3, 3), 7), conveyor(9, 12, c(1, 1, 1))];
    let plan = merge_structure_movement_plan(planned, device, &mut history, &st, &[BlockId(7)]);
    assert_eq!(ids(&plan), vec![8, 4, 9]);
    let probe = push(99, (0, 0, 0), c(1, 0, 0)).with_source(BlockId(7), c(0, 0, 0));
    assert_eq!(history.count(&probe), 0);
    let probe = push(s1.0, (0, 0, 0), c(1, 0, 0)).with_source(BlockId(7), c(0, 0, 0));
    assert_eq!(history.count(&probe), 1);
}

#[test]
fn history_counts_and_pruning() {
    let mut history = MovementHistory::new();
    let sourced = |s: u64, b: u64| push(s, (0, 0, 0), c(1, 0, 0)).with_source(BlockId(b), c(0, 0, 0));
    assert_eq!(history.count(&sourced(1, 1)), 0);
    history.record_executed(vec![
        ExecutedMovement { structure_id: StructureId(1), source: BlockId(1) },
        ExecutedMovement { structure_id: StructureId(1), source: BlockId(1) },
        ExecutedMovement { structure_id: StructureId(2), source: BlockId(2) },
    ]);
    assert_eq!(history.count(&sourced(1, 1)), 2);
    assert_eq!(history.count(&sourced(2, 2)), 1);
    assert_eq!(history.count(&push(1, (0, 0, 0), c(1, 0, 0))), 0);
    history.prune_missing(&[StructureId(1)], &[BlockId(1), BlockId(2)]);
    assert_eq!(history.count(&sourced(1, 1)), 2);
    assert_eq!(history.count(&sourced(2, 2)), 0);
    history.prune_missing(&[StructureId(1)], &[BlockId(2)]);
    assert_eq!(history.count(&sourced(1, 1)), 0);
    history.clear();
    assert_eq!(history.count(&sourced(1, 1)), 0);
}

#[test]
fn expansion_mode_by_mark_and_source() {
    assert_eq!(movement_expansion_mode(MovementMark::Vertical, None), MovementExpansionMode::Gravity);
    assert_eq!(movement_expansion_mode(MovementMark::Vertical, Some(BlockId(3))), MovementExpansionMode::Normal);
    assert_eq!(movement_expansion_mode(MovementMark::Push, None), MovementExpansionMode::Normal);
}

#[test]
fn pusher_actor_joins_a_translation() {
    let actor_pos = c(0, 0, 2);
    let base = push(1, (0, 0, 0), c(0, 0, -1)).with_source(BlockId(4), c(0, 0, 3));
    let m = base.with_pusher_actor(BlockId(9), actor_pos, MovementMark::Push, PusherAnimationKind::Retract);
    assert_eq!(m.source(), Some(BlockId(4)));
    assert_eq!(m.source_pos(), Some(c(0, 0, 3)));
    match &m {
        StructureMove::Translate { actors, mark, .. } => {
            assert_eq!(actors.len(), 1);
            assert_eq!(actors[0].pos, actor_pos);
            assert_eq!(actors[0].animation, PusherAnimationKind::Retract);
            assert_eq!(*mark, MovementMark::Push);
        }
        _ => panic!("expected a translation"),
    }
    let unsourced = conveyor(2, 5, c(0, 0, 0)).with_optional_source(None, Some(c(1, 1, 1)));
    assert_eq!(unsourced.source(), Some(BlockId(5)));
    let plain = push(3, (0, 0, 0), c(1, 0, 0)).with_optional_source(Some(BlockId(6)), None);
    assert_eq!(plain.source(), None);
    let turned = StructureMove::rotate(StructureId(4), one(0, 0, 0), c(0, 0, 0), true)
        .with_pusher_actor(BlockId(9), actor_pos, MovementMark::Push, PusherAnimationKind::Extend);
    assert!(matches!(turned, StructureMove::Rotate { .. }));
}

#[test]
fn motion_tags_mark_moving_cells() {
    let mut held = CellSet::new();
    let mut tags: CellMap<Cell> = CellMap::new();
    tags.insert(c(9, 9, 9), c(0, 1, 0));
    let structure = CellSet::from_slice(&[c(0, 0, 0), c(1, 0, 0)]);
    apply_motion_tags(&structure, c(0, 0, 1), &mut held, &mut tags);
    assert_eq!(held.len(), 2);
    assert_eq!(tags.get(c(1, 0, 0)), Some(c(0, 0, 1)));
    assert_eq!(tags.get(c(9, 9, 9)), Some(c(0, 1, 0)));
}
