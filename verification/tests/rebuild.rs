use oif_sim::cell::Cell;
use oif_sim::cellmap::{CellMap, CellSet};
use oif_sim::deform_graph::DeformBlock;
use oif_sim::ids::{AcceptorId, BlockId, MaterialWeld, StructureId};
use oif_sim::rebuild::StructureWorld;
use oif_sim::structure::{FactoryActivity, StoredAcceptorStructure, StructureFreedom, StructureKind};
use oif_sim::structure_state::StructureState;

fn c(x: i32, y: i32, z: i32) -> Cell {
    Cell::new(x, y, z)
}

fn block(id: u64, push: Option<Cell>) -> DeformBlock {
    DeformBlock { id: BlockId(id), push, forward: push.unwrap_or(c(0, 0, -1)), head: false, sealed: None }
}

/// A factory of a pusher (1) with a block on each side (2 in front, 3 behind), a
/// lone factory block (4) touching the scene, two welded materials (5, 6) and a loose
/// one (7), one acceptor.
fn world() -> StructureWorld {
    let mut blocks: CellMap<DeformBlock> = CellMap::new();
    blocks.insert(c(0, 0, 0), block(1, Some(c(1, 0, 0))));
    blocks.insert(c(1, 0, 0), block(2, None));
    blocks.insert(c(-1, 0, 0), block(3, None));
    blocks.insert(c(10, 0, 0), block(4, None));
    blocks.insert(c(0, 5, 0), block(5, None));
    blocks.insert(c(1, 5, 0), block(6, None));
    blocks.insert(c(3, 5, 0), block(7, None));
    let factory = CellSet::from_slice(&[c(0, 0, 0), c(1, 0, 0), c(-1, 0, 0), c(10, 0, 0)]);
    let scene = CellSet::from_slice(&[c(10, -1, 0)]);
    let mut materials: CellMap<BlockId> = CellMap::new();
    materials.insert(c(0, 5, 0), BlockId(5));
    materials.insert(c(1, 5, 0), BlockId(6));
    materials.insert(c(3, 5, 0), BlockId(7));
    StructureWorld {
        blocks,
        factory,
        scene,
        materials,
        welds: vec![MaterialWeld::new(BlockId(5), BlockId(6))],
        acceptors: vec![StoredAcceptorStructure { id: AcceptorId(3), positions: vec![c(20, 0, 0), c(21, 0, 0)] }],
        next_block_id: 100,
        topology_revision: 0,
    }
}

#[test]
fn a_full_rebuild_builds_every_kind_of_structure() {
    let w = world();
    let mut st = StructureState::new();
    st.rebuild_for_simulation(&w);
    let factory = st.id_at(c(0, 0, 0)).unwrap();
    assert_eq!(st.id_at(c(1, 0, 0)), Some(factory));
    assert_eq!(st.id_at(c(-1, 0, 0)), Some(factory));
    let lone = st.id_at(c(10, 0, 0)).unwrap();
    assert_ne!(lone, factory);
    let s = st.get(factory).unwrap();
    assert_eq!(s.kind, StructureKind::Factory);
    assert_eq!(s.head_of, vec![(BlockId(1), BlockId(100))]);
    assert_eq!(s.deform_groups.len(), 2);
    let anchored = st.get(lone).unwrap();
    assert_eq!((anchored.activity, anchored.freedom), (FactoryActivity::Inactive, StructureFreedom::Fixed));
    let welded = st.id_at(c(0, 5, 0)).unwrap();
    assert_eq!(st.id_at(c(1, 5, 0)), Some(welded));
    assert_eq!(st.kind_at(c(0, 5, 0)), Some(StructureKind::Material));
    assert_ne!(st.id_at(c(3, 5, 0)), Some(welded));
    assert_eq!(st.structure_ids().len(), 4);
    assert_eq!(st.acceptor_structures().len(), 1);
    assert_eq!(st.acceptor_structures()[0].id, AcceptorId(3));
    assert_eq!(st.acceptor_structures()[0].count, 0);
}

#[test]
fn a_runtime_rebuild_leaves_deformation_for_later() {
    let w = world();
    let mut st = StructureState::new();
    st.rebuild_for_runtime(&w);
    let factory = st.id_at(c(0, 0, 0)).unwrap();
    let s = st.get(factory).unwrap();
    assert!(s.deform_groups.is_empty());
    assert!(s.head_of.is_empty());
}

#[test]
fn acceptor_counts_saturate_and_ignore_bad_indices() {
    let w = world();
    let mut st = StructureState::new();
    st.rebuild_for_simulation(&w);
    st.increment_acceptor_count(0);
    st.increment_acceptor_count(0);
    st.increment_acceptor_count(7);
    assert_eq!(st.acceptor_structures()[0].count, 2);
}

#[test]
fn starting_a_simulation_keeps_factories_and_refreshes_the_rest() {
    let w = world();
    let mut st = StructureState::new();
    st.rebuild_for_simulation(&w);
    let factory = st.id_at(c(0, 0, 0)).unwrap();
    let welded = st.id_at(c(0, 5, 0)).unwrap();
    st.increment_acceptor_count(0);
    st.refresh_for_simulation_start(&w);
    assert_eq!(st.id_at(c(0, 0, 0)), Some(factory));
    assert_eq!(st.get(factory).unwrap().deform_groups.len(), 2);
    assert_eq!(st.id_at(c(0, 5, 0)), Some(welded));
    assert_eq!(st.acceptor_structures()[0].count, 0);
}

#[test]
fn starting_without_factories_rebuilds_everything() {
    let w = world();
    let mut st = StructureState::new();
    st.refresh_for_simulation_start(&w);
    assert!(st.id_at(c(0, 0, 0)).is_some());
    assert!(st.id_at(c(0, 5, 0)).is_some());
    assert_eq!(st.get(StructureId(1)).unwrap().kind, StructureKind::Factory);
}

#[test]
fn editing_a_factory_regrows_the_structures_near_the_edit() {
    let w = world();
    let mut st = StructureState::new();
    st.rebuild_for_runtime(&w);
    assert_eq!(st.id_at(c(-1, 0, 0)), Some(StructureId(1)));
    assert_eq!(st.id_at(c(10, 0, 0)), Some(StructureId(2)));
    let mut edited = world();
    edited.blocks.remove(c(-1, 0, 0));
    edited.factory.remove(c(-1, 0, 0));
    let changed = CellSet::from_slice(&[c(-1, 0, 0)]);
    st.apply_factory_edit(&edited, &changed);
    assert_eq!(st.id_at(c(-1, 0, 0)), None);
    assert_eq!(st.id_at(c(0, 0, 0)), Some(StructureId(5)));
    assert_eq!(st.id_at(c(1, 0, 0)), Some(StructureId(5)));
    assert!(st.get(StructureId(1)).is_none());
    let regrown = st.get(StructureId(5)).unwrap();
    assert_eq!(regrown.kind, StructureKind::Factory);
    assert_eq!((regrown.activity, regrown.freedom), (FactoryActivity::Active, StructureFreedom::All));
    assert_eq!(st.id_at(c(10, 0, 0)), Some(StructureId(2)));
    assert_eq!(st.id_at(c(0, 5, 0)), Some(StructureId(3)));
    assert_eq!(st.id_at(c(3, 5, 0)), Some(StructureId(4)));
}

#[test]
fn editing_a_weld_merges_the_material_structures_it_joins() {
    let w = world();
    let mut st = StructureState::new();
    st.rebuild_for_runtime(&w);
    assert_eq!(st.id_at(c(1, 5, 0)), Some(StructureId(3)));
    assert_eq!(st.id_at(c(3, 5, 0)), Some(StructureId(4)));
    let mut edited = world();
    edited.welds.push(MaterialWeld::new(BlockId(6), BlockId(7)));
    let changed = CellSet::from_slice(&[c(3, 5, 0)]);
    st.apply_factory_edit(&edited, &changed);
    assert_eq!(st.id_at(c(0, 5, 0)), Some(StructureId(5)));
    assert_eq!(st.id_at(c(1, 5, 0)), Some(StructureId(5)));
    assert_eq!(st.id_at(c(3, 5, 0)), Some(StructureId(5)));
    assert!(st.get(StructureId(3)).is_none());
    assert!(st.get(StructureId(4)).is_none());
    assert_eq!(st.id_at(c(0, 0, 0)), Some(StructureId(1)));
    assert_eq!(st.id_at(c(10, 0, 0)), Some(StructureId(2)));
}

#[test]
fn an_edit_that_keeps_a_member_set_keeps_its_identity() {
    let w = world();
    let mut st = StructureState::new();
    st.rebuild_for_runtime(&w);
    let changed = CellSet::from_slice(&[c(3, 5, 0)]);
    st.apply_factory_edit(&w, &changed);
    assert_eq!(st.id_at(c(3, 5, 0)), Some(StructureId(4)));
    assert_eq!(st.id_at(c(0, 5, 0)), Some(StructureId(3)));
    assert_eq!(st.structure_ids().len(), 4);
}

#[test]
fn an_edit_at_no_cell_changes_nothing() {
    let w = world();
    let mut st = StructureState::new();
    st.rebuild_for_runtime(&w);
    st.apply_factory_edit(&w, &CellSet::new());
    assert_eq!(st.structure_ids().len(), 4);
    assert_eq!(st.id_at(c(0, 0, 0)), Some(StructureId(1)));
}

#[test]
fn the_debug_rebuild_keeps_factories_and_drops_materials() {
    let w = world();
    let mut st = StructureState::new();
    st.rebuild_for_runtime(&w);
    st.rebuild_factory_for_debug(&w);
    assert_eq!(st.id_at(c(0, 0, 0)), Some(StructureId(1)));
    assert_eq!(st.id_at(c(0, 5, 0)), None);
    let s = st.get(StructureId(1)).unwrap();
    assert_eq!(s.deform_groups.len(), 2);
    assert_eq!(s.head_of, vec![(BlockId(1), BlockId(100))]);
    let lone = st.get(StructureId(2)).unwrap();
    assert_eq!(lone.activity, FactoryActivity::Inactive);
    assert_eq!(st.structure_ids().len(), 2);
}
