use oif_sim::cell::Cell;
use oif_sim::cellmap::CellSet;
use oif_sim::ids::StructureId;
use oif_sim::structure::{FactoryActivity, GridBounds, StructureFreedom, StructureKind};
use oif_sim::structure_state::StructureState;

fn cells(list: &[(i32, i32, i32)]) -> CellSet {
    let v: Vec<Cell> = list.iter().map(|&(x, y, z)| Cell::new(x, y, z)).collect();
    CellSet::from_slice(&v)
}

fn c(x: i32, y: i32, z: i32) -> Cell {
    Cell::new(x, y, z)
}

/// A: two factory cells, active, free.  B: one material cell, inactive, fixed, anchored.
fn two_structures() -> (StructureState, StructureId, StructureId) {
    let mut st = StructureState::new();
    let a = st.add_structure(
        StructureKind::Factory,
        cells(&[(0, 0, 0), (1, 0, 0)]),
        FactoryActivity::Active,
        StructureFreedom::All,
        CellSet::new(),
    );
    let b = st.add_structure(
        StructureKind::Material,
        cells(&[(5, 0, 0)]),
        FactoryActivity::Inactive,
        StructureFreedom::Fixed,
        cells(&[(5, 0, 0)]),
    );
    (st, a, b)
}

#[test]
fn identities_are_handed_out_in_order() {
    let (st, a, b) = two_structures();
    assert_eq!(a, StructureId(1));
    assert_eq!(b, StructureId(2));
    assert_eq!(st.structure_ids().len(), 2);
    assert!(!st.is_empty());
}

#[test]
fn cell_queries_follow_the_index() {
    let (st, a, b) = two_structures();
    assert_eq!(st.id_at(c(0, 0, 0)), Some(a));
    assert_eq!(st.structure_id_at(c(1, 0, 0)), Some(a));
    assert_eq!(st.id_at(c(5, 0, 0)), Some(b));
    assert_eq!(st.id_at(c(9, 9, 9)), None);
    assert_eq!(st.kind_at(c(1, 0, 0)), Some(StructureKind::Factory));
    assert_eq!(st.kind_at(c(5, 0, 0)), Some(StructureKind::Material));
    assert_eq!(st.activity_at(c(5, 0, 0)), Some(FactoryActivity::Inactive));
    assert_eq!(st.freedom_at(c(0, 0, 0)), Some(StructureFreedom::All));
    assert_eq!(st.freedom_at(c(2, 0, 0)), None);
    assert!(st.structure_contains(c(0, 0, 0), c(1, 0, 0)));
    assert!(!st.structure_contains(c(0, 0, 0), c(5, 0, 0)));
    assert!(!st.structure_contains(c(3, 3, 3), c(3, 3, 3)));
}

#[test]
fn pushable_requires_freedom_and_no_scene_contact() {
    let (st, _a, _b) = two_structures();
    let right = c(1, 0, 0);
    let pushed = st.pushable_structure_at(c(0, 0, 0), right).unwrap();
    assert_eq!(pushed.len(), 2);
    assert!(pushed.contains(c(1, 0, 0)));
    assert!(st.pushable_structure_at(c(5, 0, 0), right).is_none());
    assert!(st.active_structure_at(c(9, 0, 0), right).is_none());
    assert!(st.pushable_structure_positions_at(c(1, 0, 0), right).is_some());
}

#[test]
fn falling_and_movable_need_an_active_structure() {
    let (st, a, _b) = two_structures();
    let down = c(0, -1, 0);
    let (id, members) = st.falling_structure_at(c(1, 0, 0), down).unwrap();
    assert_eq!(id, a);
    assert_eq!(members.len(), 2);
    assert!(st.falling_structure_at(c(5, 0, 0), down).is_none());
    assert!(st.movable_structure_at(c(0, 0, 0)).is_some());
    assert!(st.movable_structure_at(c(5, 0, 0)).is_none());
}

#[test]
fn bounds_of_members() {
    let b = GridBounds::from_positions(&cells(&[(2, -1, 4), (0, 3, 4), (1, 0, -2)])).unwrap();
    assert_eq!(b.min, c(0, -1, -2));
    assert_eq!(b.max, c(2, 3, 4));
    assert!(GridBounds::from_positions(&CellSet::new()).is_none());
}

#[test]
fn translate_moves_members_index_and_bounds() {
    let (mut st, a, b) = two_structures();
    st.translate(&cells(&[(0, 0, 0), (1, 0, 0)]), c(0, 1, 0));
    assert_eq!(st.id_at(c(0, 1, 0)), Some(a));
    assert_eq!(st.id_at(c(1, 1, 0)), Some(a));
    assert_eq!(st.id_at(c(0, 0, 0)), None);
    assert_eq!(st.id_at(c(1, 0, 0)), None);
    let moved = st.get(a).unwrap();
    assert_eq!(moved.bounds, Some(GridBounds { min: c(0, 1, 0), max: c(1, 1, 0) }));
    assert_eq!(moved.kind, StructureKind::Factory);
    assert_eq!(st.id_at(c(5, 0, 0)), Some(b));
}

#[test]
fn translate_of_part_of_a_structure_moves_only_those_cells() {
    let (mut st, a, _b) = two_structures();
    st.translate(&cells(&[(0, 0, 0)]), c(0, 0, 1));
    let s = st.get(a).unwrap();
    assert!(s.positions.contains(c(0, 0, 1)));
    assert!(s.positions.contains(c(1, 0, 0)));
    assert!(!s.positions.contains(c(0, 0, 0)));
    assert_eq!(st.id_at(c(0, 0, 1)), Some(a));
    assert_eq!(st.id_at(c(0, 0, 0)), None);
}

#[test]
fn translate_carries_scene_contacts() {
    let mut st = StructureState::new();
    let id = st.add_structure(
        StructureKind::Material,
        cells(&[(0, 0, 0)]),
        FactoryActivity::Active,
        StructureFreedom::All,
        cells(&[(0, 0, 0)]),
    );
    st.translate(&cells(&[(0, 0, 0)]), c(1, 0, 0));
    let s = st.get(id).unwrap();
    assert!(s.scene_touching.contains(c(1, 0, 0)));
    assert!(!s.scene_touching.contains(c(0, 0, 0)));
}

#[test]
fn replace_positions_of_the_owning_structure() {
    let (mut st, a, b) = two_structures();
    let old = st.structure_positions(a).unwrap().clone();
    st.replace_structure_positions(&old, cells(&[(3, 3, 3), (3, 4, 3)]));
    assert_eq!(st.id_at(c(3, 3, 3)), Some(a));
    assert_eq!(st.id_at(c(3, 4, 3)), Some(a));
    assert_eq!(st.id_at(c(0, 0, 0)), None);
    assert_eq!(st.get(a).unwrap().bounds, Some(GridBounds { min: c(3, 3, 3), max: c(3, 4, 3) }));
    assert_eq!(st.id_at(c(5, 0, 0)), Some(b));
}

#[test]
fn replace_positions_of_unowned_cells_changes_nothing() {
    let (mut st, a, _b) = two_structures();
    st.replace_structure_positions(&cells(&[(7, 7, 7)]), cells(&[(8, 8, 8)]));
    assert_eq!(st.id_at(c(8, 8, 8)), None);
    assert_eq!(st.id_at(c(0, 0, 0)), Some(a));
    assert_eq!(st.get(a).unwrap().positions.len(), 2);
}

#[test]
fn gravity_order_is_lowest_first_and_active_only() {
    let mut st = StructureState::new();
    let high = st.add_structure(
        StructureKind::Factory,
        cells(&[(0, 5, 0), (0, 6, 0)]),
        FactoryActivity::Active,
        StructureFreedom::All,
        CellSet::new(),
    );
    let low = st.add_structure(
        StructureKind::Material,
        cells(&[(4, 2, 0)]),
        FactoryActivity::Active,
        StructureFreedom::All,
        CellSet::new(),
    );
    let _idle = st.add_structure(
        StructureKind::Factory,
        cells(&[(9, 0, 0)]),
        FactoryActivity::Inactive,
        StructureFreedom::All,
        CellSet::new(),
    );
    assert_eq!(st.gravity_structure_ids(), vec![low, high]);
}

#[test]
fn clear_forgets_everything() {
    let (mut st, _a, _b) = two_structures();
    st.clear_turn_marks();
    assert!(!st.is_empty());
    st.clear();
    assert!(st.is_empty());
    assert_eq!(st.id_at(c(0, 0, 0)), None);
    let again = st.add_structure(
        StructureKind::Factory,
        cells(&[(0, 0, 0)]),
        FactoryActivity::Active,
        StructureFreedom::All,
        CellSet::new(),
    );
    assert_eq!(again, StructureId(1));
}

#[test]
fn translate_and_back_restores_the_table() {
    let (mut st, a, b) = two_structures();
    let before = st.get(a).unwrap().bounds;
    st.translate(&cells(&[(0, 0, 0), (1, 0, 0)]), c(0, 0, 2));
    st.translate(&cells(&[(0, 0, 2), (1, 0, 2)]), c(0, 0, -2));
    assert_eq!(st.id_at(c(0, 0, 0)), Some(a));
    assert_eq!(st.id_at(c(1, 0, 0)), Some(a));
    assert_eq!(st.id_at(c(0, 0, 2)), None);
    assert_eq!(st.get(a).unwrap().bounds, before);
    assert_eq!(st.get(a).unwrap().positions.len(), 2);
    assert_eq!(st.id_at(c(5, 0, 0)), Some(b));
}
