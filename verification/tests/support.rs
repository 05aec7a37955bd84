use oif_sim::cell::Cell;
use oif_sim::cellmap::CellSet;
use oif_sim::ids::StructureId;
use oif_sim::structure::{FactoryActivity, StructureFreedom, StructureKind};
use oif_sim::structure_state::StructureState;

fn c(x: i32, y: i32, z: i32) -> Cell {
    Cell::new(x, y, z)
}

fn set(list: &[Cell]) -> CellSet {
    CellSet::from_slice(list)
}

/// A material block at (0, 1, 0) above a scene block at (0, 0, 0), and an inactive
/// factory block at (5, 0, 0) under a material block at (5, 1, 0).
fn table() -> (StructureState, StructureId, StructureId) {
    let mut st = StructureState::new();
    let on_scene = st.add_structure(StructureKind::Material, set(&[c(0, 1, 0)]), FactoryActivity::Active, StructureFreedom::All, CellSet::new());
    st.add_structure(StructureKind::Factory, set(&[c(5, 0, 0)]), FactoryActivity::Inactive, StructureFreedom::Fixed, CellSet::new());
    let on_factory = st.add_structure(StructureKind::Material, set(&[c(5, 1, 0)]), FactoryActivity::Active, StructureFreedom::All, CellSet::new());
    (st, on_scene, on_factory)
}

#[test]
fn a_recorded_support_on_the_scene_holds() {
    let (mut st, a, _) = table();
    let solid = set(&[c(0, 0, 0), c(5, 0, 0)]);
    let scene = set(&[c(0, 0, 0)]);
    let none = CellSet::new();
    assert!(!st.gravity_support_valid(a, &solid, &scene, &none));
    st.record_gravity_support(a, &solid, &none);
    assert_eq!(st.get(a).unwrap().gravity_support, vec![(c(0, 1, 0), c(0, -1, 0))]);
    assert!(st.gravity_support_valid(a, &solid, &scene, &none));
    assert!(!st.gravity_support_valid(a, &solid, &none, &none));
    st.clear_gravity_support(a);
    assert!(st.get(a).unwrap().gravity_support.is_empty());
    assert!(!st.gravity_support_valid(a, &solid, &scene, &none));
}

#[test]
fn an_inactive_factory_is_a_stable_support() {
    let (mut st, _, b) = table();
    let solid = set(&[c(5, 0, 0)]);
    let none = CellSet::new();
    assert!(st.try_record_stable_gravity_support(b, &solid, &none, &none));
    assert_eq!(st.get(b).unwrap().gravity_support, vec![(c(5, 1, 0), c(0, -1, 0))]);
    assert!(st.gravity_support_valid(b, &solid, &none, &none));
}

#[test]
fn a_cell_that_gives_way_is_no_support() {
    let (mut st, a, _) = table();
    let none = CellSet::new();
    let scene = set(&[c(0, 0, 0)]);
    assert!(!st.try_record_stable_gravity_support(a, &none, &scene, &none));
    assert!(st.get(a).unwrap().gravity_support.is_empty());
    let hard = set(&[c(0, 0, 0)]);
    assert!(st.try_record_stable_gravity_support(a, &none, &scene, &hard));
}

#[test]
fn members_on_the_floor_record_no_support() {
    let mut st = StructureState::new();
    let id = st.add_structure(StructureKind::Material, set(&[c(0, 0, 0)]), FactoryActivity::Active, StructureFreedom::All, CellSet::new());
    let solid = set(&[c(0, -1, 0)]);
    st.record_gravity_support(id, &solid, &CellSet::new());
    assert!(st.get(id).unwrap().gravity_support.is_empty());
    assert!(!st.gravity_support_valid(StructureId(99), &solid, &solid, &solid));
}

#[test]
fn translating_carries_the_recorded_supports() {
    let (mut st, a, _) = table();
    let solid = set(&[c(0, 0, 0)]);
    st.record_gravity_support(a, &solid, &CellSet::new());
    st.translate(&set(&[c(0, 1, 0)]), c(0, 2, 0));
    assert_eq!(st.get(a).unwrap().gravity_support, vec![(c(0, 3, 0), c(0, -1, 0))]);
}
