use oif_sim::cell::Cell;
use oif_sim::cellmap::{CellMap, CellSet};
use oif_sim::deform_graph::DeformBlock;
use oif_sim::ids::BlockId;
use oif_sim::structure::{FactoryActivity, StructureFreedom, StructureKind};
use oif_sim::structure_state::StructureState;
use oif_sim::turn::{after_move_phases, refresh_materials_after_turn, AfterMovePhases};

fn c(x: i32, y: i32, z: i32) -> Cell {
    Cell::new(x, y, z)
}

fn blocks() -> CellMap<DeformBlock> {
    let mut m: CellMap<DeformBlock> = CellMap::new();
    m.insert(c(0, 0, 0), DeformBlock { id: BlockId(1), push: Some(c(1, 0, 0)), forward: c(1, 0, 0), head: false, sealed: None });
    m.insert(c(1, 0, 0), DeformBlock { id: BlockId(2), push: None, forward: c(0, 0, -1), head: false, sealed: None });
    m.insert(c(-1, 0, 0), DeformBlock { id: BlockId(3), push: None, forward: c(0, 0, -1), head: false, sealed: None });
    m
}

fn table(activity: FactoryActivity, cells: &[Cell]) -> (StructureState, oif_sim::ids::StructureId) {
    let mut st = StructureState::new();
    let id = st.add_structure(StructureKind::Factory, CellSet::from_slice(cells), activity, StructureFreedom::All, CellSet::new());
    (st, id)
}

#[test]
fn an_active_structure_without_heads_is_deformed_before_acting() {
    let m = blocks();
    let (mut st, id) = table(FactoryActivity::Active, &[c(0, 0, 0), c(1, 0, 0), c(-1, 0, 0)]);
    let actuating = CellSet::from_slice(&[c(0, 0, 0)]);
    assert!(st.needs_deform(&m, &actuating, id));
    st.prepare_actuating_deform(&m, &CellSet::new(), 10, &actuating);
    let s = st.get(id).unwrap();
    assert_eq!(s.head_of, vec![(BlockId(1), BlockId(10))]);
    assert_eq!(s.deform_groups.len(), 2);
    assert!(!st.needs_deform(&m, &actuating, id));
}

#[test]
fn an_inactive_structure_needs_a_member_in_front() {
    let m = blocks();
    let (st, id) = table(FactoryActivity::Inactive, &[c(0, 0, 0), c(1, 0, 0), c(-1, 0, 0)]);
    let actuating = CellSet::from_slice(&[c(0, 0, 0)]);
    assert!(st.needs_deform(&m, &actuating, id));
    let (lone, lone_id) = table(FactoryActivity::Inactive, &[c(0, 0, 0)]);
    assert!(!lone.needs_deform(&m, &actuating, lone_id));
    assert!(!st.needs_deform(&m, &CellSet::new(), id));
}

#[test]
fn structures_no_device_acts_on_are_left_alone() {
    let m = blocks();
    let (mut st, id) = table(FactoryActivity::Active, &[c(0, 0, 0), c(1, 0, 0), c(-1, 0, 0)]);
    st.prepare_actuating_deform(&m, &CellSet::new(), 10, &CellSet::from_slice(&[c(7, 7, 7)]));
    assert!(st.get(id).unwrap().head_of.is_empty());
    assert!(st.get(id).unwrap().deform_groups.is_empty());
}

#[test]
fn after_move_phases_follow_what_the_turn_held() {
    assert_eq!(
        after_move_phases(false, false, true, true),
        AfterMovePhases { destroy: false, teleport_and_convert: false, accept: false, weld: false, label: false }
    );
    assert_eq!(
        after_move_phases(false, true, false, false),
        AfterMovePhases { destroy: true, teleport_and_convert: false, accept: false, weld: false, label: false }
    );
    assert_eq!(
        after_move_phases(true, false, false, true),
        AfterMovePhases { destroy: true, teleport_and_convert: false, accept: true, weld: false, label: true }
    );
    assert_eq!(
        after_move_phases(true, false, true, false),
        AfterMovePhases { destroy: true, teleport_and_convert: true, accept: false, weld: true, label: true }
    );
    assert!(refresh_materials_after_turn(false, 3));
    assert!(!refresh_materials_after_turn(false, 0));
    assert!(refresh_materials_after_turn(true, 0));
}
