use oif_sim::cell::Cell;
use oif_sim::cellmap::{CellMap, CellSet};
use oif_sim::factory::{connected_factory_subset, scene_touching_cells, touches_scene, FactoryLink};
use oif_sim::ids::StructureId;
use oif_sim::structure::{FactoryActivity, StructureFreedom, StructureKind};
use oif_sim::structure_state::StructureState;

fn c(x: i32, y: i32, z: i32) -> Cell {
    Cell::new(x, y, z)
}

fn cells(list: &[(i32, i32, i32)]) -> CellSet {
    let v: Vec<Cell> = list.iter().map(|&(x, y, z)| Cell::new(x, y, z)).collect();
    CellSet::from_slice(&v)
}

fn sorted(s: &CellSet) -> Vec<(i32, i32, i32)> {
    let mut v: Vec<(i32, i32, i32)> = s.to_vec().iter().map(|p| (p.x, p.y, p.z)).collect();
    v.sort();
    v
}

fn sealed(face: Cell) -> FactoryLink {
    FactoryLink { head: false, sealed: Some(face) }
}

fn head() -> FactoryLink {
    FactoryLink { head: true, sealed: None }
}

#[test]
fn factory_cells_in_a_row_form_one_structure() {
    let view: CellMap<FactoryLink> = CellMap::new();
    let allowed = cells(&[(0, 0, 0), (1, 0, 0), (2, 0, 0), (5, 0, 0)]);
    let r = connected_factory_subset(&view, &allowed, c(0, 0, 0), None);
    assert_eq!(sorted(&r), vec![(0, 0, 0), (1, 0, 0), (2, 0, 0)]);
    let lone = connected_factory_subset(&view, &allowed, c(5, 0, 0), None);
    assert_eq!(sorted(&lone), vec![(5, 0, 0)]);
}

#[test]
fn a_sealed_face_does_not_connect_either_way() {
    let mut view: CellMap<FactoryLink> = CellMap::new();
    view.insert(c(1, 0, 0), sealed(c(-1, 0, 0)));
    let allowed = cells(&[(0, 0, 0), (1, 0, 0), (2, 0, 0)]);
    let from_left = connected_factory_subset(&view, &allowed, c(0, 0, 0), None);
    assert_eq!(sorted(&from_left), vec![(0, 0, 0)]);
    let from_middle = connected_factory_subset(&view, &allowed, c(1, 0, 0), None);
    assert_eq!(sorted(&from_middle), vec![(1, 0, 0), (2, 0, 0)]);
}

#[test]
fn an_extended_head_joins_what_touches_it_without_belonging() {
    let mut view: CellMap<FactoryLink> = CellMap::new();
    view.insert(c(1, 0, 0), head());
    let allowed = cells(&[(0, 0, 0), (2, 0, 0), (1, 1, 0)]);
    let r = connected_factory_subset(&view, &allowed, c(0, 0, 0), None);
    assert_eq!(sorted(&r), vec![(0, 0, 0), (1, 1, 0), (2, 0, 0)]);
    assert!(!r.contains(c(1, 0, 0)));
}

#[test]
fn the_cut_edge_is_not_crossed() {
    let view: CellMap<FactoryLink> = CellMap::new();
    let allowed = cells(&[(0, 0, 0), (1, 0, 0), (1, 1, 0)]);
    let r = connected_factory_subset(&view, &allowed, c(0, 0, 0), Some((c(0, 0, 0), c(1, 0, 0))));
    assert_eq!(sorted(&r), vec![(0, 0, 0)]);
    let other = connected_factory_subset(&view, &allowed, c(1, 1, 0), Some((c(0, 0, 0), c(1, 0, 0))));
    assert_eq!(sorted(&other), vec![(1, 0, 0), (1, 1, 0)]);
}

#[test]
fn scene_contact_needs_an_open_face() {
    let mut view: CellMap<FactoryLink> = CellMap::new();
    let scene = cells(&[(0, 1, 0)]);
    let structure = cells(&[(0, 0, 0), (3, 0, 0)]);
    assert!(touches_scene(&view, &scene, &structure));
    assert!(!touches_scene(&view, &scene, &cells(&[(3, 0, 0)])));
    view.insert(c(0, 0, 0), sealed(c(0, 1, 0)));
    assert!(!touches_scene(&view, &scene, &structure));
}

#[test]
fn scene_touching_cells_are_those_next_to_the_scene() {
    let view: CellMap<FactoryLink> = CellMap::new();
    let scene = cells(&[(1, 1, 0), (9, 9, 9)]);
    let positions = cells(&[(0, 0, 0), (1, 0, 0), (2, 0, 0)]);
    let t = scene_touching_cells(&view, &scene, &positions);
    assert_eq!(sorted(&t), vec![(1, 0, 0)]);
}

#[test]
fn factory_structures_are_grown_in_cell_order() {
    let view: CellMap<FactoryLink> = CellMap::new();
    let factory = cells(&[(0, 0, 0), (1, 0, 0), (5, 0, 0)]);
    let mut st = StructureState::new();
    st.append_connected_factory_structures(&view, &factory, &vec![c(5, 0, 0), c(1, 0, 0), c(0, 0, 0), c(7, 7, 7)]);
    assert_eq!(st.id_at(c(0, 0, 0)), Some(StructureId(1)));
    assert_eq!(st.id_at(c(1, 0, 0)), Some(StructureId(1)));
    assert_eq!(st.id_at(c(5, 0, 0)), Some(StructureId(2)));
    assert_eq!(st.id_at(c(7, 7, 7)), None);
    assert_eq!(st.structure_ids().len(), 2);
    let first = st.get(StructureId(1)).unwrap();
    assert_eq!(first.kind, StructureKind::Factory);
    assert_eq!(first.activity, FactoryActivity::Active);
    assert_eq!(first.freedom, StructureFreedom::All);
    assert_eq!(sorted(&first.positions), vec![(0, 0, 0), (1, 0, 0)]);
}

#[test]
fn owned_cells_are_not_grown_again() {
    let view: CellMap<FactoryLink> = CellMap::new();
    let factory = cells(&[(0, 0, 0), (1, 0, 0), (5, 0, 0)]);
    let mut st = StructureState::new();
    st.append_factory_structures(&view, &factory);
    assert_eq!(st.structure_ids().len(), 2);
    st.append_factory_structures(&view, &factory);
    assert_eq!(st.structure_ids().len(), 2);
    assert_eq!(st.id_at(c(5, 0, 0)), Some(StructureId(2)));
}

#[test]
fn refreshing_from_the_scene_fixes_what_touches_it() {
    let view: CellMap<FactoryLink> = CellMap::new();
    let factory = cells(&[(0, 0, 0), (1, 0, 0), (5, 0, 0)]);
    let scene = cells(&[(5, 1, 0)]);
    let mut st = StructureState::new();
    st.append_factory_structures(&view, &factory);
    st.refresh_all_factory_activity_from_scene(&view, &scene);
    let touching = st.get(StructureId(2)).unwrap();
    assert_eq!(touching.activity, FactoryActivity::Inactive);
    assert_eq!(touching.freedom, StructureFreedom::Fixed);
    assert_eq!(sorted(&touching.scene_touching), vec![(5, 0, 0)]);
    let free = st.get(StructureId(1)).unwrap();
    assert_eq!(free.activity, FactoryActivity::Active);
    assert_eq!(free.freedom, StructureFreedom::All);
    assert!(free.scene_touching.is_empty());
}

#[test]
fn refreshing_only_the_listed_structures() {
    let view: CellMap<FactoryLink> = CellMap::new();
    let factory = cells(&[(0, 0, 0), (5, 0, 0)]);
    let scene = cells(&[(0, 1, 0), (5, 1, 0)]);
    let mut st = StructureState::new();
    st.append_factory_structures(&view, &factory);
    st.refresh_factory_activity_from_scene(&view, &scene, &vec![StructureId(2), StructureId(9)]);
    assert_eq!(st.get(StructureId(1)).unwrap().activity, FactoryActivity::Active);
    assert_eq!(st.get(StructureId(2)).unwrap().activity, FactoryActivity::Inactive);
}

/// A touches the scene; B touches A; C touches nothing.
fn three_factories(view: &CellMap<FactoryLink>) -> StructureState {
    let mut st = StructureState::new();
    st.add_structure(StructureKind::Factory, cells(&[(0, 0, 0)]), FactoryActivity::Active, StructureFreedom::All, CellSet::new());
    st.add_structure(StructureKind::Factory, cells(&[(1, 0, 0), (2, 0, 0)]), FactoryActivity::Active, StructureFreedom::All, CellSet::new());
    st.add_structure(StructureKind::Factory, cells(&[(9, 0, 0)]), FactoryActivity::Inactive, StructureFreedom::Fixed, CellSet::new());
    let scene = cells(&[(0, 1, 0)]);
    st.apply_factory_inactive_propagation(view, &scene);
    st
}

#[test]
fn inactivity_spreads_through_touching_factories() {
    let view: CellMap<FactoryLink> = CellMap::new();
    let st = three_factories(&view);
    let a = st.get(StructureId(1)).unwrap();
    assert_eq!((a.activity, a.freedom), (FactoryActivity::Inactive, StructureFreedom::Fixed));
    let b = st.get(StructureId(2)).unwrap();
    assert_eq!((b.activity, b.freedom), (FactoryActivity::Inactive, StructureFreedom::All));
    let far = st.get(StructureId(3)).unwrap();
    assert_eq!((far.activity, far.freedom), (FactoryActivity::Active, StructureFreedom::All));
}

#[test]
fn a_sealed_face_stops_the_spreading() {
    let mut view: CellMap<FactoryLink> = CellMap::new();
    view.insert(c(1, 0, 0), sealed(c(-1, 0, 0)));
    let st = three_factories(&view);
    let b = st.get(StructureId(2)).unwrap();
    assert_eq!((b.activity, b.freedom), (FactoryActivity::Active, StructureFreedom::All));
    assert_eq!(st.get(StructureId(1)).unwrap().activity, FactoryActivity::Inactive);
}

#[test]
fn material_structures_do_not_carry_inactivity() {
    let view: CellMap<FactoryLink> = CellMap::new();
    let mut st = StructureState::new();
    st.add_structure(StructureKind::Factory, cells(&[(0, 0, 0)]), FactoryActivity::Active, StructureFreedom::All, CellSet::new());
    st.add_structure(StructureKind::Material, cells(&[(1, 0, 0)]), FactoryActivity::Active, StructureFreedom::All, CellSet::new());
    st.add_structure(StructureKind::Factory, cells(&[(2, 0, 0)]), FactoryActivity::Active, StructureFreedom::All, CellSet::new());
    st.apply_factory_inactive_propagation(&view, &cells(&[(0, 1, 0)]));
    assert_eq!(st.get(StructureId(1)).unwrap().activity, FactoryActivity::Inactive);
    assert_eq!(st.get(StructureId(2)).unwrap().activity, FactoryActivity::Active);
    assert_eq!(st.get(StructureId(3)).unwrap().activity, FactoryActivity::Active);
}

#[test]
fn querying_a_factory_structure_from_any_cell() {
    let view: CellMap<FactoryLink> = CellMap::new();
    let factory = cells(&[(0, 0, 0), (1, 0, 0), (5, 0, 0)]);
    let r = oif_sim::factory::query_factory_structure(&view, &factory, c(1, 0, 0)).unwrap();
    assert_eq!(sorted(&r), vec![(0, 0, 0), (1, 0, 0)]);
    assert!(oif_sim::factory::query_factory_structure(&view, &factory, c(2, 0, 0)).is_none());
}

#[test]
fn a_pusher_pushes_another_free_factory_whole() {
    let mut st = StructureState::new();
    let a = st.add_structure(StructureKind::Factory, cells(&[(0, 0, 0)]), FactoryActivity::Active, StructureFreedom::All, CellSet::new());
    st.add_structure(StructureKind::Factory, cells(&[(1, 0, 0), (2, 0, 0)]), FactoryActivity::Active, StructureFreedom::All, CellSet::new());
    st.add_structure(StructureKind::Factory, cells(&[(0, 1, 0)]), FactoryActivity::Inactive, StructureFreedom::Fixed, cells(&[(0, 1, 0)]));
    st.add_structure(StructureKind::Material, cells(&[(0, 0, 1)]), FactoryActivity::Active, StructureFreedom::All, CellSet::new());
    let pushed = st.pusher_target_structure(c(0, 0, 0), c(1, 0, 0), c(1, 0, 0)).unwrap();
    assert_eq!(sorted(&pushed), vec![(1, 0, 0), (2, 0, 0)]);
    assert!(st.pusher_target_structure(c(0, 0, 0), c(0, 1, 0), c(0, 1, 0)).is_none());
    assert!(st.pusher_target_structure(c(0, 0, 0), c(0, 0, 1), c(0, 0, 1)).is_none());
    assert!(st.pusher_target_structure(c(0, 0, 0), c(0, 0, 0), c(1, 0, 0)).is_none());
    assert_eq!(st.id_at(c(0, 0, 0)), Some(a));
}
