use oif_sim::cell::{Cell, Facing};
use oif_sim::cellmap::CellSet;
use oif_sim::ids::StructureId;
use oif_sim::occupancy::MovingOccupancy;
use oif_sim::structure::{FactoryActivity, StructureFreedom, StructureKind};
use oif_sim::structure_state::StructureState;
use oif_sim::suction::{SuctionCup, SuctionLinks};

fn c(x: i32, y: i32, z: i32) -> Cell {
    Cell::new(x, y, z)
}

fn one(x: i32, y: i32, z: i32) -> CellSet {
    CellSet::from_slice(&[c(x, y, z)])
}

#[test]
fn union_makes_the_first_representative() {
    let mut links = SuctionLinks::new();
    assert_eq!(links.find(StructureId(4)), StructureId(4));
    links.union(StructureId(1), StructureId(2));
    assert_eq!(links.find(StructureId(2)), StructureId(1));
    assert_eq!(links.find(StructureId(1)), StructureId(1));
    links.union(StructureId(2), StructureId(3));
    assert_eq!(links.find(StructureId(3)), StructureId(1));
    assert_eq!(links.find(StructureId(4)), StructureId(4));
    links.union(StructureId(3), StructureId(1));
    assert_eq!(links.find(StructureId(2)), StructureId(1));
}

/// Three material structures in a row, the third anchored to the scene.
fn table() -> StructureState {
    let mut st = StructureState::new();
    st.add_structure(StructureKind::Material, one(0, 0, 0), FactoryActivity::Active, StructureFreedom::All, CellSet::new());
    st.add_structure(StructureKind::Factory, one(1, 0, 0), FactoryActivity::Active, StructureFreedom::All, CellSet::new());
    st.add_structure(StructureKind::Material, one(2, 0, 0), FactoryActivity::Active, StructureFreedom::All, one(2, 0, 0));
    st
}

#[test]
fn component_of_linked_structures() {
    let st = table();
    let mut links = SuctionLinks::new();
    links.union(StructureId(1), StructureId(2));
    let mut ids = links.component_ids(&st, &[StructureId(1)]);
    ids.sort_by_key(|id| id.0);
    assert_eq!(ids, vec![StructureId(1), StructureId(2)]);
    let alone = links.component_ids(&st, &[StructureId(3)]);
    assert_eq!(alone, vec![StructureId(3)]);
}

#[test]
fn linked_push_takes_the_whole_group_or_nothing() {
    let st = table();
    let mut links = SuctionLinks::new();
    links.union(StructureId(1), StructureId(2));
    let group = st.linked_pushable_at(&links, c(0, 0, 0), c(0, 0, 1)).unwrap();
    assert_eq!(group.len(), 2);
    assert!(group.contains(c(1, 0, 0)));
    links.union(StructureId(2), StructureId(3));
    assert!(st.linked_pushable_at(&links, c(0, 0, 0), c(0, 0, 1)).is_none());
    assert!(st.linked_pushable_at(&links, c(7, 7, 7), c(0, 0, 1)).is_none());
}

#[test]
fn linked_group_with_a_factory() {
    let st = table();
    let mut links = SuctionLinks::new();
    assert!(!st.linked_contains_factory(&links, c(0, 0, 0)));
    links.union(StructureId(1), StructureId(2));
    assert!(st.linked_contains_factory(&links, c(0, 0, 0)));
    assert!(!st.linked_contains_factory(&links, c(9, 0, 0)));
}

#[test]
fn pusher_subset_expands_to_linked_structures() {
    let st = table();
    let mut links = SuctionLinks::new();
    links.union(StructureId(1), StructureId(2));
    let subset = one(0, 0, 0);
    let expanded = st.linked_expand_pusher_subset(&links, &subset, c(0, 0, 1)).unwrap();
    assert_eq!(expanded.len(), 2);
    assert!(expanded.contains(c(1, 0, 0)));
    assert!(st.linked_expand_pusher_subset(&links, &one(8, 8, 8), c(0, 0, 1)).is_none());
}

#[test]
fn translation_footprint_claims_start_and_end() {
    let cells = one(0, 0, 0);
    let fp = MovingOccupancy::translate_footprint(&cells, c(1, 0, 0));
    assert_eq!(fp, vec![(c(0, 0, 0), c(1, 0, 0)), (c(1, 0, 0), c(1, 0, 0))]);
    let still = MovingOccupancy::translate_footprint(&cells, c(0, 0, 0));
    assert_eq!(still, vec![(c(0, 0, 0), c(0, 0, 0))]);
}

#[test]
fn claims_conflict_only_on_different_velocities() {
    let mut occ = MovingOccupancy::new();
    let east = c(1, 0, 0);
    let up = c(0, 1, 0);
    assert!(occ.claim(&[(c(0, 0, 0), east), (c(1, 0, 0), east)]));
    assert!(occ.compatible_with(&[(c(1, 0, 0), east), (c(2, 0, 0), east)]));
    assert!(!occ.claim(&[(c(2, 2, 2), up), (c(1, 0, 0), up)]));
    assert_eq!(occ.velocity_at(c(2, 2, 2)), None);
    assert_eq!(occ.velocity_at(c(1, 0, 0)), Some(east));
}

#[test]
fn entry_rules() {
    let mut occ = MovingOccupancy::new();
    let east = c(1, 0, 0);
    occ.claim(&[(c(3, 0, 0), east)]);
    let moving = one(4, 0, 0);
    assert!(!occ.cell_allows_entry(c(0, -1, 0), east, &moving, true));
    assert!(occ.cell_allows_entry(c(4, 0, 0), east, &moving, false));
    assert!(occ.cell_allows_entry(c(3, 0, 0), east, &moving, false));
    assert!(!occ.cell_allows_entry(c(3, 0, 0), c(0, 0, 1), &moving, true));
    assert!(occ.cell_allows_entry(c(6, 0, 0), east, &moving, true));
    assert!(!occ.cell_allows_entry(c(6, 0, 0), east, &moving, false));
}

#[test]
fn links_rebuilt_from_powered_cups() {
    let st = table();
    let cups = [
        SuctionCup { pos: c(0, 0, 0), facing: Facing::East, front_sticky: true },
        SuctionCup { pos: c(2, 0, 0), facing: Facing::West, front_sticky: false },
        SuctionCup { pos: c(1, 0, 0), facing: Facing::North, front_sticky: true },
    ];
    let links = SuctionLinks::rebuild(&st, &cups);
    assert_eq!(links.find(StructureId(2)), links.find(StructureId(1)));
    assert_ne!(links.find(StructureId(3)), links.find(StructureId(1)));
    assert_eq!(links.find(StructureId(3)), StructureId(3));
}

#[test]
fn find_of_a_representative_gives_it_back() {
    let mut links = SuctionLinks::new();
    links.union(StructureId(5), StructureId(6));
    links.union(StructureId(7), StructureId(8));
    links.union(StructureId(8), StructureId(6));
    links.union(StructureId(9), StructureId(7));
    for id in 1..12u64 {
        let r = links.find(StructureId(id));
        assert_eq!(links.find(r), r);
    }
    assert_eq!(links.find(StructureId(9)), links.find(StructureId(5)));
    assert_eq!(links.find(StructureId(3)), StructureId(3));
}
