use oif_sim::cell::Cell;
use oif_sim::cellmap::{CellMap, CellSet};
use oif_sim::ids::{BlockId, MaterialWeld, StructureId};
use oif_sim::materials::{append_material_structures, material_members, refresh_material_structures};
use oif_sim::structure::{FactoryActivity, StructureFreedom, StructureKind};
use oif_sim::structure_state::StructureState;

fn c(x: i32, y: i32, z: i32) -> Cell {
    Cell::new(x, y, z)
}

/// Materials 11 at (0,0,0), 12 at (1,0,0), 13 at (5,0,0), 14 at (0,3,0).
fn materials() -> CellMap<BlockId> {
    let mut m = CellMap::new();
    m.insert(c(5, 0, 0), BlockId(13));
    m.insert(c(1, 0, 0), BlockId(12));
    m.insert(c(0, 0, 0), BlockId(11));
    m.insert(c(0, 3, 0), BlockId(14));
    m
}

fn with_factory() -> StructureState {
    let mut st = StructureState::new();
    st.add_structure(
        StructureKind::Factory,
        CellSet::from_slice(&[c(9, 9, 9)]),
        FactoryActivity::Active,
        StructureFreedom::All,
        CellSet::new(),
    );
    st
}

#[test]
fn member_keys_are_sorted_identities() {
    let m = materials();
    let cells = CellSet::from_slice(&[c(5, 0, 0), c(0, 0, 0), c(7, 7, 7)]);
    assert_eq!(material_members(&m, &cells), vec![11, 13]);
}

#[test]
fn welded_classes_become_structures_lowest_cell_first() {
    let mut st = with_factory();
    let welds = vec![MaterialWeld::new(BlockId(11), BlockId(12))];
    append_material_structures(&mut st, &materials(), &welds, &[], &[]);
    let first = st.id_at(c(0, 0, 0)).unwrap();
    assert_eq!(first, StructureId(2));
    assert_eq!(st.id_at(c(1, 0, 0)), Some(first));
    assert_eq!(st.id_at(c(0, 3, 0)), Some(StructureId(3)));
    assert_eq!(st.id_at(c(5, 0, 0)), Some(StructureId(4)));
    assert_eq!(st.kind_at(c(5, 0, 0)), Some(StructureKind::Material));
    assert_eq!(st.id_at(c(9, 9, 9)), Some(StructureId(1)));
    assert_eq!(st.get(first).unwrap().positions.len(), 2);
}

#[test]
fn refresh_keeps_identities_of_unchanged_structures() {
    let mut st = with_factory();
    let m = materials();
    append_material_structures(&mut st, &m, &[MaterialWeld::new(BlockId(11), BlockId(12))], &[], &[]);
    assert_eq!(st.id_at(c(0, 3, 0)), Some(StructureId(3)));
    let welds = vec![MaterialWeld::new(BlockId(11), BlockId(12)), MaterialWeld::new(BlockId(12), BlockId(13))];
    refresh_material_structures(&mut st, &m, &welds);
    assert_eq!(st.id_at(c(0, 3, 0)), Some(StructureId(3)));
    let merged = st.id_at(c(0, 0, 0)).unwrap();
    assert_eq!(merged, StructureId(5));
    assert_eq!(st.id_at(c(5, 0, 0)), Some(merged));
    assert_eq!(st.get(merged).unwrap().positions.len(), 3);
    assert!(st.get(StructureId(2)).is_none());
    assert_eq!(st.id_at(c(9, 9, 9)), Some(StructureId(1)));
}

#[test]
fn remembered_identity_is_reused_on_append() {
    let mut st = with_factory();
    st.add_structure(
        StructureKind::Material,
        CellSet::from_slice(&[c(0, 3, 0)]),
        FactoryActivity::Active,
        StructureFreedom::All,
        CellSet::new(),
    );
    st.retain_factory_only();
    assert_eq!(st.id_at(c(0, 3, 0)), None);
    let previous = vec![(vec![14], StructureId(2))];
    let support = vec![(StructureId(2), vec![(c(0, 3, 0), c(0, -1, 0))])];
    append_material_structures(&mut st, &materials(), &[], &previous, &support);
    assert_eq!(st.id_at(c(0, 3, 0)), Some(StructureId(2)));
    assert_eq!(st.get(StructureId(2)).unwrap().gravity_support, vec![(c(0, 3, 0), c(0, -1, 0))]);
    assert_eq!(st.id_at(c(0, 0, 0)), Some(StructureId(3)));
    assert!(st.get(StructureId(3)).unwrap().gravity_support.is_empty());
}

#[test]
fn refreshing_twice_changes_nothing() {
    let mut st = with_factory();
    let m = materials();
    let welds = vec![MaterialWeld::new(BlockId(13), BlockId(14))];
    refresh_material_structures(&mut st, &m, &welds);
    let before: Vec<Option<StructureId>> = [c(0, 0, 0), c(1, 0, 0), c(5, 0, 0), c(0, 3, 0), c(9, 9, 9)]
        .iter()
        .map(|p| st.id_at(*p))
        .collect();
    refresh_material_structures(&mut st, &m, &welds);
    let after: Vec<Option<StructureId>> = [c(0, 0, 0), c(1, 0, 0), c(5, 0, 0), c(0, 3, 0), c(9, 9, 9)]
        .iter()
        .map(|p| st.id_at(*p))
        .collect();
    assert_eq!(before, after);
    assert_eq!(st.id_at(c(5, 0, 0)), st.id_at(c(0, 3, 0)));
}
