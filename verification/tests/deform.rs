use std::collections::HashSet;

use oif_sim::cell::Cell;
use oif_sim::cellmap::{CellMap, CellSet};
use oif_sim::deform::{DeformGraph, DeformPusher};
use oif_sim::deform_graph::DeformBlock;
use oif_sim::deform_groups::{pusher_candidates, seq_less};
use oif_sim::ids::{BlockId, StructureId};
use oif_sim::structure::{FactoryActivity, StructureFreedom, StructureKind};
use oif_sim::structure_state::StructureState;

fn c(x: i32, y: i32, z: i32) -> Cell {
    Cell::new(x, y, z)
}

fn cells(list: &[(i32, i32, i32)]) -> CellSet {
    let v: Vec<Cell> = list.iter().map(|&(x, y, z)| Cell::new(x, y, z)).collect();
    CellSet::from_slice(&v)
}

fn plain(id: u64) -> DeformBlock {
    DeformBlock { id: BlockId(id), push: None, forward: c(0, 0, -1), head: false, sealed: None }
}

fn pusher(id: u64, dir: Cell) -> DeformBlock {
    DeformBlock { id: BlockId(id), push: Some(dir), forward: dir, head: false, sealed: None }
}

fn ids(v: &[BlockId]) -> Vec<u64> {
    v.iter().map(|b| b.0).collect()
}

fn acts(v: &[(BlockId, bool)]) -> Vec<(u64, bool)> {
    v.iter().map(|(b, f)| (b.0, *f)).collect()
}

/// Body 1 at the origin pushing east, block 2 in front of it, block 3 behind it.
fn one_pusher() -> (StructureState, StructureId, CellMap<DeformBlock>) {
    let mut st = StructureState::new();
    let id = st.add_structure(
        StructureKind::Factory,
        cells(&[(0, 0, 0), (1, 0, 0), (-1, 0, 0)]),
        FactoryActivity::Active,
        StructureFreedom::All,
        CellSet::new(),
    );
    let mut m: CellMap<DeformBlock> = CellMap::new();
    m.insert(c(0, 0, 0), pusher(1, c(1, 0, 0)));
    m.insert(c(1, 0, 0), plain(2));
    m.insert(c(-1, 0, 0), plain(3));
    (st, id, m)
}

#[test]
fn a_lone_pusher_splits_its_structure_in_two_groups() {
    let (mut st, id, m) = one_pusher();
    st.rebuild_deform_for(&m, &CellSet::new(), 10, id);
    let s = st.get(id).unwrap();
    assert_eq!(s.head_of, vec![(BlockId(1), BlockId(10))]);
    assert_eq!(s.deform_groups.len(), 2);
    assert_eq!(ids(&s.deform_groups[0].nodes), vec![1, 3]);
    assert_eq!(acts(&s.deform_groups[0].actions), vec![(1, false)]);
    assert_eq!(ids(&s.deform_groups[1].nodes), vec![2, 10]);
    assert_eq!(acts(&s.deform_groups[1].actions), vec![(1, true)]);
}

#[test]
fn a_head_keeps_its_identity_across_rebuilds() {
    let (mut st, id, m) = one_pusher();
    st.rebuild_deform_for(&m, &CellSet::new(), 10, id);
    st.rebuild_deform_for(&m, &CellSet::new(), 10, id);
    let s = st.get(id).unwrap();
    assert_eq!(s.head_of, vec![(BlockId(1), BlockId(10))]);
    assert_eq!(s.deform_groups.len(), 2);
}

#[test]
fn a_ring_around_the_pusher_leaves_no_group() {
    let mut st = StructureState::new();
    let id = st.add_structure(
        StructureKind::Factory,
        cells(&[(0, 0, 0), (1, 0, 0), (1, 1, 0), (0, 1, 0), (-1, 1, 0), (-1, 0, 0)]),
        FactoryActivity::Active,
        StructureFreedom::All,
        CellSet::new(),
    );
    let mut m: CellMap<DeformBlock> = CellMap::new();
    m.insert(c(0, 0, 0), pusher(1, c(1, 0, 0)));
    m.insert(c(1, 0, 0), plain(2));
    m.insert(c(1, 1, 0), plain(3));
    m.insert(c(0, 1, 0), plain(4));
    m.insert(c(-1, 1, 0), plain(5));
    m.insert(c(-1, 0, 0), plain(6));
    st.rebuild_deform_for(&m, &CellSet::new(), 10, id);
    let s = st.get(id).unwrap();
    assert!(s.deform_groups.is_empty());
    assert_eq!(s.head_of, vec![(BlockId(1), BlockId(10))]);
}

#[test]
fn scene_contact_is_recorded_on_rebuild() {
    let (mut st, id, m) = one_pusher();
    st.rebuild_deform_for(&m, &cells(&[(-2, 0, 0)]), 10, id);
    let s = st.get(id).unwrap();
    assert_eq!(s.scene_touching.to_vec(), vec![c(-1, 0, 0)]);
}

#[test]
fn material_structures_are_left_alone() {
    let mut st = StructureState::new();
    let id = st.add_structure(StructureKind::Material, cells(&[(0, 0, 0)]), FactoryActivity::Active, StructureFreedom::All, CellSet::new());
    let mut m: CellMap<DeformBlock> = CellMap::new();
    m.insert(c(0, 0, 0), pusher(1, c(1, 0, 0)));
    st.rebuild_deform_for(&m, &CellSet::new(), 10, id);
    let s = st.get(id).unwrap();
    assert!(s.head_of.is_empty());
    assert!(s.deform_groups.is_empty());
}

#[test]
fn a_walk_that_meets_the_other_end_is_a_ring() {
    let g = DeformGraph {
        links: vec![(10, 2), (2, 3), (3, 1)],
        pushers: vec![DeformPusher { body: 1, head: 10, dir: c(1, 0, 0), at: c(0, 0, 0) }],
    };
    let cut: HashSet<u64> = [1u64].into_iter().collect();
    assert_eq!(g.propagate_with_cuts(10, 1, &cut, false), None);
    let open = DeformGraph { links: vec![(10, 2), (3, 1)], pushers: g.pushers.clone() };
    assert_eq!(open.propagate_with_cuts(10, 1, &cut, false), Some(vec![2, 10]));
    let none: HashSet<u64> = HashSet::new();
    assert_eq!(open.propagate_with_cuts(3, 2, &none, false), None);
    assert_eq!(open.propagate_with_cuts(3, 2, &none, true), Some(vec![1, 3]));
}

#[test]
fn candidates_cover_both_actions() {
    let g = DeformGraph {
        links: vec![(10, 2), (3, 1)],
        pushers: vec![DeformPusher { body: 1, head: 10, dir: c(1, 0, 0), at: c(0, 0, 0) }],
    };
    let cands = pusher_candidates(&g, 0);
    assert_eq!(cands, vec![(true, vec![2, 10]), (false, vec![1, 3])]);
}

#[test]
fn node_lists_compare_lexicographically() {
    assert!(seq_less(&vec![1, 3], &vec![2]));
    assert!(seq_less(&vec![1], &vec![1, 0]));
    assert!(!seq_less(&vec![1, 2], &vec![1, 2]));
    assert!(!seq_less(&vec![2], &vec![1, 9]));
}

fn sorted_cells(s: &CellSet) -> Vec<(i32, i32, i32)> {
    let mut v: Vec<(i32, i32, i32)> = s.to_vec().iter().map(|p| (p.x, p.y, p.z)).collect();
    v.sort();
    v
}

#[test]
fn each_action_finds_its_group() {
    let (mut st, id, m) = one_pusher();
    st.rebuild_deform_for(&m, &CellSet::new(), 10, id);
    assert_eq!(st.deform_action_groups(&m, c(0, 0, 0), true), Some((id, vec![1])));
    assert_eq!(st.deform_action_groups(&m, c(0, 0, 0), false), Some((id, vec![0])));
    assert_eq!(st.deform_action_groups(&m, c(1, 0, 0), true), None);
    assert_eq!(st.deform_action_groups(&m, c(5, 5, 5), true), None);
    let (sid, index, nodes) = st.deform_action(&m, c(0, 0, 0), true).unwrap();
    assert_eq!((sid, index), (id, 1));
    assert_eq!(ids(&nodes), vec![2, 10]);
}

#[test]
fn heads_have_no_cell() {
    let (mut st, id, m) = one_pusher();
    st.rebuild_deform_for(&m, &CellSet::new(), 10, id);
    let s = st.get(id).unwrap().clone();
    let cells_of = st.nodes_to_positions(&m, &s, &[BlockId(2), BlockId(10)]);
    assert_eq!(sorted_cells(&cells_of), vec![(1, 0, 0)]);
}

#[test]
fn a_pusher_cuts_its_structure_in_two_sides() {
    let (mut st, id, m) = one_pusher();
    st.rebuild_deform_for(&m, &cells(&[(-2, 0, 0)]), 10, id);
    let sides = st.deform_sides(&m, c(0, 0, 0)).unwrap();
    assert_eq!(sorted_cells(&sides.target_side), vec![(1, 0, 0)]);
    assert_eq!(sorted_cells(&sides.actor_side), vec![(-1, 0, 0), (0, 0, 0)]);
    assert!(sides.separated);
    assert!(sides.actor_anchored);
    assert!(!sides.target_anchored);
    assert!(st.deform_sides(&m, c(1, 0, 0)).is_none());
}
