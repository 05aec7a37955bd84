use std::collections::HashSet;

use oif_sim::cell::Cell;
use oif_sim::cellmap::{CellMap, CellSet};
use oif_sim::deform_graph::{factory_view, DeformBlock};
use oif_sim::factory::query_factory_structure;
use oif_sim::ids::BlockId;
use oif_sim::rebuild::StructureWorld;
use oif_sim::structure::Structure;
use oif_sim::structure_state::StructureState;

fn c(x: i32, y: i32, z: i32) -> Cell {
    Cell::new(x, y, z)
}

const EAST: (i32, i32, i32) = (1, 0, 0);
const WEST: (i32, i32, i32) = (-1, 0, 0);
const SOUTH: (i32, i32, i32) = (0, 0, 1);
const NORTH: (i32, i32, i32) = (0, 0, -1);

/// A world of factory blocks placed in order (identities 1, 2, ...); `push` is the
/// facing of a pusher body, `None` a plain block.  Heads get identities from 100.
struct Builder {
    blocks: CellMap<DeformBlock>,
    factory: CellSet,
    next: u64,
}

impl Builder {
    fn new() -> Builder {
        Builder { blocks: CellMap::new(), factory: CellSet::new(), next: 1 }
    }

    fn place(&mut self, pos: Cell, push: Option<(i32, i32, i32)>) -> BlockId {
        let id = BlockId(self.next);
        self.next += 1;
        let push = push.map(|(x, y, z)| c(x, y, z));
        self.blocks.insert(pos, DeformBlock { id, push, forward: push.unwrap_or(c(0, 0, -1)), head: false, sealed: None });
        self.factory.insert(pos);
        id
    }

    fn head(&mut self, pos: Cell, facing: (i32, i32, i32)) {
        let id = BlockId(self.next);
        self.next += 1;
        let f = c(facing.0, facing.1, facing.2);
        self.blocks.insert(pos, DeformBlock { id, push: None, forward: f, head: true, sealed: None });
    }

    fn world(self) -> StructureWorld {
        StructureWorld {
            blocks: self.blocks,
            factory: self.factory,
            scene: CellSet::new(),
            materials: CellMap::new(),
            welds: vec![],
            acceptors: vec![],
            next_block_id: 100,
        topology_revision: 0,
        }
    }
}

fn rebuilt(w: &StructureWorld) -> StructureState {
    let mut st = StructureState::new();
    st.rebuild_for_simulation(w);
    st
}

fn head_of(s: &Structure, body: BlockId) -> BlockId {
    s.head_of.iter().find(|(b, _)| *b == body).unwrap().1
}

/// Group indices of an action, preferred first.
fn groups_of(st: &StructureState, w: &StructureWorld, pos: Cell, forward: bool) -> Vec<u32> {
    st.deform_action_groups(&w.blocks, pos, forward).map(|(_, g)| g).unwrap_or_default()
}

fn node_sets(s: &Structure, groups: &[u32]) -> Vec<Vec<BlockId>> {
    groups.iter().map(|i| s.deform_groups[*i as usize].nodes.clone()).collect()
}

fn cell_set(s: &CellSet) -> HashSet<Cell> {
    s.to_vec().into_iter().collect()
}

#[test]
fn deform_figure_a_three_parallel() {
    let mut b = Builder::new();
    let b1 = b.place(c(0, 0, 0), Some(EAST));
    b.place(c(1, 0, 0), None);
    let b2 = b.place(c(0, 0, 1), Some(EAST));
    b.place(c(1, 0, 1), None);
    let b3 = b.place(c(0, 0, 2), Some(EAST));
    b.place(c(1, 0, 2), None);
    let w = b.world();
    let st = rebuilt(&w);
    let s = st.get(st.structure_id_at(c(0, 0, 0)).unwrap()).unwrap();
    assert_eq!(s.deform_groups.len(), 2);
    let fwd = groups_of(&st, &w, c(0, 0, 0), true);
    let rev = groups_of(&st, &w, c(0, 0, 0), false);
    assert_eq!(fwd.len(), 1);
    assert_eq!(rev.len(), 1);
    assert_eq!(groups_of(&st, &w, c(0, 0, 1), true), fwd);
    assert_eq!(groups_of(&st, &w, c(0, 0, 2), true), fwd);
    assert_eq!(groups_of(&st, &w, c(0, 0, 1), false), rev);
    assert_eq!(groups_of(&st, &w, c(0, 0, 2), false), rev);
    let fwd_nodes = &s.deform_groups[fwd[0] as usize].nodes;
    let rev_nodes = &s.deform_groups[rev[0] as usize].nodes;
    assert_eq!(fwd_nodes.len(), 6);
    assert_eq!(rev_nodes.len(), 3);
    assert!(rev_nodes.contains(&b1) && rev_nodes.contains(&b2) && rev_nodes.contains(&b3));
}

#[test]
fn deform_figure_b_bent() {
    let mut b = Builder::new();
    let b1 = b.place(c(0, 0, 0), Some(EAST));
    let b2 = b.place(c(1, 0, 0), Some(SOUTH));
    let b3 = b.place(c(1, 0, 1), Some(WEST));
    let w = b.world();
    let st = rebuilt(&w);
    let s = st.get(st.structure_id_at(c(0, 0, 0)).unwrap()).unwrap();
    let h1 = head_of(s, b1);
    let h2 = head_of(s, b2);
    let h3 = head_of(s, b3);
    let fwd1_sets = node_sets(s, &groups_of(&st, &w, c(0, 0, 0), true));
    assert!(
        fwd1_sets.iter().any(|n| n.contains(&h1) && n.contains(&b2) && n.contains(&h2) && n.contains(&b3) && n.contains(&h3)
            && !n.contains(&b1)),
        "missing full (1,true) set: {fwd1_sets:?}"
    );
    assert_eq!(node_sets(s, &groups_of(&st, &w, c(0, 0, 0), false))[0], vec![b1]);
    let fwd3 = node_sets(s, &groups_of(&st, &w, c(1, 0, 0), true));
    assert!(fwd3.iter().any(|n| n.contains(&h2) && n.contains(&b3) && n.contains(&h3) && !n.contains(&b2)));
    let rev3 = node_sets(s, &groups_of(&st, &w, c(1, 0, 0), false));
    assert!(rev3.iter().any(|n| n.contains(&b2) && n.contains(&b1) && n.contains(&h1)));
    let fwd5 = &node_sets(s, &groups_of(&st, &w, c(1, 0, 1), true))[0];
    assert!(fwd5.contains(&h3) && !fwd5.contains(&b3));
    let rev5 = node_sets(s, &groups_of(&st, &w, c(1, 0, 1), false));
    assert!(rev5.iter().any(|n| n.contains(&b3) && n.contains(&h2) && n.contains(&b2) && n.contains(&h1) && n.contains(&b1)));
}

#[test]
fn deform_face_to_face_includes_back_cargo() {
    let mut b = Builder::new();
    let south = b.place(c(0, 0, 0), Some(SOUTH));
    let north = b.place(c(0, 0, 1), Some(NORTH));
    let cargo = b.place(c(0, 0, 2), None);
    let w = b.world();
    let st = rebuilt(&w);
    let s = st.get(st.structure_id_at(c(0, 0, 1)).unwrap()).unwrap();
    let h_south = head_of(s, south);
    let h_north = head_of(s, north);
    let south_fwd = node_sets(s, &groups_of(&st, &w, c(0, 0, 0), true));
    assert!(
        south_fwd.iter().any(|n| n.contains(&h_south) && n.contains(&h_north) && n.contains(&north) && n.contains(&cargo)
            && !n.contains(&south)),
        "missing independent south+: {south_fwd:?}"
    );
    assert!(
        south_fwd.iter().any(|n| n.contains(&h_south) && n.contains(&h_north) && !n.contains(&north) && !n.contains(&cargo)),
        "missing coaxial heads-only south+: {south_fwd:?}"
    );
    let north_fwd = node_sets(s, &groups_of(&st, &w, c(0, 0, 1), true));
    assert!(north_fwd.iter().any(|n| n.contains(&h_south) && n.contains(&h_north) && n.contains(&south) && !n.contains(&north)));
    assert_eq!(node_sets(s, &groups_of(&st, &w, c(0, 0, 0), false))[0], vec![south]);
    let rev_north = &node_sets(s, &groups_of(&st, &w, c(0, 0, 1), false))[0];
    assert!(rev_north.contains(&north) && rev_north.contains(&cargo));
}

#[test]
fn deform_parallel_gap_fork_independent() {
    let mut b = Builder::new();
    let a = b.place(c(-1, 2, -6), Some(EAST));
    let bb = b.place(c(-1, 2, -4), Some(EAST));
    let p0 = b.place(c(0, 2, -6), None);
    let p1 = b.place(c(0, 2, -5), None);
    let p2 = b.place(c(0, 2, -4), None);
    let w = b.world();
    let st = rebuilt(&w);
    let s = st.get(st.structure_id_at(c(-1, 2, -4)).unwrap()).unwrap();
    let ha = head_of(s, a);
    let hb = head_of(s, bb);
    let a_groups = groups_of(&st, &w, c(-1, 2, -6), true);
    let b_groups = groups_of(&st, &w, c(-1, 2, -4), true);
    let a_fwd = node_sets(s, &a_groups);
    let b_fwd = node_sets(s, &b_groups);
    assert!(a_fwd.len() >= 2 && b_fwd.len() >= 2, "a={a_fwd:?} b={b_fwd:?}");
    let coaxial = [p0, p1, p2, ha, hb];
    assert!(
        a_fwd.iter().any(|n| n.len() == 5 && coaxial.iter().all(|id| n.contains(id)) && !n.contains(&a) && !n.contains(&bb)),
        "missing coaxial: {a_fwd:?}"
    );
    assert!(
        a_fwd.iter().any(|n| n.len() == 6 && coaxial.iter().all(|id| n.contains(id)) && n.contains(&bb) && !n.contains(&a)),
        "missing a independent: {a_fwd:?}"
    );
    assert!(
        b_fwd.iter().any(|n| n.len() == 6 && coaxial.iter().all(|id| n.contains(id)) && n.contains(&a) && !n.contains(&bb)),
        "missing b independent: {b_fwd:?}"
    );
    assert_eq!(a_groups[0], b_groups[0]);
    assert_eq!(s.deform_groups[a_groups[0] as usize].nodes.len(), 5);
}

#[test]
fn deform_single_pusher_square_loop_discards() {
    let mut b = Builder::new();
    b.place(c(13, 3, 12), None);
    b.place(c(14, 3, 12), None);
    b.place(c(14, 4, 12), None);
    b.place(c(13, 4, 12), Some(EAST));
    let w = b.world();
    let st = rebuilt(&w);
    let s = st.get(st.structure_id_at(c(13, 4, 12)).unwrap()).unwrap();
    assert!(s.deform_groups.is_empty(), "cyclic single pusher must discard all deform actions; got {:?}", s.deform_groups);
    assert!(s.deform_groups.iter().all(|g| g.actions.is_empty()));
    assert!(groups_of(&st, &w, c(13, 4, 12), true).is_empty());
    assert!(groups_of(&st, &w, c(13, 4, 12), false).is_empty());
    assert!(st.deform_sides(&w.blocks, c(13, 4, 12)).is_none());
}

#[test]
fn deform_opposing_ring_coaxial_after_all_cut() {
    let mut b = Builder::new();
    let west = c(13, 2, 16);
    let east = c(13, 4, 16);
    for (x, y, z) in [(12, 2, 16), (12, 3, 16), (12, 4, 16), (14, 2, 16), (14, 3, 16), (14, 4, 16)] {
        b.place(c(x, y, z), None);
    }
    b.place(west, Some(WEST));
    b.place(east, Some(EAST));
    let w = b.world();
    let st = rebuilt(&w);
    let sides_w = st.deform_sides(&w.blocks, west).unwrap();
    let sides_e = st.deform_sides(&w.blocks, east).unwrap();
    assert!(sides_w.separated, "west must separate after all-cut");
    assert!(sides_e.separated, "east must separate after all-cut");
    assert_eq!(cell_set(&sides_w.target_side), cell_set(&sides_e.actor_side), "west forward == east reverse");
    assert_eq!(cell_set(&sides_w.actor_side), cell_set(&sides_e.target_side), "west reverse == east forward");
    let w_fwd = groups_of(&st, &w, west, true)[0];
    let e_rev = groups_of(&st, &w, east, false)[0];
    assert_eq!(w_fwd, e_rev);
}

#[test]
fn extended_pusher_head_keeps_front_connected() {
    let mut b = Builder::new();
    let body = c(0, 1, 0);
    let head = c(1, 1, 0);
    let front = c(2, 1, 0);
    b.place(body, Some(EAST));
    b.head(head, EAST);
    b.place(front, None);
    let w = b.world();
    let view = factory_view(&w.blocks);
    let members = query_factory_structure(&view, &w.factory, body).unwrap();
    assert!(members.contains(front));
    assert!(!members.contains(head));
    let st = rebuilt(&w);
    let sides = st.deform_sides(&w.blocks, body).expect("sides");
    assert!(sides.separated);
    assert!(sides.target_side.contains(front));
    assert!(!sides.target_side.contains(body));
}
