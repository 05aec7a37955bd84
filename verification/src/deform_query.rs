//! Reading the deformation groups of a factory structure: which groups carry a pusher
//! action, the preferred one, and the cells on either side of a pusher's cut.
use vstd::prelude::*;

use crate::cell::Cell;
use crate::cellmap::{CellMap, CellSet};
use crate::deform_graph::{ids_unique, DeformBlock};
use crate::ids::{BlockId, StructureId};
use crate::structure::{DeformGroup, DeformSides, Structure, StructureKind};
use crate::structure_state::StructureState;

verus! {

/// Group `i` comes before group `j` in preference: fewer nodes first, then the earlier.
pub open spec fn prefer(groups: Seq<DeformGroup>, i: int, j: int) -> bool {
    groups[i].nodes@.len() < groups[j].nodes@.len() || (groups[i].nodes@.len() == groups[j].nodes@.len() && i < j)
}

/// `r` lists, in order of preference, the groups that carry the action `a`.
pub open spec fn action_indices(groups: Seq<DeformGroup>, a: (BlockId, bool), r: Seq<u32>) -> bool {
    &&& forall|x: int, y: int| 0 <= x < y < r.len() ==> prefer(groups, r[x] as int, r[y] as int)
    &&& forall|x: int| 0 <= x < r.len() ==> (r[x] as int) < groups.len() && groups[r[x] as int].actions@.contains(a)
    &&& forall|i: int| 0 <= i < groups.len() && #[trigger] groups[i].actions@.contains(a) ==> r.contains(i as u32)
}

fn has_action(g: &DeformGroup, a: (BlockId, bool)) -> (r: bool)
    ensures
        r == g.actions@.contains(a),
{
    let mut i: usize = 0;
    while i < g.actions.len()
        invariant
            i <= g.actions@.len(),
            forall|j: int| 0 <= j < i ==> g.actions@[j] != a,
        decreases g.actions@.len() - i,
    {
        if g.actions[i].0 == a.0 && g.actions[i].1 == a.1 {
            assert(g.actions@[i as int] == a);
            return true;
        }
        i = i + 1;
    }
    false
}

/// The groups carrying the action `a`, in order of preference.
pub fn action_group_indices(groups: &Vec<DeformGroup>, a: (BlockId, bool)) -> (r: Vec<u32>)
    requires
        groups@.len() <= u32::MAX,
    ensures
        action_indices(groups@, a, r@),
{
    let mut r: Vec<u32> = Vec::new();
    let mut i: usize = 0;
    while i < groups.len()
        invariant
            groups@.len() <= u32::MAX,
            i <= groups@.len(),
            forall|x: int, y: int| 0 <= x < y < r@.len() ==> prefer(groups@, r@[x] as int, r@[y] as int),
            forall|x: int| 0 <= x < r@.len() ==> (r@[x] as int) < i && groups@[r@[x] as int].actions@.contains(a),
            forall|t: int| 0 <= t < i && #[trigger] groups@[t].actions@.contains(a) ==> r@.contains(t as u32),
        decreases groups@.len() - i,
    {
        if has_action(&groups[i], a) {
            let len = groups[i].nodes.len();
            let mut j: usize = r.len();
            while j > 0 && groups[r[j - 1] as usize].nodes.len() > len
                invariant
                    j <= r@.len(),
                    i < groups@.len(),
                    len == groups@[i as int].nodes@.len(),
                    forall|x: int| 0 <= x < r@.len() ==> (r@[x] as int) < i,
                    forall|x: int| j <= x < r@.len() ==> groups@[r@[x] as int].nodes@.len() > len,
                decreases j,
            {
                j = j - 1;
            }
            let ghost r0 = r@;
            proof {
                assert forall|x: int| 0 <= x < j implies prefer(groups@, r0[x] as int, i as int) by {
                    assert(groups@[r0[j - 1] as int].nodes@.len() <= len);
                    if x < j - 1 {
                        assert(prefer(groups@, r0[x] as int, r0[j - 1] as int));
                    }
                }
            }
            r.insert(j, i as u32);
            proof {
                let r1 = r@;
                assert forall|x: int, y: int| 0 <= x < y < r1.len() implies prefer(groups@, r1[x] as int, r1[y] as int) by {
                    if x < j {
                        assert(r1[x] == r0[x]);
                        if y > j {
                            assert(r1[y] == r0[y - 1]);
                            assert(prefer(groups@, r0[x] as int, r0[y - 1] as int));
                        } else if y == j {
                            assert(r1[y] == i as u32);
                        } else {
                            assert(r1[y] == r0[y]);
                        }
                    } else if x == j {
                        assert(r1[y] == r0[y - 1]);
                    } else {
                        assert(r1[x] == r0[x - 1]);
                        assert(r1[y] == r0[y - 1]);
                    }
                }
                assert forall|x: int| 0 <= x < r1.len() implies (r1[x] as int) < i + 1 && groups@[r1[x] as int].actions@.contains(a) by {
                    if x < j {
                        assert(r1[x] == r0[x]);
                    } else if x > j {
                        assert(r1[x] == r0[x - 1]);
                    }
                }
                assert forall|t: int| 0 <= t < i + 1 && #[trigger] groups@[t].actions@.contains(a) implies r1.contains(t as u32) by {
                    if t < i {
                        assert(r0.contains(t as u32));
                        let x = choose|x: int| 0 <= x < r0.len() && r0[x] == t as u32;
                        if x < j {
                            assert(r1[x] == t as u32);
                        } else {
                            assert(r1[x + 1] == t as u32);
                        }
                    } else {
                        assert(r1[j as int] == t as u32);
                    }
                }
            }
        }
        i = i + 1;
    }
    r
}

/// The structure owning `pos`, when it is a factory structure, with the groups of its
/// deformation that carry the action (`forward`: extending) of the pusher at `pos`.
pub open spec fn action_groups_at(
    st: StructureState,
    m: Map<Cell, DeformBlock>,
    pos: Cell,
    forward: bool,
    r: Option<(StructureId, Vec<u32>)>,
) -> bool {
    match r {
        Some((id, idx)) => {
            &&& st.structure_at(pos) is Some
            &&& st.structure_at(pos)->0.kind == StructureKind::Factory
            &&& st.structure_at(pos)->0.id == id
            &&& m.contains_key(pos)
            &&& action_indices(st.structure_at(pos)->0.deform_groups@, (m[pos].id, forward), idx@)
            &&& idx@.len() > 0
        },
        None => match st.structure_at(pos) {
            Some(s) => s.kind == StructureKind::Factory && m.contains_key(pos) ==> forall|i: int|
                0 <= i < s.deform_groups@.len() ==> !(#[trigger] s.deform_groups@[i]).actions@.contains((m[pos].id, forward)),
            None => true,
        },
    }
}

impl StructureState {
    /// The factory structure owning the pusher at `pusher_pos` and, in order of
    /// preference (fewest nodes first), the groups that carry its action; `None` when
    /// there is none.
    pub fn deform_action_groups(&self, m: &CellMap<DeformBlock>, pusher_pos: Cell, forward: bool) -> (r: Option<(StructureId, Vec<u32>)>)
        requires
            self.wf(),
            m.wf(),
            self.structure_at(pusher_pos) matches Some(s) ==> s.deform_groups@.len() <= u32::MAX,
        ensures
            action_groups_at(*self, m@, pusher_pos, forward, r),
    {
        let id = match self.id_at(pusher_pos) {
            Some(id) => id,
            None => return None,
        };
        proof {
            self.lemma_wf_facts();
        }
        let seed = self.get(id).unwrap();
        if seed.kind != StructureKind::Factory {
            return None;
        }
        let block = match m.get(pusher_pos) {
            Some(b) => b,
            None => return None,
        };
        let idx = action_group_indices(&seed.deform_groups, (block.id, forward));
        if idx.len() == 0 {
            proof {
                assert forall|i: int| 0 <= i < seed.deform_groups@.len() implies !(#[trigger] seed.deform_groups@[i]).actions@.contains((block.id, forward)) by {
                    if seed.deform_groups@[i].actions@.contains((block.id, forward)) {
                        assert(idx@.contains(i as u32));
                    }
                }
            }
            return None;
        }
        Some((seed.id, idx))
    }

    /// The preferred group of the action of the pusher at `pusher_pos`: its index and its
    /// nodes, with the owning structure.
    pub fn deform_action(&self, m: &CellMap<DeformBlock>, pusher_pos: Cell, forward: bool) -> (r: Option<(StructureId, u32, Vec<BlockId>)>)
        requires
            self.wf(),
            m.wf(),
            self.structure_at(pusher_pos) matches Some(s) ==> s.deform_groups@.len() <= u32::MAX,
        ensures
            match r {
                Some(t) => exists|idx: Vec<u32>| #[trigger] action_groups_at(*self, m@, pusher_pos, forward, Some((t.0, idx))) && idx@[0]
                    == t.1 && t.2@ == self.structure_at(pusher_pos)->0.deform_groups@[t.1 as int].nodes@,
                None => action_groups_at(*self, m@, pusher_pos, forward, None),
            },
    {
        match self.deform_action_groups(m, pusher_pos, forward) {
            Some((id, idx)) => {
                let first = idx[0];
                proof {
                    self.lemma_wf_facts();
                    let k = self.index()[pusher_pos].0;
                    self.lemma_entry(k);
                    assert(self.table().contains_key(id.0));
                }
                let seed = self.get(id).unwrap();
                let nodes = seed.deform_groups[first as usize].nodes.clone();
                proof {
                    assert(self.index()[pusher_pos].0 == id.0);
                    assert(self.structure_at(pusher_pos)->0 == *seed);
                    assert(idx@[0] == first);
                    assert(nodes@ =~= seed.deform_groups@[first as int].nodes@);
                    assert(action_groups_at(*self, m@, pusher_pos, forward, Some((id, idx))));
                    assert(nodes@ == self.structure_at(pusher_pos)->0.deform_groups@[first as int].nodes@);
                }
                let ret = Some((id, first, nodes));
                proof {
                    let t = ret->0;
                    assert(t.0 == id && t.1 == first);
                    assert(t.2@ == self.structure_at(pusher_pos)->0.deform_groups@[t.1 as int].nodes@);
                    assert(action_groups_at(*self, m@, pusher_pos, forward, Some((t.0, idx))));
                    assert(idx@[0] == t.1);
                }
                ret
            },
            None => None,
        }
    }
}

/// The cell of `nodes` in the structure: each node that is not a logical head, at the
/// structure cell whose block carries it.
pub open spec fn node_cells(s: Structure, m: Map<Cell, DeformBlock>, nodes: Seq<BlockId>, p: Cell) -> bool {
    &&& s.positions@.contains(p)
    &&& m.contains_key(p)
    &&& nodes.contains(m[p].id)
    &&& !(exists|i: int| 0 <= i < s.head_of@.len() && (#[trigger] s.head_of@[i]).1 == m[p].id)
}

fn is_head_id(s: &Structure, x: BlockId) -> (r: bool)
    ensures
        r == exists|i: int| 0 <= i < s.head_of@.len() && (#[trigger] s.head_of@[i]).1 == x,
{
    let mut i: usize = 0;
    while i < s.head_of.len()
        invariant
            i <= s.head_of@.len(),
            forall|j: int| 0 <= j < i ==> (#[trigger] s.head_of@[j]).1 != x,
        decreases s.head_of@.len() - i,
    {
        if s.head_of[i].1 == x {
            return true;
        }
        i = i + 1;
    }
    false
}

fn has_node(nodes: &[BlockId], x: BlockId) -> (r: bool)
    ensures
        r == nodes@.contains(x),
{
    let mut i: usize = 0;
    while i < nodes.len()
        invariant
            i <= nodes@.len(),
            forall|j: int| 0 <= j < i ==> nodes@[j] != x,
        decreases nodes@.len() - i,
    {
        if nodes[i] == x {
            assert(nodes@[i as int] == x);
            return true;
        }
        i = i + 1;
    }
    false
}

impl StructureState {
    /// The cells of the structure that carry the given nodes (logical heads have none).
    pub fn nodes_to_positions(&self, m: &CellMap<DeformBlock>, structure: &Structure, nodes: &[BlockId]) -> (r: CellSet)
        requires
            m.wf(),
            structure.positions.wf(),
        ensures
            r.wf(),
            forall|p: Cell| #[trigger] r@.contains(p) <==> node_cells(*structure, m@, nodes@, p),
    {
        let cells = structure.positions.to_vec();
        proof {
            structure.positions.lemma_elems();
        }
        let mut out = CellSet::new();
        let mut i: usize = 0;
        while i < cells.len()
            invariant
                m.wf(),
                out.wf(),
                cells@ == structure.positions.elems(),
                structure.positions@ == structure.positions.elems().to_set(),
                i <= cells@.len(),
                forall|p: Cell| #[trigger] out@.contains(p) <==> (exists|t: int| 0 <= t < i && cells@[t] == p) && node_cells(*structure, m@, nodes@, p),
            decreases cells@.len() - i,
        {
            let p = cells[i];
            proof {
                assert(structure.positions@.contains(p));
            }
            match m.get(p) {
                Some(b) => {
                    if has_node(nodes, b.id) && !is_head_id(structure, b.id) {
                        out.insert(p);
                    }
                },
                None => {},
            }
            proof {
                assert forall|x: Cell| #[trigger] out@.contains(x) <==> (exists|t: int| 0 <= t < i + 1 && cells@[t] == x) && node_cells(*structure, m@, nodes@, x) by {
                    if exists|t: int| 0 <= t < i + 1 && cells@[t] == x {
                        let t = choose|t: int| 0 <= t < i + 1 && cells@[t] == x;
                        if t < i {
                            assert(exists|t2: int| 0 <= t2 < i && cells@[t2] == x);
                        }
                    }
                    if exists|t: int| 0 <= t < i && cells@[t] == x {
                        let t = choose|t: int| 0 <= t < i && cells@[t] == x;
                        assert(0 <= t < i + 1 && cells@[t] == x);
                    }
                }
            }
            i = i + 1;
        }
        proof {
            assert forall|p: Cell| #[trigger] out@.contains(p) <==> node_cells(*structure, m@, nodes@, p) by {
                if node_cells(*structure, m@, nodes@, p) {
                    assert(structure.positions.elems().to_set().contains(p));
                    let t = choose|t: int| 0 <= t < cells@.len() && cells@[t] == p;
                }
            }
        }
        out
    }
}


/// `nodes` are the nodes of the preferred group of the action (`forward`: extending)
/// of the pusher at `pos`.
pub open spec fn preferred_nodes(st: StructureState, m: Map<Cell, DeformBlock>, pos: Cell, forward: bool, nodes: Seq<BlockId>) -> bool {
    exists|id: StructureId, idx: Vec<u32>| #[trigger] action_groups_at(st, m, pos, forward, Some((id, idx)))
        && nodes == st.structure_at(pos)->0.deform_groups@[idx@[0] as int].nodes@
}

/// The cells of the structure carrying the nodes.
pub open spec fn side_cells(s: Structure, m: Map<Cell, DeformBlock>, nodes: Seq<BlockId>) -> Set<Cell> {
    Set::new(|p: Cell| node_cells(s, m, nodes, p))
}

fn sets_disjoint(a: &CellSet, b: &CellSet) -> (r: bool)
    requires
        a.wf(),
    ensures
        r == a@.disjoint(b@),
{
    let cells = a.to_vec();
    proof {
        a.lemma_elems();
    }
    let mut i: usize = 0;
    while i < cells.len()
        invariant
            cells@ == a.elems(),
            a@ == a.elems().to_set(),
            i <= cells@.len(),
            forall|j: int| 0 <= j < i ==> !b@.contains(#[trigger] cells@[j]),
        decreases cells@.len() - i,
    {
        if b.contains(cells[i]) {
            assert(a@.contains(cells@[i as int]));
            return false;
        }
        i = i + 1;
    }
    assert forall|p: Cell| a@.contains(p) implies !b@.contains(p) by {
        let j = choose|j: int| 0 <= j < cells@.len() && cells@[j] == p;
    }
    true
}

impl StructureState {
    /// The two sides of the cut the pusher at `pusher_pos` makes: the cells moving with
    /// its head when it extends (target) and with its body when it retracts (actor), by
    /// their preferred groups; whether they are both non-empty and apart; and whether
    /// each touches the scene.  `None` when either action has no group.
    pub fn deform_sides(&self, m: &CellMap<DeformBlock>, pusher_pos: Cell) -> (r: Option<DeformSides>)
        requires
            self.wf(),
            m.wf(),
            self.structure_at(pusher_pos) matches Some(s) ==> s.deform_groups@.len() <= u32::MAX,
        ensures
            match r {
                None => action_groups_at(*self, m@, pusher_pos, true, None) || action_groups_at(*self, m@, pusher_pos, false, None),
                Some(sd) => {
                    let s = self.structure_at(pusher_pos)->0;
                    exists|tn: Seq<BlockId>, an: Seq<BlockId>| #[trigger] preferred_nodes(*self, m@, pusher_pos, true, tn) && #[trigger] preferred_nodes(*self, m@, pusher_pos, false, an)
                        && sd.target_side@ == side_cells(s, m@, tn) && sd.actor_side@ == side_cells(s, m@, an)
                        && sd.separated == (!sd.target_side@.is_empty() && !sd.actor_side@.is_empty() && sd.target_side@.disjoint(sd.actor_side@))
                        && sd.actor_anchored == (exists|p: Cell| sd.actor_side@.contains(p) && s.scene_touching@.contains(p))
                        && sd.target_anchored == (exists|p: Cell| sd.target_side@.contains(p) && s.scene_touching@.contains(p))
                },
            },
    {
        let (id, ti, tn) = match self.deform_action(m, pusher_pos, true) {
            Some(t) => t,
            None => return None,
        };
        let (_, ai, an) = match self.deform_action(m, pusher_pos, false) {
            Some(t) => t,
            None => return None,
        };
        proof {
            self.lemma_wf_facts();
            let k = self.index()[pusher_pos].0;
            self.lemma_entry(k);
            assert(self.table().contains_key(id.0));
        }
        let seed = self.get(id).unwrap();
        proof {
            assert(self.structure_at(pusher_pos)->0 == *seed);
        }
        let target_side = self.nodes_to_positions(m, seed, &tn);
        let actor_side = self.nodes_to_positions(m, seed, &an);
        let separated = !target_side.is_empty() && !actor_side.is_empty() && sets_disjoint(&target_side, &actor_side);
        let actor_anchored = seed.is_scene_anchored_subset(&actor_side);
        let target_anchored = seed.is_scene_anchored_subset(&target_side);
        let sd = DeformSides { separated, actor_side, target_side, actor_anchored, target_anchored };
        proof {
            assert(sd.target_side@ =~= side_cells(*seed, m@, tn@));
            assert(sd.actor_side@ =~= side_cells(*seed, m@, an@));
            assert(preferred_nodes(*self, m@, pusher_pos, true, tn@));
            assert(preferred_nodes(*self, m@, pusher_pos, false, an@));
        }
        Some(sd)
    }
}

} // verus!
