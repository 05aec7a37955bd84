//! Signal wiring: connected wire components, and the detectors and devices wired
//! to them.  Components are tracked by block identity, so they stay valid when the
//! blocks move.
use vstd::prelude::*;

use std::collections::HashMap;

use crate::cell::{mk, signal_offsets, signal_offsets_spec, Cell};
use crate::cellmap::{CellMap, CellSet};
use crate::ids::{BlockId, MaterialFace};

verus! {

/// A connected component of signal wires (numbered locally by the cache, renumbered
/// on every rebuild).
#[derive(Clone, Copy, Debug, PartialEq, Eq, Hash, Structural)]
pub struct SignalComponentId(pub usize);

/// The faces through which a block takes signal from adjacent wires.
#[derive(Clone, Copy, Debug, PartialEq, Eq, Structural)]
pub enum WireFaces {
    All,
    Only(Cell),
    AllBut(Cell),
}

impl WireFaces {
    pub open spec fn allows_spec(self, offset: Cell) -> bool {
        match self {
            WireFaces::All => true,
            WireFaces::Only(o) => o == offset,
            WireFaces::AllBut(o) => o != offset,
        }
    }

    pub fn allows(self, offset: Cell) -> (r: bool)
        ensures
            r == self.allows_spec(offset),
    {
        match self {
            WireFaces::All => true,
            WireFaces::Only(o) => o == offset,
            WireFaces::AllBut(o) => o != offset,
        }
    }
}

/// What a block does on the signal network.
#[derive(Clone, Copy, Debug, PartialEq, Eq, Structural)]
pub enum SignalRole {
    Wire,
    /// A detector watching the cell at offset `detection`; wired on every other face.
    Detector { detection: Cell },
    /// A powered device wired through `faces`.
    Device { faces: WireFaces },
    Inert,
}

/// A block as the signal network sees it.
#[derive(Clone, Copy, Debug, PartialEq, Eq, Structural)]
pub struct SignalBlock {
    pub id: BlockId,
    pub role: SignalRole,
}

/// Each block has its own identity, and every block's six neighbours can be
/// addressed.
pub open spec fn grid_ok(g: Map<Cell, SignalBlock>) -> bool {
    &&& forall|p: Cell, q: Cell|
        #![trigger g[p], g[q]]
        g.contains_key(p) && g.contains_key(q) && p != q ==> g[p].id != g[q].id
    &&& forall|p: Cell| #[trigger] g.contains_key(p) ==> interior(p)
}

/// All six neighbours of `p` can be addressed.
pub open spec fn interior(p: Cell) -> bool {
    &&& i32::MIN < p.x < i32::MAX
    &&& i32::MIN < p.y < i32::MAX
    &&& i32::MIN < p.z < i32::MAX
}

pub open spec fn is_wire(g: Map<Cell, SignalBlock>, p: Cell) -> bool {
    g.contains_key(p) && g[p].role == SignalRole::Wire
}

/// Wires `p` and `q` are joined through offset `o` from `p`, with no panel on either
/// of the two touching faces.
pub open spec fn link_via(g: Map<Cell, SignalBlock>, panels: Seq<MaterialFace>, p: Cell, q: Cell, o: Cell) -> bool {
    &&& is_wire(g, p)
    &&& is_wire(g, q)
    &&& q == p.plus(o)
    &&& !panels.contains(MaterialFace { block: g[p].id, normal: o })
    &&& !panels.contains(MaterialFace { block: g[q].id, normal: o.negated() })
}

/// Wires `p` and `q` are face neighbours joined through faces free of panels.
pub open spec fn wire_link(g: Map<Cell, SignalBlock>, panels: Seq<MaterialFace>, p: Cell, q: Cell) -> bool {
    exists|i: int| 0 <= i < 6 && #[trigger] link_via(g, panels, p, q, signal_offsets_spec()[i])
}

/// `path` walks from wire to wire along links.
pub open spec fn is_wire_path(g: Map<Cell, SignalBlock>, panels: Seq<MaterialFace>, path: Seq<Cell>) -> bool {
    &&& path.len() >= 1
    &&& forall|i: int| 0 <= i < path.len() ==> is_wire(g, #[trigger] path[i])
    &&& forall|i: int| 0 <= i < path.len() - 1 ==> wire_link(g, panels, #[trigger] path[i], path[i + 1])
}

/// Wires `p` and `q` belong to the same network.
pub open spec fn wire_connected(g: Map<Cell, SignalBlock>, panels: Seq<MaterialFace>, p: Cell, q: Cell) -> bool {
    exists|path: Seq<Cell>| #[trigger] is_wire_path(g, panels, path) && path[0] == p && path.last() == q
}

/// `labels` numbers the wire components `0..n`: every wire carries a label, only
/// wires do, each number is used, and two wires share a label exactly when they
/// are connected.
pub open spec fn labels_ok(
    labels: Map<u64, SignalComponentId>,
    n: nat,
    g: Map<Cell, SignalBlock>,
    panels: Seq<MaterialFace>,
) -> bool {
    &&& forall|p: Cell| #[trigger] is_wire(g, p) ==> labels.contains_key(g[p].id.0) && labels[g[p].id.0].0 < n
    &&& forall|k: u64| #[trigger] labels.contains_key(k) ==> exists|p: Cell| is_wire(g, p) && #[trigger] g[p].id.0 == k
    &&& forall|c: int| 0 <= c < n ==> #[trigger] label_used(labels, g, c)
    &&& forall|p: Cell, q: Cell|
        #![trigger labels[g[p].id.0], labels[g[q].id.0]]
        is_wire(g, p) && is_wire(g, q) ==> (labels[g[p].id.0] == labels[g[q].id.0] <==> wire_connected(g, panels, p, q))
}

/// Some wire carries the label `c`.
pub open spec fn label_used(labels: Map<u64, SignalComponentId>, g: Map<Cell, SignalBlock>, c: int) -> bool {
    exists|p: Cell| is_wire(g, p) && #[trigger] labels[g[p].id.0].0 == c
}

/// Components of the wires next to `pos` through the faces `faces` allows, in the
/// order of the six offsets, each once; `k` offsets considered.
pub open spec fn adjacent_prefix(
    g: Map<Cell, SignalBlock>,
    labels: Map<u64, SignalComponentId>,
    pos: Cell,
    faces: WireFaces,
    k: int,
) -> Seq<SignalComponentId>
    decreases k,
{
    if k <= 0 {
        Seq::empty()
    } else {
        let prev = adjacent_prefix(g, labels, pos, faces, k - 1);
        let o = signal_offsets_spec()[k - 1];
        let n = pos.plus(o);
        if faces.allows_spec(o) && g.contains_key(n) && labels.contains_key(g[n].id.0) && !prev.contains(
            labels[g[n].id.0],
        ) {
            prev.push(labels[g[n].id.0])
        } else {
            prev
        }
    }
}

/// Components of the wires next to `pos` through the faces `faces` allows.
pub open spec fn adjacent_components(
    g: Map<Cell, SignalBlock>,
    labels: Map<u64, SignalComponentId>,
    pos: Cell,
    faces: WireFaces,
) -> Seq<SignalComponentId> {
    adjacent_prefix(g, labels, pos, faces, 6)
}

/// Links go both ways.
proof fn lemma_link_symmetric(g: Map<Cell, SignalBlock>, panels: Seq<MaterialFace>, p: Cell, q: Cell)
    requires
        interior(p),
        wire_link(g, panels, p, q),
    ensures
        wire_link(g, panels, q, p),
{
    let s = signal_offsets_spec();
    let i = choose|i: int| 0 <= i < 6 && #[trigger] link_via(g, panels, p, q, s[i]);
    let j: int = if i == 0 {
        1
    } else if i == 1 {
        0
    } else if i == 2 {
        3
    } else if i == 3 {
        2
    } else if i == 4 {
        5
    } else {
        4
    };
    assert(s[j] == s[i].negated());
    assert(s[j].negated() == s[i]);
    assert(q.plus(s[j]) == p);
    assert(link_via(g, panels, q, p, s[j]));
}

/// A set of wires holding `s` and closed under links holds every wire `s` reaches.
proof fn lemma_closed_contains_reachable(
    g: Map<Cell, SignalBlock>,
    panels: Seq<MaterialFace>,
    s: Cell,
    found: Set<Cell>,
    path: Seq<Cell>,
)
    requires
        found.contains(s),
        forall|x: Cell, y: Cell| #![trigger found.contains(x), wire_link(g, panels, x, y)]
            found.contains(x) && wire_link(g, panels, x, y) ==> found.contains(y),
        is_wire_path(g, panels, path),
        path[0] == s,
    ensures
        found.contains(path.last()),
    decreases path.len(),
{
    if path.len() > 1 {
        let prefix = path.drop_last();
        assert(is_wire_path(g, panels, prefix)) by {
            assert forall|i: int| 0 <= i < prefix.len() implies is_wire(g, #[trigger] prefix[i]) by {
                assert(prefix[i] == path[i]);
            }
            assert forall|i: int| 0 <= i < prefix.len() - 1 implies wire_link(g, panels, #[trigger] prefix[i], prefix[i + 1]) by {
                assert(prefix[i] == path[i]);
                assert(prefix[i + 1] == path[i + 1]);
            }
        }
        lemma_closed_contains_reachable(g, panels, s, found, prefix);
        let k = path.len() - 2;
        assert(wire_link(g, panels, path[k], path[k + 1]));
        assert(found.contains(path[k]));
    }
}

/// Extends a connection by one link.
proof fn lemma_connected_extend(g: Map<Cell, SignalBlock>, panels: Seq<MaterialFace>, s: Cell, x: Cell, y: Cell)
    requires
        wire_connected(g, panels, s, x),
        wire_link(g, panels, x, y),
    ensures
        wire_connected(g, panels, s, y),
{
    let path = choose|path: Seq<Cell>| #[trigger] is_wire_path(g, panels, path) && path[0] == s && path.last() == x;
    let p2 = path.push(y);
    assert forall|i: int| 0 <= i < p2.len() implies is_wire(g, #[trigger] p2[i]) by {
        if i < path.len() {
            assert(p2[i] == path[i]);
        } else {
            let j = choose|j: int| 0 <= j < 6 && #[trigger] link_via(g, panels, x, y, signal_offsets_spec()[j]);
        }
    }
    assert forall|i: int| 0 <= i < p2.len() - 1 implies wire_link(g, panels, #[trigger] p2[i], p2[i + 1]) by {
        assert(p2[i] == path[i]);
        if i < path.len() - 1 {
            assert(p2[i + 1] == path[i + 1]);
        }
    }
    assert(is_wire_path(g, panels, p2));
}

/// Every wire is connected to itself.
pub proof fn lemma_connected_refl(g: Map<Cell, SignalBlock>, panels: Seq<MaterialFace>, p: Cell)
    requires
        is_wire(g, p),
    ensures
        wire_connected(g, panels, p, p),
{
    let path = seq![p];
    assert(is_wire_path(g, panels, path));
}

/// Wire connection goes both ways: if `p` reaches `q`, `q` reaches `p`.
pub proof fn lemma_connected_symmetric(g: Map<Cell, SignalBlock>, panels: Seq<MaterialFace>, p: Cell, q: Cell)
    requires
        grid_ok(g),
        wire_connected(g, panels, p, q),
    ensures
        wire_connected(g, panels, q, p),
{
    let path = choose|path: Seq<Cell>| #[trigger] is_wire_path(g, panels, path) && path[0] == p && path.last() == q;
    lemma_path_reverse(g, panels, path);
}

proof fn lemma_path_reverse(g: Map<Cell, SignalBlock>, panels: Seq<MaterialFace>, path: Seq<Cell>)
    requires
        grid_ok(g),
        is_wire_path(g, panels, path),
    ensures
        wire_connected(g, panels, path.last(), path[0]),
    decreases path.len(),
{
    if path.len() == 1 {
        lemma_connected_refl(g, panels, path[0]);
    } else {
        let rest = path.subrange(1, path.len() as int);
        assert(is_wire_path(g, panels, rest)) by {
            assert forall|i: int| 0 <= i < rest.len() implies is_wire(g, #[trigger] rest[i]) by {
                assert(rest[i] == path[i + 1]);
            }
            assert forall|i: int| 0 <= i < rest.len() - 1 implies wire_link(g, panels, #[trigger] rest[i], rest[i + 1]) by {
                assert(rest[i] == path[i + 1]);
                assert(rest[i + 1] == path[i + 2]);
            }
        }
        lemma_path_reverse(g, panels, rest);
        assert(rest.last() == path.last());
        assert(rest[0] == path[1]);
        assert(wire_link(g, panels, path[0], path[1]));
        assert(g.contains_key(path[0]));
        lemma_link_symmetric(g, panels, path[0], path[1]);
        lemma_connected_extend(g, panels, path.last(), path[1], path[0]);
    }
}

/// Wire connection chains: if `p` reaches `q` and `q` reaches `r`, `p` reaches `r`.
pub proof fn lemma_connected_transitive(g: Map<Cell, SignalBlock>, panels: Seq<MaterialFace>, p: Cell, q: Cell, r: Cell)
    requires
        wire_connected(g, panels, p, q),
        wire_connected(g, panels, q, r),
    ensures
        wire_connected(g, panels, p, r),
{
    let path = choose|path: Seq<Cell>| #[trigger] is_wire_path(g, panels, path) && path[0] == q && path.last() == r;
    lemma_connected_along(g, panels, p, path);
}

proof fn lemma_connected_along(g: Map<Cell, SignalBlock>, panels: Seq<MaterialFace>, p: Cell, path: Seq<Cell>)
    requires
        is_wire_path(g, panels, path),
        wire_connected(g, panels, p, path[0]),
    ensures
        wire_connected(g, panels, p, path.last()),
    decreases path.len(),
{
    if path.len() > 1 {
        let prefix = path.drop_last();
        assert(is_wire_path(g, panels, prefix)) by {
            assert forall|i: int| 0 <= i < prefix.len() implies is_wire(g, #[trigger] prefix[i]) by {
                assert(prefix[i] == path[i]);
            }
            assert forall|i: int| 0 <= i < prefix.len() - 1 implies wire_link(g, panels, #[trigger] prefix[i], prefix[i + 1]) by {
                assert(prefix[i] == path[i]);
                assert(prefix[i + 1] == path[i + 1]);
            }
        }
        lemma_connected_along(g, panels, p, prefix);
        let k = path.len() - 2;
        assert(wire_link(g, panels, path[k], path[k + 1]));
        lemma_connected_extend(g, panels, p, path[k], path[k + 1]);
    }
}

/// Every label names a wire, lies below the number of flood starts, and is carried by
/// wires connected to the start it was flooded from; each start carries its own number.
pub open spec fn labeling_sound(
    labels: Map<u64, SignalComponentId>,
    g: Map<Cell, SignalBlock>,
    panels: Seq<MaterialFace>,
    starts: Seq<Cell>,
) -> bool {
    &&& forall|k: u64| #[trigger] labels.contains_key(k) ==> exists|p: Cell| is_wire(g, p) && #[trigger] g[p].id.0 == k
    &&& forall|p: Cell| #[trigger] is_wire(g, p) && labels.contains_key(g[p].id.0) ==> labels[g[p].id.0].0 < starts.len()
        && wire_connected(g, panels, starts[labels[g[p].id.0].0 as int], p)
    &&& forall|c: int| 0 <= c < starts.len() ==> is_wire(g, #[trigger] starts[c]) && labels.contains_key(g[starts[c]].id.0)
        && labels[g[starts[c]].id.0].0 == c
}

/// Links never leave a labelled wire whose label is not `c` for an unlabelled wire or
/// one with another label.
pub open spec fn closed_except(
    labels: Map<u64, SignalComponentId>,
    g: Map<Cell, SignalBlock>,
    panels: Seq<MaterialFace>,
    c: int,
) -> bool {
    forall|p: Cell, q: Cell|
        #![trigger labels[g[p].id.0], wire_link(g, panels, p, q)]
        is_wire(g, p) && labels.contains_key(g[p].id.0) && labels[g[p].id.0].0 != c && wire_link(g, panels, p, q)
            ==> labels.contains_key(g[q].id.0) && labels[g[q].id.0] == labels[g[p].id.0]
}

/// Whether a panel covers the face.
fn face_blocked(panels: &[MaterialFace], face: MaterialFace) -> (r: bool)
    ensures
        r == panels@.contains(face),
{
    let mut i: usize = 0;
    while i < panels.len()
        invariant
            i <= panels@.len(),
            forall|j: int| 0 <= j < i ==> panels@[j] != face,
        decreases panels@.len() - i,
    {
        if panels[i] == face {
            return true;
        }
        i = i + 1;
    }
    false
}

/// Labels with `c` every wire connected to `start`.
#[verifier::rlimit(80)]
fn flood_component(
    g: &CellMap<SignalBlock>,
    panels: &[MaterialFace],
    labels: &mut HashMap<u64, SignalComponentId>,
    start: Cell,
    c: usize,
    Ghost(starts): Ghost<Seq<Cell>>,
)
    requires
        g.wf(),
        grid_ok(g@),
        labeling_sound(old(labels)@, g@, panels@, starts),
        closed_except(old(labels)@, g@, panels@, -1),
        is_wire(g@, start),
        !old(labels)@.contains_key(g@[start].id.0),
        c == starts.len(),
    ensures
        labeling_sound(final(labels)@, g@, panels@, starts.push(start)),
        closed_except(final(labels)@, g@, panels@, -1),
        forall|k: u64| #[trigger] old(labels)@.contains_key(k) ==> final(labels)@.contains_key(k) && final(labels)@[k]
            == old(labels)@[k],
{
    let ghost gm = g@;
    let ghost pm = panels@;
    let ghost starts2 = starts.push(start);
    let ghost old_labels = labels@;
    let start_block = g.get(start).unwrap();
    labels.insert(start_block.id.0, SignalComponentId(c));
    let mut queue: Vec<Cell> = Vec::new();
    queue.push(start);
    proof {
        g.lemma_view_finite();
        lemma_connected_refl(gm, pm, start);
        assert(queue@ =~= seq![start]);
        assert forall|p: Cell| #[trigger] is_wire(gm, p) && labels@.contains_key(gm[p].id.0) implies labels@[gm[p].id.0].0
            < starts2.len() && wire_connected(gm, pm, starts2[labels@[gm[p].id.0].0 as int], p) by {
            if gm[p].id.0 == start_block.id.0 {
                if p != start {
                    assert(gm[p].id != gm[start].id);
                }
            } else {
                assert(old_labels.contains_key(gm[p].id.0));
            }
        }
        assert forall|k: u64| #[trigger] labels@.contains_key(k) implies exists|p: Cell| is_wire(gm, p) && #[trigger] gm[p].id.0 == k by {
            if k == start_block.id.0 {
                assert(is_wire(gm, start) && gm[start].id.0 == k);
            }
        }
        assert forall|d: int| 0 <= d < starts2.len() implies is_wire(gm, #[trigger] starts2[d]) && labels@.contains_key(gm[starts2[d]].id.0)
            && labels@[gm[starts2[d]].id.0].0 == d by {
            if d < starts.len() {
                assert(starts2[d] == starts[d]);
                assert(old_labels.contains_key(gm[starts[d]].id.0));
                if gm[starts[d]].id.0 == start_block.id.0 {
                    assert(false);
                }
            }
        }
        assert(labeling_sound(labels@, gm, pm, starts2));
        assert forall|p: Cell| #[trigger] is_wire(gm, p) && labels@.contains_key(gm[p].id.0) && labels@[gm[p].id.0].0 == c
            implies queue@.contains(p) by {
            if gm[p].id.0 != start_block.id.0 {
                assert(old_labels.contains_key(gm[p].id.0));
            } else {
                if p != start {
                    assert(gm[p].id != gm[start].id);
                }
                assert(queue@[0] == start);
            }
        }
        assert(closed_except(labels@, gm, pm, c as int)) by {
            assert forall|p: Cell, q: Cell|
                #![trigger labels@[gm[p].id.0], wire_link(gm, pm, p, q)]
                is_wire(gm, p) && labels@.contains_key(gm[p].id.0) && labels@[gm[p].id.0].0 != c && wire_link(gm, pm, p, q)
                    implies labels@.contains_key(gm[q].id.0) && labels@[gm[q].id.0] == labels@[gm[p].id.0] by {
                assert(old_labels.contains_key(gm[p].id.0));
                assert(old_labels[gm[p].id.0] == labels@[gm[p].id.0]);
                assert(old_labels.contains_key(gm[q].id.0));
            }
        }
    }
    let mut head: usize = 0;
    while head < queue.len()
        invariant
            g.wf(),
            gm == g@,
            pm == panels@,
            grid_ok(gm),
            gm.dom().finite(),
            starts2 == starts.push(start),
            c == starts.len(),
            head <= queue@.len(),
            queue@.no_duplicates(),
            forall|t: int| 0 <= t < queue@.len() ==> is_wire(gm, #[trigger] queue@[t]) && labels@.contains_key(gm[queue@[t]].id.0)
                && labels@[gm[queue@[t]].id.0].0 == c,
            forall|p: Cell| #[trigger] is_wire(gm, p) && labels@.contains_key(gm[p].id.0) && labels@[gm[p].id.0].0 == c
                ==> queue@.contains(p),
            forall|t: int, q: Cell| 0 <= t < head && #[trigger] wire_link(gm, pm, queue@[t], q) ==> labels@.contains_key(gm[q].id.0)
                && labels@[gm[q].id.0].0 == c,
            labeling_sound(labels@, gm, pm, starts2),
            closed_except(labels@, gm, pm, c as int),
            forall|k: u64| #[trigger] old_labels.contains_key(k) ==> labels@.contains_key(k) && labels@[k] == old_labels[k],
        decreases gm.dom().len() - head,
    {
        proof {
            assert(queue@.to_set().subset_of(gm.dom())) by {
                assert forall|p: Cell| queue@.to_set().contains(p) implies gm.dom().contains(p) by {
                    let t = choose|t: int| 0 <= t < queue@.len() && queue@[t] == p;
                    assert(is_wire(gm, queue@[t]));
                }
            }
            vstd::set_lib::lemma_len_subset(queue@.to_set(), gm.dom());
            queue@.unique_seq_to_set();
        }
        let wire_pos = queue[head];
        let wire_block = g.get(wire_pos).unwrap();
        proof {
            assert(is_wire(gm, queue@[head as int]));
            assert(interior(wire_pos));
        }
        let offsets = signal_offsets();
        let mut k: usize = 0;
        while k < 6
            invariant
                g.wf(),
                gm == g@,
                pm == panels@,
                grid_ok(gm),
                gm.dom().finite(),
                starts2 == starts.push(start),
                c == starts.len(),
                head < queue@.len(),
                wire_pos == queue@[head as int],
                wire_block == gm[wire_pos],
                is_wire(gm, wire_pos),
                interior(wire_pos),
                offsets@ == signal_offsets_spec(),
                k <= 6,
                queue@.no_duplicates(),
                forall|t: int| 0 <= t < queue@.len() ==> is_wire(gm, #[trigger] queue@[t]) && labels@.contains_key(gm[queue@[t]].id.0)
                    && labels@[gm[queue@[t]].id.0].0 == c,
                forall|p: Cell| #[trigger] is_wire(gm, p) && labels@.contains_key(gm[p].id.0) && labels@[gm[p].id.0].0 == c
                    ==> queue@.contains(p),
                forall|t: int, q: Cell| 0 <= t < head && #[trigger] wire_link(gm, pm, queue@[t], q) ==> labels@.contains_key(gm[q].id.0)
                    && labels@[gm[q].id.0].0 == c,
                forall|j: int, q: Cell| 0 <= j < k && #[trigger] link_via(gm, pm, wire_pos, q, signal_offsets_spec()[j])
                    ==> labels@.contains_key(gm[q].id.0) && labels@[gm[q].id.0].0 == c,
                labeling_sound(labels@, gm, pm, starts2),
                closed_except(labels@, gm, pm, c as int),
                forall|kk: u64| #[trigger] old_labels.contains_key(kk) ==> labels@.contains_key(kk) && labels@[kk] == old_labels[kk],
            decreases 6 - k,
        {
            let offset = offsets[k];
            let ghost o = signal_offsets_spec()[k as int];
            assert(offset == o);
            if !face_blocked(panels, MaterialFace::new(wire_block.id, offset)) {
                let neighbor = wire_pos.add(offset);
                match g.get(neighbor) {
                    Some(nb) => {
                        if nb.role == SignalRole::Wire && !face_blocked(panels, MaterialFace::new(nb.id, offset.neg())) {
                            let ghost before = labels@;
                            proof {
                                assert(link_via(gm, pm, wire_pos, neighbor, o));
                                assert(wire_link(gm, pm, wire_pos, neighbor));
                                lemma_link_symmetric(gm, pm, wire_pos, neighbor);
                                if before.contains_key(nb.id.0) && before[nb.id.0].0 != c {
                                    assert(wire_link(gm, pm, neighbor, wire_pos));
                                    assert(before.contains_key(gm[wire_pos].id.0));
                                    assert(false);
                                }
                                let t0 = choose|t: int| 0 <= t < queue@.len() && queue@[t] == wire_pos;
                                assert(labels@[gm[queue@[t0]].id.0].0 == c);
                                assert(wire_connected(gm, pm, starts2[c as int], wire_pos));
                                lemma_connected_extend(gm, pm, starts2[c as int], wire_pos, neighbor);
                            }
                            let prev = labels.insert(nb.id.0, SignalComponentId(c));
                            proof {
                                assert forall|p: Cell| is_wire(gm, p) && gm[p].id.0 == nb.id.0 implies p == neighbor by {
                                    if p != neighbor {
                                        assert(gm[p].id != gm[neighbor].id);
                                    }
                                }
                            }
                            if prev.is_none() {
                                let ghost q0 = queue@;
                                queue.push(neighbor);
                                proof {
                                    assert(!q0.contains(neighbor)) by {
                                        if q0.contains(neighbor) {
                                            let t = choose|t: int| 0 <= t < q0.len() && q0[t] == neighbor;
                                            assert(before.contains_key(gm[q0[t]].id.0));
                                        }
                                    }
                                    assert(queue@.no_duplicates()) by {
                                        assert forall|a: int, b: int| 0 <= a < queue@.len() && 0 <= b < queue@.len() && a != b
                                            implies queue@[a] != queue@[b] by {
                                            if a < q0.len() && b < q0.len() {
                                                assert(queue@[a] == q0[a] && queue@[b] == q0[b]);
                                            } else if a < q0.len() {
                                                assert(queue@[a] == q0[a]);
                                                assert(q0.contains(q0[a]));
                                            } else if b < q0.len() {
                                                assert(queue@[b] == q0[b]);
                                                assert(q0.contains(q0[b]));
                                            }
                                        }
                                    }
                                    assert forall|t: int| 0 <= t < queue@.len() implies is_wire(gm, #[trigger] queue@[t])
                                        && labels@.contains_key(gm[queue@[t]].id.0) && labels@[gm[queue@[t]].id.0].0 == c by {
                                        if t < q0.len() {
                                            assert(queue@[t] == q0[t]);
                                        }
                                    }
                                    assert forall|p: Cell| #[trigger] is_wire(gm, p) && labels@.contains_key(gm[p].id.0)
                                        && labels@[gm[p].id.0].0 == c implies queue@.contains(p) by {
                                        if p == neighbor {
                                            assert(queue@[q0.len() as int] == p);
                                        } else {
                                            assert(q0.contains(p));
                                            let t = choose|t: int| 0 <= t < q0.len() && q0[t] == p;
                                            assert(queue@[t] == p);
                                        }
                                    }
                                    assert forall|t: int, q: Cell| 0 <= t < head && #[trigger] wire_link(gm, pm, queue@[t], q)
                                        implies labels@.contains_key(gm[q].id.0) && labels@[gm[q].id.0].0 == c by {
                                        assert(queue@[t] == q0[t]);
                                    }
                                }
                            } else {
                                proof {
                                    assert(before.contains_key(nb.id.0));
                                    assert(before[nb.id.0].0 == c);
                                    assert(labels@ =~= before);
                                }
                            }
                            proof {
                                assert forall|kk: u64| #[trigger] labels@.contains_key(kk) implies exists|p: Cell| is_wire(gm, p)
                                    && #[trigger] gm[p].id.0 == kk by {
                                    if kk == nb.id.0 {
                                        assert(is_wire(gm, neighbor) && gm[neighbor].id.0 == kk);
                                    } else {
                                        assert(before.contains_key(kk));
                                    }
                                }
                                assert forall|p: Cell| #[trigger] is_wire(gm, p) && labels@.contains_key(gm[p].id.0) implies labels@[gm[p].id.0].0
                                    < starts2.len() && wire_connected(gm, pm, starts2[labels@[gm[p].id.0].0 as int], p) by {
                                    if gm[p].id.0 != nb.id.0 {
                                        assert(before.contains_key(gm[p].id.0));
                                    }
                                }
                                assert forall|d: int| 0 <= d < starts2.len() implies is_wire(gm, #[trigger] starts2[d])
                                    && labels@.contains_key(gm[starts2[d]].id.0) && labels@[gm[starts2[d]].id.0].0 == d by {
                                    assert(before.contains_key(gm[starts2[d]].id.0));
                                    if gm[starts2[d]].id.0 == nb.id.0 {
                                        assert(starts2[d] == neighbor);
                                    }
                                }
                                assert(closed_except(labels@, gm, pm, c as int)) by {
                                    assert forall|p: Cell, q: Cell|
                                        #![trigger labels@[gm[p].id.0], wire_link(gm, pm, p, q)]
                                        is_wire(gm, p) && labels@.contains_key(gm[p].id.0) && labels@[gm[p].id.0].0 != c
                                            && wire_link(gm, pm, p, q) implies labels@.contains_key(gm[q].id.0)
                                            && labels@[gm[q].id.0] == labels@[gm[p].id.0] by {
                                        if gm[p].id.0 == nb.id.0 {
                                            assert(p == neighbor);
                                        } else {
                                            assert(before.contains_key(gm[p].id.0));
                                            assert(before[gm[p].id.0] == labels@[gm[p].id.0]);
                                            if gm[q].id.0 == nb.id.0 {
                                                assert(before.contains_key(gm[q].id.0));
                                            }
                                        }
                                    }
                                }
                                assert forall|kk: u64| #[trigger] old_labels.contains_key(kk) implies labels@.contains_key(kk)
                                    && labels@[kk] == old_labels[kk] by {
                                    assert(before.contains_key(kk));
                                    if kk == nb.id.0 {
                                        assert(before[kk].0 == old_labels[kk].0);
                                        let p = choose|p: Cell| is_wire(gm, p) && #[trigger] gm[p].id.0 == kk;
                                        assert(p == neighbor);
                                    }
                                }
                            }
                        }
                    },
                    None => {},
                }
            }
            proof {
                assert forall|j: int, q: Cell| 0 <= j < k + 1 && #[trigger] link_via(gm, pm, wire_pos, q, signal_offsets_spec()[j])
                    implies labels@.contains_key(gm[q].id.0) && labels@[gm[q].id.0].0 == c by {
                    if j == k {
                        assert(q == wire_pos.plus(o));
                    }
                }
            }
            k = k + 1;
        }
        proof {
            assert forall|t: int, q: Cell| 0 <= t < head + 1 && #[trigger] wire_link(gm, pm, queue@[t], q)
                implies labels@.contains_key(gm[q].id.0) && labels@[gm[q].id.0].0 == c by {
                if t == head {
                    let j = choose|j: int| 0 <= j < 6 && #[trigger] link_via(gm, pm, queue@[t], q, signal_offsets_spec()[j]);
                }
            }
        }
        head = head + 1;
    }
    proof {
        assert(closed_except(labels@, gm, pm, -1)) by {
            assert forall|p: Cell, q: Cell|
                #![trigger labels@[gm[p].id.0], wire_link(gm, pm, p, q)]
                is_wire(gm, p) && labels@.contains_key(gm[p].id.0) && labels@[gm[p].id.0].0 != -1 && wire_link(gm, pm, p, q)
                    implies labels@.contains_key(gm[q].id.0) && labels@[gm[q].id.0] == labels@[gm[p].id.0] by {
                if labels@[gm[p].id.0].0 == c {
                    assert(queue@.contains(p));
                    let t = choose|t: int| 0 <= t < queue@.len() && queue@[t] == p;
                    assert(wire_link(gm, pm, queue@[t], q));
                }
            }
        }
    }
}

/// Numbers the wire components of the grid.
fn label_wires(g: &CellMap<SignalBlock>, panels: &[MaterialFace]) -> (r: (HashMap<u64, SignalComponentId>, usize))
    requires
        g.wf(),
        grid_ok(g@),
    ensures
        labels_ok(r.0@, r.1 as nat, g@, panels@),
{
    let ghost gm = g@;
    let ghost pm = panels@;
    let keys = g.keys();
    let mut labels: HashMap<u64, SignalComponentId> = HashMap::new();
    let mut n: usize = 0;
    let ghost mut starts: Seq<Cell> = Seq::empty();
    let mut i: usize = 0;
    while i < keys.len()
        invariant
            g.wf(),
            gm == g@,
            pm == panels@,
            grid_ok(gm),
            keys@.to_set() == gm.dom(),
            i <= keys@.len(),
            n <= i,
            n == starts.len(),
            labeling_sound(labels@, gm, pm, starts),
            closed_except(labels@, gm, pm, -1),
            forall|j: int| 0 <= j < i && is_wire(gm, #[trigger] keys@[j]) ==> labels@.contains_key(gm[keys@[j]].id.0),
        decreases keys@.len() - i,
    {
        let pos = keys[i];
        proof {
            assert(keys@.to_set().contains(pos));
        }
        let b = g.get(pos).unwrap();
        let ghost before = labels@;
        let ghost n0 = n;
        if b.role == SignalRole::Wire && !labels.contains_key(&b.id.0) {
            flood_component(g, panels, &mut labels, pos, n, Ghost(starts));
            proof {
                starts = starts.push(pos);
            }
            n = n + 1;
        }
        proof {
            assert forall|j: int| 0 <= j < i + 1 && is_wire(gm, #[trigger] keys@[j]) implies labels@.contains_key(gm[keys@[j]].id.0) by {
                if j == i {
                    assert(keys@[j] == pos);
                    if before.contains_key(gm[pos].id.0) {
                    } else {
                        assert(starts[n0 as int] == pos);
                    }
                } else {
                    assert(before.contains_key(gm[keys@[j]].id.0));
                }
            }
        }
        i = i + 1;
    }
    proof {
        assert forall|p: Cell| #[trigger] is_wire(gm, p) implies labels@.contains_key(gm[p].id.0) && labels@[gm[p].id.0].0 < n by {
            assert(keys@.to_set().contains(p));
            let j = choose|j: int| 0 <= j < keys@.len() && keys@[j] == p;
        }
        assert forall|cc: int| 0 <= cc < n implies #[trigger] label_used(labels@, gm, cc) by {
            assert(is_wire(gm, starts[cc]) && labels@[gm[starts[cc]].id.0].0 == cc);
        }
        assert forall|p: Cell, q: Cell|
            #![trigger labels@[gm[p].id.0], labels@[gm[q].id.0]]
            is_wire(gm, p) && is_wire(gm, q) implies (labels@[gm[p].id.0] == labels@[gm[q].id.0] <==> wire_connected(gm, pm, p, q)) by {
            assert(keys@.to_set().contains(p));
            assert(keys@.to_set().contains(q));
            let jp = choose|j: int| 0 <= j < keys@.len() && keys@[j] == p;
            let jq = choose|j: int| 0 <= j < keys@.len() && keys@[j] == q;
            assert(labels@.contains_key(gm[p].id.0));
            assert(labels@.contains_key(gm[q].id.0));
            if labels@[gm[p].id.0] == labels@[gm[q].id.0] {
                let st = starts[labels@[gm[p].id.0].0 as int];
                assert(wire_connected(gm, pm, st, p));
                assert(wire_connected(gm, pm, st, q));
                lemma_connected_symmetric(gm, pm, st, p);
                lemma_connected_transitive(gm, pm, p, st, q);
            }
            if wire_connected(gm, pm, p, q) {
                let lp = labels@[gm[p].id.0];
                let found = Set::new(|x: Cell| is_wire(gm, x) && labels@.contains_key(gm[x].id.0) && labels@[gm[x].id.0] == lp);
                assert forall|x: Cell, y: Cell| #![trigger found.contains(x), wire_link(gm, pm, x, y)]
                    found.contains(x) && wire_link(gm, pm, x, y) implies found.contains(y) by {
                    let j = choose|j: int| 0 <= j < 6 && #[trigger] link_via(gm, pm, x, y, signal_offsets_spec()[j]);
                    assert(labels@.contains_key(gm[y].id.0) && labels@[gm[y].id.0] == labels@[gm[x].id.0]);
                }
                let path = choose|path: Seq<Cell>| #[trigger] is_wire_path(gm, pm, path) && path[0] == p && path.last() == q;
                lemma_closed_contains_reachable(gm, pm, p, found, path);
            }
        }
    }
    (labels, n)
}

/// Detector at `p` wired to component `c`.
pub open spec fn detector_wired(
    g: Map<Cell, SignalBlock>,
    labels: Map<u64, SignalComponentId>,
    p: Cell,
    c: SignalComponentId,
) -> bool {
    g.contains_key(p) && match g[p].role {
        SignalRole::Detector { detection } => adjacent_components(g, labels, p, WireFaces::AllBut(detection)).contains(c),
        _ => false,
    }
}

/// Components a device at `p` is wired to (none for any other block).
pub open spec fn device_wiring(
    g: Map<Cell, SignalBlock>,
    labels: Map<u64, SignalComponentId>,
    p: Cell,
) -> Seq<SignalComponentId> {
    match g[p].role {
        SignalRole::Device { faces } => adjacent_components(g, labels, p, faces),
        _ => Seq::empty(),
    }
}

/// Detector lists by component and device wiring by device identity, as the grid
/// and the labels give them.
pub open spec fn wiring_ok(
    dets: Seq<Seq<BlockId>>,
    devs: Map<u64, Vec<SignalComponentId>>,
    labels: Map<u64, SignalComponentId>,
    n: nat,
    g: Map<Cell, SignalBlock>,
) -> bool {
    &&& dets.len() == n
    &&& forall|c: int| 0 <= c < n ==> (#[trigger] dets[c]).no_duplicates()
    &&& forall|c: int, d: BlockId|
        0 <= c < n ==> (#[trigger] dets[c].contains(d) <==> exists|p: Cell|
            g.contains_key(p) && #[trigger] g[p].id == d && detector_wired(g, labels, p, SignalComponentId(c as usize)))
    &&& forall|k: u64| #[trigger] devs.contains_key(k) <==> exists|p: Cell|
        g.contains_key(p) && #[trigger] g[p].id.0 == k && device_wiring(g, labels, p).len() > 0
    &&& forall|p: Cell| #[trigger] g.contains_key(p) && device_wiring(g, labels, p).len() > 0 ==> devs[g[p].id.0]@
        == device_wiring(g, labels, p)
}

fn comps_contain(v: &Vec<SignalComponentId>, c: SignalComponentId) -> (r: bool)
    ensures
        r == v@.contains(c),
{
    let mut i: usize = 0;
    while i < v.len()
        invariant
            i <= v@.len(),
            forall|j: int| 0 <= j < i ==> v@[j] != c,
        decreases v@.len() - i,
    {
        if v[i] == c {
            return true;
        }
        i = i + 1;
    }
    false
}

/// Components of the wires next to `pos` through the faces `faces` allows, each once.
fn adjacent_wire_components(
    g: &CellMap<SignalBlock>,
    labels: &HashMap<u64, SignalComponentId>,
    pos: Cell,
    faces: WireFaces,
) -> (r: Vec<SignalComponentId>)
    requires
        g.wf(),
        interior(pos),
    ensures
        r@ == adjacent_components(g@, labels@, pos, faces),
{
    let offsets = signal_offsets();
    let mut out: Vec<SignalComponentId> = Vec::new();
    let mut k: usize = 0;
    while k < 6
        invariant
            g.wf(),
            interior(pos),
            offsets@ == signal_offsets_spec(),
            k <= 6,
            out@ == adjacent_prefix(g@, labels@, pos, faces, k as int),
        decreases 6 - k,
    {
        let offset = offsets[k];
        if faces.allows(offset) {
            let neighbor = pos.add(offset);
            match g.get(neighbor) {
                Some(b) => {
                    match labels.get(&b.id.0) {
                        Some(c) => {
                            if !comps_contain(&out, *c) {
                                out.push(*c);
                            }
                        },
                        None => {},
                    }
                },
                None => {},
            }
        }
        k = k + 1;
    }
    out
}

/// Detector lists and device wiring for the labelled grid.
#[verifier::rlimit(60)]
fn cache_wiring(g: &CellMap<SignalBlock>, labels: &HashMap<u64, SignalComponentId>, n: usize) -> (r: (
    Vec<Vec<BlockId>>,
    HashMap<u64, Vec<SignalComponentId>>,
))
    requires
        g.wf(),
        grid_ok(g@),
        forall|k: u64| #[trigger] labels@.contains_key(k) ==> labels@[k].0 < n,
    ensures
        wiring_ok(r.0@.map_values(|v: Vec<BlockId>| v@), r.1@, labels@, n as nat, g@),
{
    let ghost gm = g@;
    let ghost lm = labels@;
    let keys = g.keys();
    let mut dets: Vec<Vec<BlockId>> = Vec::new();
    let mut c: usize = 0;
    while c < n
        invariant
            c <= n,
            dets@.len() == c,
            forall|j: int| 0 <= j < c ==> (#[trigger] dets@[j])@.len() == 0,
        decreases n - c,
    {
        dets.push(Vec::new());
        c = c + 1;
    }
    let mut devs: HashMap<u64, Vec<SignalComponentId>> = HashMap::new();
    let mut i: usize = 0;
    while i < keys.len()
        invariant
            g.wf(),
            gm == g@,
            lm == labels@,
            grid_ok(gm),
            forall|k: u64| #[trigger] lm.contains_key(k) ==> lm[k].0 < n,
            keys@.to_set() == gm.dom(),
            keys@.no_duplicates(),
            i <= keys@.len(),
            dets@.len() == n,
            forall|cc: int| 0 <= cc < n ==> (#[trigger] dets@[cc])@.no_duplicates(),
            forall|cc: int, d: BlockId|
                0 <= cc < n ==> (#[trigger] dets@[cc]@.contains(d) <==> exists|j: int|
                    0 <= j < i && #[trigger] gm[keys@[j]].id == d && detector_wired(gm, lm, keys@[j], SignalComponentId(cc as usize))),
            forall|k: u64| #[trigger] devs@.contains_key(k) <==> exists|j: int|
                0 <= j < i && #[trigger] gm[keys@[j]].id.0 == k && device_wiring(gm, lm, keys@[j]).len() > 0,
            forall|j: int| 0 <= j < i && device_wiring(gm, lm, #[trigger] keys@[j]).len() > 0 ==> devs@[gm[keys@[j]].id.0]@
                == device_wiring(gm, lm, keys@[j]),
        decreases keys@.len() - i,
    {
        let pos = keys[i];
        proof {
            assert(keys@.to_set().contains(pos));
            assert(interior(pos));
        }
        let b = g.get(pos).unwrap();
        let ghost dets0 = dets@;
        let ghost devs0 = devs@;
        let ghost mut dwire: Seq<SignalComponentId> = Seq::empty();
        match b.role {
            SignalRole::Detector { detection } => {
                let comps = adjacent_wire_components(g, labels, pos, WireFaces::AllBut(detection));
                proof {
                    lemma_adjacent_facts(gm, lm, pos, WireFaces::AllBut(detection), 6, n as nat);
                    assert(comps@.take(0) =~= Seq::<SignalComponentId>::empty());
                }
                let mut t: usize = 0;
                while t < comps.len()
                    invariant
                        t <= comps@.len(),
                        comps@ == adjacent_components(gm, lm, pos, WireFaces::AllBut(detection)),
                        dets@.len() == n,
                        forall|a: int| 0 <= a < comps@.len() ==> (#[trigger] comps@[a]).0 < n,
                        comps@.no_duplicates(),
                        forall|cc: int| 0 <= cc < n ==> (#[trigger] dets@[cc])@ == if comps@.take(t as int).contains(SignalComponentId(cc as usize)) {
                            dets0[cc]@.push(b.id)
                        } else {
                            dets0[cc]@
                        },
                    decreases comps@.len() - t,
                {
                    let cc = comps[t].0;
                    let ghost before = dets@;
                    let mut v = dets[cc].clone();
                    assert(v@ =~= before[cc as int]@);
                    v.push(b.id);
                    dets.set(cc, v);
                    proof {
                        assert(comps@.take(t + 1) =~= comps@.take(t as int).push(comps@[t as int]));
                        assert(!comps@.take(t as int).contains(comps@[t as int])) by {
                            if comps@.take(t as int).contains(comps@[t as int]) {
                                let a = choose|a: int| 0 <= a < t && comps@.take(t as int)[a] == comps@[t as int];
                                assert(comps@[a] == comps@[t as int]);
                            }
                        }
                        assert forall|c2: int| 0 <= c2 < n implies (#[trigger] dets@[c2])@ == if comps@.take(t + 1).contains(SignalComponentId(c2 as usize)) {
                            dets0[c2]@.push(b.id)
                        } else {
                            dets0[c2]@
                        } by {
                            let id2 = SignalComponentId(c2 as usize);
                            assert(comps@.take(t + 1).contains(id2) <==> (comps@.take(t as int).contains(id2) || comps@[t as int] == id2)) by {
                                if comps@.take(t + 1).contains(id2) {
                                    let a = choose|a: int| 0 <= a < t + 1 && #[trigger] comps@.take(t + 1)[a] == id2;
                                    if a < t {
                                        assert(comps@.take(t as int)[a] == id2);
                                    }
                                }
                                if comps@.take(t as int).contains(id2) {
                                    let a = choose|a: int| 0 <= a < t && #[trigger] comps@.take(t as int)[a] == id2;
                                    assert(comps@.take(t + 1)[a] == id2);
                                }
                                if comps@[t as int] == id2 {
                                    assert(comps@.take(t + 1)[t as int] == id2);
                                }
                            }
                            if c2 == cc {
                                assert(comps@[t as int] == id2);
                            } else {
                                assert(comps@[t as int] != id2);
                            }
                        }
                    }
                    t = t + 1;
                }
                proof {
                    assert(comps@.take(t as int) =~= comps@);
                    dwire = comps@;
                }
            },
            SignalRole::Device { faces } => {
                let comps = adjacent_wire_components(g, labels, pos, faces);
                if comps.len() > 0 {
                    devs.insert(b.id.0, comps);
                }
            },
            _ => {},
        }
        proof {
            assert forall|j: int| 0 <= j < i implies keys@[j] != pos && #[trigger] gm[keys@[j]].id != b.id by {
                assert(keys@[j] != keys@[i as int]);
                assert(keys@.to_set().contains(keys@[j]));
            }
            assert forall|cc: int, d: BlockId|
                0 <= cc < n implies (#[trigger] dets@[cc]@.contains(d) <==> exists|j: int|
                    0 <= j < i + 1 && #[trigger] gm[keys@[j]].id == d && detector_wired(gm, lm, keys@[j], SignalComponentId(cc as usize))) by {
                let cid = SignalComponentId(cc as usize);
                assert(detector_wired(gm, lm, pos, cid) <==> dwire.contains(cid));
                assert(dets@[cc]@ == if dwire.contains(cid) { dets0[cc]@.push(b.id) } else { dets0[cc]@ });
                assert(gm[keys@[i as int]].id == b.id);
                if exists|j: int| 0 <= j < i + 1 && #[trigger] gm[keys@[j]].id == d && detector_wired(gm, lm, keys@[j], cid) {
                    let j = choose|j: int| 0 <= j < i + 1 && #[trigger] gm[keys@[j]].id == d && detector_wired(gm, lm, keys@[j], cid);
                    if j < i {
                        assert(dets0[cc]@.contains(d));
                        if dwire.contains(cid) {
                            let a = choose|a: int| 0 <= a < dets0[cc]@.len() && dets0[cc]@[a] == d;
                            assert(dets@[cc]@[a] == d);
                        }
                    } else {
                        assert(dets@[cc]@[dets@[cc]@.len() - 1] == d);
                    }
                    assert(dets@[cc]@.contains(d));
                }
                if dets@[cc]@.contains(d) {
                    if dets0[cc]@.contains(d) {
                        let j = choose|j: int| 0 <= j < i && #[trigger] gm[keys@[j]].id == d && detector_wired(gm, lm, keys@[j], cid);
                        assert(0 <= j < i + 1 && gm[keys@[j]].id == d && detector_wired(gm, lm, keys@[j], cid));
                    } else {
                        let a = choose|a: int| 0 <= a < dets@[cc]@.len() && dets@[cc]@[a] == d;
                        if a < dets0[cc]@.len() {
                            assert(dets0[cc]@[a] == d);
                        }
                        assert(d == b.id);
                        assert(detector_wired(gm, lm, keys@[i as int], cid));
                        assert(gm[keys@[i as int]].id == d);
                    }
                    assert(exists|j: int| 0 <= j < i + 1 && #[trigger] gm[keys@[j]].id == d && detector_wired(gm, lm, keys@[j], cid));
                }
            }
            assert forall|cc: int| 0 <= cc < n implies (#[trigger] dets@[cc])@.no_duplicates() by {
                if dets@[cc]@ != dets0[cc]@ {
                    assert(!dets0[cc]@.contains(b.id)) by {
                        if dets0[cc]@.contains(b.id) {
                            let j = choose|j: int| 0 <= j < i && #[trigger] gm[keys@[j]].id == b.id && detector_wired(gm, lm, keys@[j], SignalComponentId(cc as usize));
                        }
                    }
                }
            }
            assert forall|k: u64| #[trigger] devs@.contains_key(k) <==> exists|j: int|
                0 <= j < i + 1 && #[trigger] gm[keys@[j]].id.0 == k && device_wiring(gm, lm, keys@[j]).len() > 0 by {
                if exists|j: int| 0 <= j < i + 1 && #[trigger] gm[keys@[j]].id.0 == k && device_wiring(gm, lm, keys@[j]).len() > 0 {
                    let j = choose|j: int| 0 <= j < i + 1 && #[trigger] gm[keys@[j]].id.0 == k && device_wiring(gm, lm, keys@[j]).len() > 0;
                    if j < i {
                        assert(devs0.contains_key(k));
                    }
                }
                if devs@.contains_key(k) && !devs0.contains_key(k) {
                    assert(gm[keys@[i as int]].id.0 == k);
                }
            }
            assert forall|j: int| 0 <= j < i + 1 && device_wiring(gm, lm, #[trigger] keys@[j]).len() > 0 implies devs@[gm[keys@[j]].id.0]@
                == device_wiring(gm, lm, keys@[j]) by {
                if j < i {
                    assert(gm[keys@[j]].id.0 != b.id.0);
                }
            }
        }
        i = i + 1;
    }
    proof {
        let dv = dets@.map_values(|v: Vec<BlockId>| v@);
        assert forall|cc: int, d: BlockId|
            0 <= cc < n implies (#[trigger] dv[cc].contains(d) <==> exists|p: Cell|
                gm.contains_key(p) && #[trigger] gm[p].id == d && detector_wired(gm, lm, p, SignalComponentId(cc as usize))) by {
            assert(dv[cc] == dets@[cc]@);
            let cid = SignalComponentId(cc as usize);
            if exists|p: Cell| gm.contains_key(p) && #[trigger] gm[p].id == d && detector_wired(gm, lm, p, cid) {
                let p = choose|p: Cell| gm.contains_key(p) && #[trigger] gm[p].id == d && detector_wired(gm, lm, p, cid);
                assert(keys@.to_set().contains(p));
                let j = choose|j: int| 0 <= j < keys@.len() && keys@[j] == p;
                assert(gm[keys@[j]].id == d);
            }
            if dv[cc].contains(d) {
                let j = choose|j: int| 0 <= j < keys@.len() && #[trigger] gm[keys@[j]].id == d && detector_wired(gm, lm, keys@[j], cid);
                assert(keys@.to_set().contains(keys@[j]));
            }
        }
        assert forall|cc: int| 0 <= cc < n implies (#[trigger] dv[cc]).no_duplicates() by {
            assert(dv[cc] == dets@[cc]@);
        }
        assert forall|k: u64| #[trigger] devs@.contains_key(k) <==> exists|p: Cell|
            gm.contains_key(p) && #[trigger] gm[p].id.0 == k && device_wiring(gm, lm, p).len() > 0 by {
            if exists|p: Cell| gm.contains_key(p) && #[trigger] gm[p].id.0 == k && device_wiring(gm, lm, p).len() > 0 {
                let p = choose|p: Cell| gm.contains_key(p) && #[trigger] gm[p].id.0 == k && device_wiring(gm, lm, p).len() > 0;
                assert(keys@.to_set().contains(p));
                let j = choose|j: int| 0 <= j < keys@.len() && keys@[j] == p;
                assert(gm[keys@[j]].id.0 == k);
            }
            if devs@.contains_key(k) {
                let j = choose|j: int| 0 <= j < keys@.len() && #[trigger] gm[keys@[j]].id.0 == k && device_wiring(gm, lm, keys@[j]).len() > 0;
                assert(keys@.to_set().contains(keys@[j]));
            }
        }
        assert forall|p: Cell| #[trigger] gm.contains_key(p) && device_wiring(gm, lm, p).len() > 0 implies devs@[gm[p].id.0]@
            == device_wiring(gm, lm, p) by {
            assert(keys@.to_set().contains(p));
            let j = choose|j: int| 0 <= j < keys@.len() && keys@[j] == p;
            assert(device_wiring(gm, lm, keys@[j]).len() > 0);
        }
    }
    (dets, devs)
}

proof fn lemma_adjacent_facts(
    g: Map<Cell, SignalBlock>,
    labels: Map<u64, SignalComponentId>,
    pos: Cell,
    faces: WireFaces,
    k: int,
    n: nat,
)
    requires
        forall|key: u64| #[trigger] labels.contains_key(key) ==> labels[key].0 < n,
    ensures
        adjacent_prefix(g, labels, pos, faces, k).no_duplicates(),
        forall|a: int| 0 <= a < adjacent_prefix(g, labels, pos, faces, k).len() ==> (
        #[trigger] adjacent_prefix(g, labels, pos, faces, k)[a]).0 < n,
    decreases k,
{
    if k > 0 {
        lemma_adjacent_facts(g, labels, pos, faces, k - 1, n);
        let prev = adjacent_prefix(g, labels, pos, faces, k - 1);
        let cur = adjacent_prefix(g, labels, pos, faces, k);
        if cur != prev {
            let o = signal_offsets_spec()[k - 1];
            let nb = pos.plus(o);
            let x = labels[g[nb].id.0];
            assert(cur == prev.push(x));
            assert forall|a: int, b: int| 0 <= a < cur.len() && 0 <= b < cur.len() && a != b implies cur[a] != cur[b] by {
                if a < prev.len() && b < prev.len() {
                    assert(cur[a] == prev[a] && cur[b] == prev[b]);
                } else if a < prev.len() {
                    assert(prev.contains(prev[a]));
                } else if b < prev.len() {
                    assert(prev.contains(prev[b]));
                }
            }
            assert forall|a: int| 0 <= a < cur.len() implies (#[trigger] cur[a]).0 < n by {
                if a < prev.len() {
                    assert(cur[a] == prev[a]);
                }
            }
        }
    }
}

/// Signal network cache: wire components and what is wired to them, by block
/// identity, rebuilt when the wiring topology changes.
pub struct SignalNetworkCache {
    topology_revision: u64,
    wire_components: HashMap<u64, SignalComponentId>,
    component_detectors: Vec<Vec<BlockId>>,
    device_components: HashMap<u64, Vec<SignalComponentId>>,
    initialized: bool,
}

impl SignalNetworkCache {
    /// Component of each wire, by wire identity.
    pub closed spec fn labels(&self) -> Map<u64, SignalComponentId> {
        self.wire_components@
    }

    /// Detector identities wired to each component.
    pub closed spec fn detectors(&self) -> Seq<Seq<BlockId>> {
        self.component_detectors@.map_values(|v: Vec<BlockId>| v@)
    }

    /// Components each device is wired to, by device identity.
    pub closed spec fn devices(&self) -> Map<u64, Vec<SignalComponentId>> {
        self.device_components@
    }

    /// Topology revision the cache was built for.
    pub closed spec fn revision(&self) -> u64 {
        self.topology_revision
    }

    pub closed spec fn initialized(&self) -> bool {
        self.initialized
    }

    /// Number of wire components.
    pub open spec fn component_count(&self) -> nat {
        self.detectors().len()
    }

    /// The cache describes the grid: components numbered `0..component_count()`, the
    /// detector lists and the device wiring as the grid gives them.
    pub open spec fn describes(&self, g: Map<Cell, SignalBlock>, panels: Seq<MaterialFace>) -> bool {
        &&& labels_ok(self.labels(), self.component_count(), g, panels)
        &&& wiring_ok(self.detectors(), self.devices(), self.labels(), self.component_count(), g)
    }

    pub fn new() -> (c: SignalNetworkCache)
        ensures
            !c.initialized(),
            c.revision() == 0,
            c.labels() == Map::<u64, SignalComponentId>::empty(),
            c.detectors() == Seq::<Seq<BlockId>>::empty(),
            c.devices() == Map::<u64, Vec<SignalComponentId>>::empty(),
    {
        let c = SignalNetworkCache {
            topology_revision: 0,
            wire_components: HashMap::new(),
            component_detectors: Vec::new(),
            device_components: HashMap::new(),
            initialized: false,
        };
        assert(c.detectors() =~= Seq::<Seq<BlockId>>::empty());
        c
    }

    /// Rebuilds the wire components and the wiring of detectors and devices, unless
    /// the cache was already built for this topology revision.
    pub fn refresh(&mut self, g: &CellMap<SignalBlock>, panels: &[MaterialFace], topology_revision: u64)
        requires
            g.wf(),
            grid_ok(g@),
        ensures
            old(self).initialized() && old(self).revision() == topology_revision ==> *final(self) == *old(self),
            !(old(self).initialized() && old(self).revision() == topology_revision) ==> {
                &&& final(self).describes(g@, panels@)
                &&& final(self).initialized()
                &&& final(self).revision() == topology_revision
            },
    {
        if self.initialized && self.topology_revision == topology_revision {
            return;
        }
        let (labels, n) = label_wires(g, panels);
        proof {
            assert forall|k: u64| #[trigger] labels@.contains_key(k) implies labels@[k].0 < n by {
                let p = choose|p: Cell| is_wire(g@, p) && #[trigger] g@[p].id.0 == k;
            }
        }
        let (dets, devs) = cache_wiring(g, &labels, n);
        self.topology_revision = topology_revision;
        self.wire_components = labels;
        self.component_detectors = dets;
        self.device_components = devs;
        self.initialized = true;
    }
}

/// Component of the first wire among the neighbours of `pos` from offset `k` on.
pub open spec fn neighbor_component(
    g: Map<Cell, SignalBlock>,
    labels: Map<u64, SignalComponentId>,
    pos: Cell,
    k: int,
) -> Option<SignalComponentId>
    decreases 6 - k,
{
    if k < 0 || k >= 6 {
        None
    } else {
        let n = pos.plus(signal_offsets_spec()[k]);
        if g.contains_key(n) && labels.contains_key(g[n].id.0) {
            Some(labels[g[n].id.0])
        } else {
            neighbor_component(g, labels, pos, k + 1)
        }
    }
}

/// The component a cell touches: its own when it is a wire, the first one a device
/// there is wired to, or else that of the first neighbouring wire.
pub open spec fn touching_spec(
    g: Map<Cell, SignalBlock>,
    labels: Map<u64, SignalComponentId>,
    devs: Map<u64, Vec<SignalComponentId>>,
    pos: Cell,
) -> Option<SignalComponentId> {
    if g.contains_key(pos) && labels.contains_key(g[pos].id.0) {
        Some(labels[g[pos].id.0])
    } else if g.contains_key(pos) && devs.contains_key(g[pos].id.0) {
        if devs[g[pos].id.0]@.len() > 0 {
            Some(devs[g[pos].id.0]@[0])
        } else {
            None
        }
    } else {
        neighbor_component(g, labels, pos, 0)
    }
}

/// The detector at `p` fires: a laser hits it, or the cell it watches holds
/// something it detects.
pub open spec fn detector_activated(
    g: Map<Cell, SignalBlock>,
    p: Cell,
    laser_hits: Set<Cell>,
    detectable: Set<Cell>,
) -> bool {
    ||| laser_hits.contains(p)
    ||| (g.contains_key(p) && match g[p].role {
        SignalRole::Detector { detection } => detectable.contains(p.plus(detection)),
        _ => false,
    })
}

/// Some detector of the list is placed in the grid and fires.
pub open spec fn some_detector_fires(
    g: Map<Cell, SignalBlock>,
    ds: Seq<BlockId>,
    laser_hits: Set<Cell>,
    detectable: Set<Cell>,
) -> bool {
    exists|a: int, p: Cell|
        0 <= a < ds.len() && g.contains_key(p) && #[trigger] g[p].id == #[trigger] ds[a] && detector_activated(
            g,
            p,
            laser_hits,
            detectable,
        )
}

/// The cell a detector watches can be addressed.
pub open spec fn detections_in_range(g: Map<Cell, SignalBlock>) -> bool {
    forall|p: Cell| #[trigger] g.contains_key(p) ==> match g[p].role {
        SignalRole::Detector { detection } => p.add_fits(detection),
        _ => true,
    }
}

fn comp_in(v: &[SignalComponentId], c: SignalComponentId) -> (r: bool)
    ensures
        r == v@.contains(c),
{
    let mut i: usize = 0;
    while i < v.len()
        invariant
            i <= v@.len(),
            forall|j: int| 0 <= j < i ==> v@[j] != c,
        decreases v@.len() - i,
    {
        if v[i] == c {
            return true;
        }
        i = i + 1;
    }
    false
}

impl SignalNetworkCache {
    /// Cells of the wires on a powered component.
    pub fn powered_wires(&self, g: &CellMap<SignalBlock>, powered: &[SignalComponentId]) -> (r: CellSet)
        requires
            g.wf(),
        ensures
            r.wf(),
            forall|c: Cell| #[trigger] r@.contains(c) <==> (g@.contains_key(c) && self.labels().contains_key(g@[c].id.0)
                && powered@.contains(self.labels()[g@[c].id.0])),
    {
        let keys = g.keys();
        let mut out = CellSet::new();
        let mut i: usize = 0;
        while i < keys.len()
            invariant
                g.wf(),
                keys@.to_set() == g@.dom(),
                i <= keys@.len(),
                out.wf(),
                forall|c: Cell| #[trigger] out@.contains(c) <==> (keys@.take(i as int).contains(c) && self.labels().contains_key(
                    g@[c].id.0,
                ) && powered@.contains(self.labels()[g@[c].id.0])),
            decreases keys@.len() - i,
        {
            let p = keys[i];
            proof {
                assert(keys@.to_set().contains(p));
                lemma_take_push(keys@, i as int);
            }
            let b = g.get(p).unwrap();
            match self.wire_components.get(&b.id.0) {
                Some(c) => {
                    if comp_in(powered, *c) {
                        out.insert(p);
                    }
                },
                None => {},
            }
            i = i + 1;
        }
        proof {
            assert(keys@.take(i as int) =~= keys@);
        }
        out
    }

    /// Cells of the devices wired to a powered component.
    pub fn powered_devices(&self, g: &CellMap<SignalBlock>, powered: &[SignalComponentId]) -> (r: CellSet)
        requires
            g.wf(),
        ensures
            r.wf(),
            forall|c: Cell| #[trigger] r@.contains(c) <==> (g@.contains_key(c) && self.devices().contains_key(g@[c].id.0)
                && exists|a: int| 0 <= a < self.devices()[g@[c].id.0]@.len() && powered@.contains(
                #[trigger] self.devices()[g@[c].id.0]@[a],
            )),
    {
        let keys = g.keys();
        let mut out = CellSet::new();
        let mut i: usize = 0;
        while i < keys.len()
            invariant
                g.wf(),
                keys@.to_set() == g@.dom(),
                i <= keys@.len(),
                out.wf(),
                forall|c: Cell| #[trigger] out@.contains(c) <==> (keys@.take(i as int).contains(c) && self.devices().contains_key(
                    g@[c].id.0,
                ) && exists|a: int| 0 <= a < self.devices()[g@[c].id.0]@.len() && powered@.contains(
                    #[trigger] self.devices()[g@[c].id.0]@[a],
                )),
            decreases keys@.len() - i,
        {
            let p = keys[i];
            proof {
                assert(keys@.to_set().contains(p));
                lemma_take_push(keys@, i as int);
            }
            let b = g.get(p).unwrap();
            match self.device_components.get(&b.id.0) {
                Some(comps) => {
                    let mut any = false;
                    let mut t: usize = 0;
                    while t < comps.len()
                        invariant
                            t <= comps@.len(),
                            any <==> exists|a: int| 0 <= a < t && powered@.contains(#[trigger] comps@[a]),
                        decreases comps@.len() - t,
                    {
                        if comp_in(powered, comps[t]) {
                            any = true;
                        }
                        t = t + 1;
                    }
                    if any {
                        out.insert(p);
                    }
                },
                None => {},
            }
            i = i + 1;
        }
        proof {
            assert(keys@.take(i as int) =~= keys@);
        }
        out
    }

    /// The component `pos` touches (see [`touching_spec`]).
    pub fn component_touching(&self, g: &CellMap<SignalBlock>, pos: Cell) -> (r: Option<SignalComponentId>)
        requires
            g.wf(),
            interior(pos),
        ensures
            r == touching_spec(g@, self.labels(), self.devices(), pos),
    {
        match g.get(pos) {
            Some(b) => {
                match self.wire_components.get(&b.id.0) {
                    Some(c) => return Some(*c),
                    None => {},
                }
                match self.device_components.get(&b.id.0) {
                    Some(comps) => {
                        if comps.len() > 0 {
                            return Some(comps[0]);
                        } else {
                            return None;
                        }
                    },
                    None => {},
                }
            },
            None => {},
        }
        let offsets = signal_offsets();
        let mut k: usize = 0;
        while k < 6
            invariant
                g.wf(),
                interior(pos),
                offsets@ == signal_offsets_spec(),
                k <= 6,
                neighbor_component(g@, self.labels(), pos, 0) == neighbor_component(g@, self.labels(), pos, k as int),
                touching_spec(g@, self.labels(), self.devices(), pos) == neighbor_component(g@, self.labels(), pos, 0),
            decreases 6 - k,
        {
            let n = pos.add(offsets[k]);
            assert(n == pos.plus(signal_offsets_spec()[k as int]));
            match g.get(n) {
                Some(b) => {
                    match self.wire_components.get(&b.id.0) {
                        Some(c) => {
                            assert(neighbor_component(g@, self.labels(), pos, k as int) == Some(*c));
                            return Some(*c);
                        },
                        None => {},
                    }
                },
                None => {},
            }
            k = k + 1;
        }
        None
    }
}

proof fn lemma_take_push<A>(s: Seq<A>, i: int)
    requires
        0 <= i < s.len(),
    ensures
        forall|x: A| s.take(i + 1).contains(x) <==> (s.take(i).contains(x) || x == s[i]),
{
    assert forall|x: A| s.take(i + 1).contains(x) <==> (s.take(i).contains(x) || x == s[i]) by {
        if s.take(i + 1).contains(x) {
            let t = choose|t: int| 0 <= t < i + 1 && #[trigger] s.take(i + 1)[t] == x;
            if t < i {
                assert(s.take(i)[t] == x);
            }
        }
        if s.take(i).contains(x) {
            let t = choose|t: int| 0 <= t < i && #[trigger] s.take(i)[t] == x;
            assert(s.take(i + 1)[t] == x);
        }
        if x == s[i] {
            assert(s.take(i + 1)[i] == x);
        }
    }
}

fn detector_fires(g: &CellMap<SignalBlock>, p: Cell, laser_hits: &CellSet, detectable: &CellSet) -> (r: bool)
    requires
        g.wf(),
        detections_in_range(g@),
        laser_hits.wf(),
        detectable.wf(),
    ensures
        r == detector_activated(g@, p, laser_hits@, detectable@),
{
    if laser_hits.contains(p) {
        return true;
    }
    match g.get(p) {
        Some(b) => match b.role {
            SignalRole::Detector { detection } => detectable.contains(p.add(detection)),
            _ => false,
        },
        None => false,
    }
}

/// Cell of each block identity.
fn positions_by_id(g: &CellMap<SignalBlock>) -> (r: HashMap<u64, Cell>)
    requires
        g.wf(),
        grid_ok(g@),
    ensures
        forall|k: u64| #[trigger] r@.contains_key(k) <==> exists|p: Cell| g@.contains_key(p) && #[trigger] g@[p].id.0 == k,
        forall|k: u64| #[trigger] r@.contains_key(k) ==> g@.contains_key(r@[k]) && g@[r@[k]].id.0 == k,
{
    let keys = g.keys();
    let mut m: HashMap<u64, Cell> = HashMap::new();
    let mut i: usize = 0;
    while i < keys.len()
        invariant
            g.wf(),
            keys@.to_set() == g@.dom(),
            i <= keys@.len(),
            forall|k: u64| #[trigger] m@.contains_key(k) <==> exists|j: int| 0 <= j < i && #[trigger] g@[keys@[j]].id.0 == k,
            forall|k: u64| #[trigger] m@.contains_key(k) ==> g@.contains_key(m@[k]) && g@[m@[k]].id.0 == k,
        decreases keys@.len() - i,
    {
        let p = keys[i];
        proof {
            assert(keys@.to_set().contains(p));
        }
        let b = g.get(p).unwrap();
        m.insert(b.id.0, p);
        proof {
            assert forall|k: u64| #[trigger] m@.contains_key(k) <==> exists|j: int| 0 <= j < i + 1 && #[trigger] g@[keys@[j]].id.0 == k by {
                if k == b.id.0 {
                    assert(g@[keys@[i as int]].id.0 == k);
                }
            }
        }
        i = i + 1;
    }
    proof {
        assert forall|k: u64| #[trigger] m@.contains_key(k) <==> exists|p: Cell| g@.contains_key(p) && #[trigger] g@[p].id.0 == k by {
            if exists|p: Cell| g@.contains_key(p) && #[trigger] g@[p].id.0 == k {
                let p = choose|p: Cell| g@.contains_key(p) && #[trigger] g@[p].id.0 == k;
                assert(keys@.to_set().contains(p));
                let j = choose|j: int| 0 <= j < keys@.len() && keys@[j] == p;
                assert(g@[keys@[j]].id.0 == k);
            }
            if m@.contains_key(k) {
                let j = choose|j: int| 0 <= j < keys@.len() && #[trigger] g@[keys@[j]].id.0 == k;
                assert(keys@.to_set().contains(keys@[j]));
            }
        }
    }
    m
}

impl SignalNetworkCache {
    /// Components with a firing detector, in increasing order.
    pub fn powered_components(
        &self,
        g: &CellMap<SignalBlock>,
        laser_hits: &CellSet,
        detectable: &CellSet,
    ) -> (r: Vec<SignalComponentId>)
        requires
            g.wf(),
            grid_ok(g@),
            detections_in_range(g@),
            laser_hits.wf(),
            detectable.wf(),
        ensures
            forall|a: int, b: int| 0 <= a < b < r@.len() ==> r@[a].0 < r@[b].0,
            forall|c: SignalComponentId| #[trigger] r@.contains(c) <==> (c.0 < self.component_count() && some_detector_fires(
                g@,
                self.detectors()[c.0 as int],
                laser_hits@,
                detectable@,
            )),
    {
        let id_to_pos = positions_by_id(g);
        let mut out: Vec<SignalComponentId> = Vec::new();
        let n = self.component_detectors.len();
        let mut c: usize = 0;
        while c < n
            invariant
                g.wf(),
                grid_ok(g@),
                detections_in_range(g@),
                laser_hits.wf(),
                detectable.wf(),
                n == self.component_detectors@.len(),
                c <= n,
                forall|k: u64| #[trigger] id_to_pos@.contains_key(k) <==> exists|p: Cell| g@.contains_key(p) && #[trigger] g@[p].id.0 == k,
                forall|k: u64| #[trigger] id_to_pos@.contains_key(k) ==> g@.contains_key(id_to_pos@[k]) && g@[id_to_pos@[k]].id.0 == k,
                forall|a: int, b: int| 0 <= a < b < out@.len() ==> out@[a].0 < out@[b].0,
                forall|a: int| 0 <= a < out@.len() ==> (#[trigger] out@[a]).0 < c,
                forall|x: SignalComponentId| #[trigger] out@.contains(x) <==> (x.0 < c && some_detector_fires(
                    g@,
                    self.detectors()[x.0 as int],
                    laser_hits@,
                    detectable@,
                )),
            decreases n - c,
        {
            let ds = &self.component_detectors[c];
            assert(ds@ == self.detectors()[c as int]);
            let mut any = false;
            let mut t: usize = 0;
            while t < ds.len()
                invariant
                    g.wf(),
                    grid_ok(g@),
                    detections_in_range(g@),
                    laser_hits.wf(),
                    detectable.wf(),
                    t <= ds@.len(),
                    forall|k: u64| #[trigger] id_to_pos@.contains_key(k) <==> exists|p: Cell| g@.contains_key(p) && #[trigger] g@[p].id.0 == k,
                    forall|k: u64| #[trigger] id_to_pos@.contains_key(k) ==> g@.contains_key(id_to_pos@[k]) && g@[id_to_pos@[k]].id.0 == k,
                    any <==> some_detector_fires(g@, ds@.take(t as int), laser_hits@, detectable@),
                decreases ds@.len() - t,
            {
                let d = ds[t];
                let ghost before = ds@.take(t as int);
                let fires = match id_to_pos.get(&d.0) {
                    Some(p) => detector_fires(g, *p, laser_hits, detectable),
                    None => false,
                };
                proof {
                    let now = ds@.take(t + 1);
                    assert(now =~= before.push(d));
                    if fires {
                        let p = id_to_pos@[d.0];
                        assert(g@[p].id == now[t as int]);
                    }
                    if some_detector_fires(g@, now, laser_hits@, detectable@) {
                        let (a, p) = choose|a: int, p: Cell|
                            0 <= a < now.len() && g@.contains_key(p) && #[trigger] g@[p].id == #[trigger] now[a] && detector_activated(
                                g@,
                                p,
                                laser_hits@,
                                detectable@,
                            );
                        if a < t {
                            assert(g@[p].id == before[a]);
                        } else {
                            assert(id_to_pos@.contains_key(d.0));
                            let q = id_to_pos@[d.0];
                            if p != q {
                                assert(g@[p].id != g@[q].id);
                            }
                        }
                    }
                    if some_detector_fires(g@, before, laser_hits@, detectable@) {
                        let (a, p) = choose|a: int, p: Cell|
                            0 <= a < before.len() && g@.contains_key(p) && #[trigger] g@[p].id == #[trigger] before[a] && detector_activated(
                                g@,
                                p,
                                laser_hits@,
                                detectable@,
                            );
                        assert(g@[p].id == now[a]);
                    }
                }
                if fires {
                    any = true;
                }
                t = t + 1;
            }
            proof {
                assert(ds@.take(t as int) =~= ds@);
            }
            let ghost out0 = out@;
            if any {
                out.push(SignalComponentId(c));
            }
            proof {
                assert forall|x: SignalComponentId| #[trigger] out@.contains(x) <==> (x.0 < c + 1 && some_detector_fires(
                    g@,
                    self.detectors()[x.0 as int],
                    laser_hits@,
                    detectable@,
                )) by {
                    if out@.contains(x) && !out0.contains(x) {
                        assert(x == SignalComponentId(c));
                    }
                    if out0.contains(x) {
                        let a = choose|a: int| 0 <= a < out0.len() && out0[a] == x;
                        assert(out@[a] == x);
                    }
                    if x.0 == c && any {
                        assert(out@[out0.len() as int] == x);
                    }
                    if x.0 == c && out@.contains(x) {
                        let a = choose|a: int| 0 <= a < out@.len() && out@[a] == x;
                        if a < out0.len() {
                            assert(out0[a].0 < c);
                        }
                    }
                }
            }
            c = c + 1;
        }
        out
    }
}

/// Cells ordered by x, then y, then z.
pub open spec fn cell_lt(a: Cell, b: Cell) -> bool {
    ||| a.x < b.x
    ||| (a.x == b.x && a.y < b.y)
    ||| (a.x == b.x && a.y == b.y && a.z < b.z)
}

/// Cells in strictly increasing (x, y, z) order.
pub open spec fn cells_sorted(s: Seq<Cell>) -> bool {
    forall|a: int, b: int| 0 <= a < b < s.len() ==> cell_lt(s[a], s[b])
}

/// Inserts a new cell at its place in a sorted list.
pub(crate) fn insert_sorted_cell(v: &mut Vec<Cell>, c: Cell)
    requires
        cells_sorted(old(v)@),
        !old(v)@.contains(c),
    ensures
        cells_sorted(final(v)@),
        final(v)@.to_set() == old(v)@.to_set().insert(c),
{
    let mut j: usize = v.len();
    while j > 0 && (v[j - 1].x > c.x || (v[j - 1].x == c.x && v[j - 1].y > c.y) || (v[j - 1].x == c.x
        && v[j - 1].y == c.y && v[j - 1].z > c.z))
        invariant
            j <= v@.len(),
            v@ == old(v)@,
            forall|a: int| j <= a < v@.len() ==> cell_lt(c, v@[a]),
        decreases j,
    {
        j = j - 1;
    }
    let ghost s0 = v@;
    proof {
        s0.insert_ensures(j as int, c);
        if j > 0 {
            assert(s0[j - 1] != c);
            assert(cell_lt(s0[j - 1], c));
        }
        assert forall|a: int| 0 <= a < j implies cell_lt(s0[a], c) by {
            if a < j - 1 {
                assert(cell_lt(s0[a], s0[j - 1]));
            }
        }
    }
    v.insert(j, c);
    proof {
        let s1 = v@;
        assert forall|a: int, b: int| 0 <= a < b < s1.len() implies cell_lt(s1[a], s1[b]) by {
            if a < j {
                if b < j {
                } else if b == j {
                } else {
                    assert(s1[b] == s0[b - 1]);
                }
            } else if a == j {
                assert(s1[b] == s0[b - 1]);
            } else {
                assert(s1[a] == s0[a - 1]);
                assert(s1[b] == s0[b - 1]);
            }
        }
        assert forall|x: Cell| s1.to_set().contains(x) <==> s0.to_set().insert(c).contains(x) by {
            if s1.contains(x) {
                let a = choose|a: int| 0 <= a < s1.len() && s1[a] == x;
                if a < j {
                    assert(s0[a] == x);
                } else if a > j {
                    assert(s0[a - 1] == x);
                }
            }
            if s0.contains(x) {
                let a = choose|a: int| 0 <= a < s0.len() && s0[a] == x;
                if a < j {
                    assert(s1[a] == x);
                } else {
                    assert(s1[a + 1] == x);
                }
            }
            if x == c {
                assert(s1[j as int] == x);
            }
        }
        assert(s1.to_set() =~= s0.to_set().insert(c));
    }
}

/// What reaches a cell of the signal network.
#[derive(Clone, Debug)]
pub struct PowerQuery {
    pub component: SignalComponentId,
    /// Wires of the component, by (x, y, z).
    pub wires: Vec<Cell>,
    /// Devices wired to the component, by (x, y, z).
    pub devices: Vec<Cell>,
    /// A detector of the component fires (lasers left aside).
    pub powered: bool,
}

impl SignalNetworkCache {
    /// Refreshes the cache and reports the network that `pos` touches: its wires,
    /// the devices on it and whether it is powered.
    pub fn query_power_at(
        &mut self,
        g: &CellMap<SignalBlock>,
        panels: &[MaterialFace],
        topology_revision: u64,
        detectable: &CellSet,
        pos: Cell,
    ) -> (r: Option<PowerQuery>)
        requires
            g.wf(),
            grid_ok(g@),
            detections_in_range(g@),
            detectable.wf(),
            interior(pos),
        ensures
            old(self).initialized() && old(self).revision() == topology_revision ==> *final(self) == *old(self),
            !(old(self).initialized() && old(self).revision() == topology_revision) ==> {
                &&& final(self).describes(g@, panels@)
                &&& final(self).initialized()
                &&& final(self).revision() == topology_revision
            },
            r is None <==> touching_spec(g@, final(self).labels(), final(self).devices(), pos) is None,
            r matches Some(q) ==> {
                &&& Some(q.component) == touching_spec(g@, final(self).labels(), final(self).devices(), pos)
                &&& cells_sorted(q.wires@)
                &&& forall|c: Cell| #[trigger] q.wires@.contains(c) <==> (g@.contains_key(c) && final(self).labels().contains_key(
                    g@[c].id.0,
                ) && final(self).labels()[g@[c].id.0] == q.component)
                &&& cells_sorted(q.devices@)
                &&& forall|c: Cell| #[trigger] q.devices@.contains(c) <==> (g@.contains_key(c) && final(self).devices().contains_key(
                    g@[c].id.0,
                ) && final(self).devices()[g@[c].id.0]@.contains(q.component))
                &&& q.powered == (q.component.0 < final(self).component_count() && some_detector_fires(
                    g@,
                    final(self).detectors()[q.component.0 as int],
                    Set::empty(),
                    detectable@,
                ))
            },
    {
        self.refresh(g, panels, topology_revision);
        let component = match self.component_touching(g, pos) {
            Some(c) => c,
            None => return None,
        };
        let keys = g.keys();
        let mut wires: Vec<Cell> = Vec::new();
        let mut devices: Vec<Cell> = Vec::new();
        let mut i: usize = 0;
        while i < keys.len()
            invariant
                g.wf(),
                keys@.to_set() == g@.dom(),
                keys@.no_duplicates(),
                i <= keys@.len(),
                cells_sorted(wires@),
                cells_sorted(devices@),
                forall|c: Cell| #[trigger] wires@.contains(c) <==> (keys@.take(i as int).contains(c) && self.labels().contains_key(
                    g@[c].id.0,
                ) && self.labels()[g@[c].id.0] == component),
                forall|c: Cell| #[trigger] devices@.contains(c) <==> (keys@.take(i as int).contains(c) && self.devices().contains_key(
                    g@[c].id.0,
                ) && self.devices()[g@[c].id.0]@.contains(component)),
            decreases keys@.len() - i,
        {
            let p = keys[i];
            proof {
                assert(keys@.to_set().contains(p));
                lemma_take_push(keys@, i as int);
                assert(!keys@.take(i as int).contains(p)) by {
                    if keys@.take(i as int).contains(p) {
                        let t = choose|t: int| 0 <= t < i && #[trigger] keys@.take(i as int)[t] == p;
                        assert(keys@[t] == keys@[i as int]);
                    }
                }
            }
            let b = g.get(p).unwrap();
            let is_wire_here = match self.wire_components.get(&b.id.0) {
                Some(c) => *c == component,
                None => false,
            };
            let is_device_here = match self.device_components.get(&b.id.0) {
                Some(cs) => comp_in(cs.as_slice(), component),
                None => false,
            };
            let ghost w0 = wires@;
            let ghost d0 = devices@;
            if is_wire_here {
                insert_sorted_cell(&mut wires, p);
            }
            if is_device_here {
                insert_sorted_cell(&mut devices, p);
            }
            proof {
                assert forall|x: Cell| #[trigger] wires@.contains(x) <==> (keys@.take(i + 1).contains(x) && self.labels().contains_key(
                    g@[x].id.0,
                ) && self.labels()[g@[x].id.0] == component) by {
                    if is_wire_here {
                        assert(wires@.to_set().contains(x) == wires@.contains(x));
                        assert(w0.to_set().contains(x) == w0.contains(x));
                    }
                }
                assert forall|x: Cell| #[trigger] devices@.contains(x) <==> (keys@.take(i + 1).contains(x) && self.devices().contains_key(
                    g@[x].id.0,
                ) && self.devices()[g@[x].id.0]@.contains(component)) by {
                    if is_device_here {
                        assert(devices@.to_set().contains(x) == devices@.contains(x));
                        assert(d0.to_set().contains(x) == d0.contains(x));
                    }
                }
            }
            i = i + 1;
        }
        proof {
            assert(keys@.take(i as int) =~= keys@);
        }
        let no_hits = CellSet::new();
        let powered_list = self.powered_components(g, &no_hits, detectable);
        let powered = comp_in(powered_list.as_slice(), component);
        Some(PowerQuery { component, wires, devices, powered })
    }
}

} // verus!
