//! Factory connectivity: which cells a factory structure spans.  Factory blocks
//! connect face to face unless a block seals the face; an extended pusher head joins
//! what touches it without belonging to any structure; the edge between a pusher and
//! its front can be cut for the deformation of that pusher.
use vstd::prelude::*;

use crate::cell::{signal_offsets, signal_offsets_spec, Cell};
use crate::cellmap::{CellMap, CellSet};

verus! {

/// How a block takes part in factory connectivity.
#[derive(Clone, Copy, Debug, PartialEq, Eq, Structural)]
pub struct FactoryLink {
    /// An extended pusher head.
    pub head: bool,
    /// The face (as an offset) through which the block does not connect, if any.
    pub sealed: Option<Cell>,
}

pub open spec fn is_head(v: Map<Cell, FactoryLink>, c: Cell) -> bool {
    v.contains_key(c) && v[c].head
}

/// The block at `from` seals its face toward `offset`.
pub open spec fn sealed_toward(v: Map<Cell, FactoryLink>, from: Cell, offset: Cell) -> bool {
    v.contains_key(from) && v[from].sealed == Some(offset)
}

/// The cut edge, between a pusher and its front, joins `a` and `b`.
pub open spec fn cut_blocks(cut: Option<(Cell, Cell)>, a: Cell, b: Cell) -> bool {
    match cut {
        Some((p, f)) => (a == p && b == f) || (a == f && b == p),
        None => false,
    }
}

/// Neither block seals the face between `a` and `b = a + o`.
pub open spec fn face_open(v: Map<Cell, FactoryLink>, a: Cell, b: Cell, o: Cell) -> bool {
    !sealed_toward(v, a, o) && !sealed_toward(v, b, o.negated())
}

/// `b` joins `a` directly through offset `o`.
pub open spec fn direct_via(v: Map<Cell, FactoryLink>, allowed: Set<Cell>, cut: Option<(Cell, Cell)>, a: Cell, b: Cell, o: Cell) -> bool {
    &&& b == a.plus(o)
    &&& !is_head(v, b)
    &&& allowed.contains(b)
    &&& !cut_blocks(cut, a, b)
    &&& face_open(v, a, b, o)
}

/// `b` joins `a` through the pusher head `h = a + o1`, with `b = h + o2`.
pub open spec fn head_via(
    v: Map<Cell, FactoryLink>,
    allowed: Set<Cell>,
    cut: Option<(Cell, Cell)>,
    start: Cell,
    a: Cell,
    b: Cell,
    o1: Cell,
    o2: Cell,
) -> bool {
    let h = a.plus(o1);
    &&& is_head(v, h)
    &&& h != start
    &&& !cut_blocks(cut, a, h)
    &&& face_open(v, a, h, o1)
    &&& b == h.plus(o2)
    &&& allowed.contains(b)
    &&& face_open(v, h, b, o2)
}

/// One step of factory connectivity from `a` to `b`.
pub open spec fn factory_step(
    v: Map<Cell, FactoryLink>,
    allowed: Set<Cell>,
    cut: Option<(Cell, Cell)>,
    start: Cell,
    a: Cell,
    b: Cell,
) -> bool {
    ||| exists|i: int| 0 <= i < 6 && #[trigger] direct_via(v, allowed, cut, a, b, signal_offsets_spec()[i])
    ||| exists|i: int, j: int|
        0 <= i < 6 && 0 <= j < 6 && #[trigger] head_via(
            v,
            allowed,
            cut,
            start,
            a,
            b,
            signal_offsets_spec()[i],
            signal_offsets_spec()[j],
        )
}

/// `path` goes from cell to cell by factory steps.
pub open spec fn is_factory_path(
    v: Map<Cell, FactoryLink>,
    allowed: Set<Cell>,
    cut: Option<(Cell, Cell)>,
    start: Cell,
    path: Seq<Cell>,
) -> bool {
    &&& path.len() >= 1
    &&& forall|i: int| 0 <= i < path.len() - 1 ==> factory_step(v, allowed, cut, start, #[trigger] path[i], path[i + 1])
}

/// The cells of the factory structure grown from `start`: those reached from it by
/// factory steps.
pub open spec fn factory_reach(
    v: Map<Cell, FactoryLink>,
    allowed: Set<Cell>,
    cut: Option<(Cell, Cell)>,
    start: Cell,
) -> Set<Cell> {
    Set::new(
        |b: Cell|
            exists|path: Seq<Cell>| #[trigger]
                is_factory_path(v, allowed, cut, start, path) && path[0] == start && path.last() == b,
    )
}

/// Every cell that matters is at least two steps away from the coordinate limits.
pub open spec fn far_from_limits(c: Cell) -> bool {
    &&& i32::MIN + 2 <= c.x <= i32::MAX - 2
    &&& i32::MIN + 2 <= c.y <= i32::MAX - 2
    &&& i32::MIN + 2 <= c.z <= i32::MAX - 2
}

/// A set holding `start` and closed under steps holds every reached cell.
proof fn lemma_closed_holds_reach(
    v: Map<Cell, FactoryLink>,
    allowed: Set<Cell>,
    cut: Option<(Cell, Cell)>,
    start: Cell,
    s: Set<Cell>,
    path: Seq<Cell>,
)
    requires
        s.contains(start),
        forall|a: Cell, b: Cell| #![trigger s.contains(a), factory_step(v, allowed, cut, start, a, b)]
            s.contains(a) && factory_step(v, allowed, cut, start, a, b) ==> s.contains(b),
        is_factory_path(v, allowed, cut, start, path),
        path[0] == start,
    ensures
        s.contains(path.last()),
    decreases path.len(),
{
    if path.len() > 1 {
        let prefix = path.drop_last();
        assert(is_factory_path(v, allowed, cut, start, prefix)) by {
            assert forall|i: int| 0 <= i < prefix.len() - 1 implies factory_step(v, allowed, cut, start, #[trigger] prefix[i], prefix[i + 1]) by {
                assert(prefix[i] == path[i]);
                assert(prefix[i + 1] == path[i + 1]);
            }
        }
        lemma_closed_holds_reach(v, allowed, cut, start, s, prefix);
        let k = path.len() - 2;
        assert(factory_step(v, allowed, cut, start, path[k], path[k + 1]));
        assert(s.contains(path[k]));
    }
}

/// Reaching extends by one step.
proof fn lemma_reach_extend(
    v: Map<Cell, FactoryLink>,
    allowed: Set<Cell>,
    cut: Option<(Cell, Cell)>,
    start: Cell,
    a: Cell,
    b: Cell,
)
    requires
        factory_reach(v, allowed, cut, start).contains(a),
        factory_step(v, allowed, cut, start, a, b),
    ensures
        factory_reach(v, allowed, cut, start).contains(b),
{
    let path = choose|path: Seq<Cell>| #[trigger] is_factory_path(v, allowed, cut, start, path) && path[0] == start && path.last() == a;
    let p2 = path.push(b);
    assert forall|i: int| 0 <= i < p2.len() - 1 implies factory_step(v, allowed, cut, start, #[trigger] p2[i], p2[i + 1]) by {
        assert(p2[i] == path[i]);
        if i < path.len() - 1 {
            assert(p2[i + 1] == path[i + 1]);
        }
    }
    assert(is_factory_path(v, allowed, cut, start, p2));
}

pub proof fn lemma_reach_start(v: Map<Cell, FactoryLink>, allowed: Set<Cell>, cut: Option<(Cell, Cell)>, start: Cell)
    ensures
        factory_reach(v, allowed, cut, start).contains(start),
{
    let path = seq![start];
    assert(is_factory_path(v, allowed, cut, start, path));
}

/// The cell is `start` or an allowed cell.
pub open spec fn member_ok(allowed: Set<Cell>, start: Cell, c: Cell) -> bool {
    c == start || allowed.contains(c)
}

/// The cells connected to `start` through factory blocks of `allowed` (and through
/// extended pusher heads), `start` included; the edge `cut` is not crossed.
#[verifier::rlimit(100)]
pub fn connected_factory_subset(
    view: &CellMap<FactoryLink>,
    allowed: &CellSet,
    start: Cell,
    cut: Option<(Cell, Cell)>,
) -> (r: CellSet)
    requires
        view.wf(),
        allowed.wf(),
        far_from_limits(start),
        forall|c: Cell| #[trigger] allowed@.contains(c) ==> far_from_limits(c) && !is_head(view@, c),
    ensures
        r.wf(),
        r@ == factory_reach(view@, allowed@, cut, start),
{
    let ghost v = view@;
    let ghost al = allowed@;
    let mut structure = CellSet::new();
    structure.insert(start);
    let mut queue: Vec<Cell> = Vec::new();
    queue.push(start);
    proof {
        lemma_reach_start(v, al, cut, start);
        assert(queue@ =~= seq![start]);
        assert(structure@ =~= queue@.to_set()) by {
            assert(queue@[0] == start);
            assert(queue@.contains(start));
            assert forall|c: Cell| queue@.to_set().contains(c) implies c == start by {
                let t = choose|t: int| 0 <= t < queue@.len() && queue@[t] == c;
            }
        }
        allowed.lemma_elems();
    }
    let offsets = signal_offsets();
    let mut head: usize = 0;
    while head < queue.len()
        invariant
            view.wf(),
            allowed.wf(),
            v == view@,
            al == allowed@,
            al.finite(),
            far_from_limits(start),
            forall|c: Cell| #[trigger] al.contains(c) ==> far_from_limits(c) && !is_head(v, c),
            offsets@ == signal_offsets_spec(),
            structure.wf(),
            head <= queue@.len(),
            queue@.len() >= 1,
            queue@[0] == start,
            queue@.no_duplicates(),
            structure@ == queue@.to_set(),
            forall|t: int| 0 <= t < queue@.len() ==> member_ok(al, start, #[trigger] queue@[t]),
            forall|x: Cell| #[trigger] structure@.contains(x) ==> factory_reach(v, al, cut, start).contains(x),
            forall|t: int, b: Cell| 0 <= t < head && #[trigger] factory_step(v, al, cut, start, queue@[t], b) ==> structure@.contains(b),
        decreases al.len() + 1 - head,
    {
        proof {
            assert(queue@.to_set().subset_of(al.insert(start))) by {
                assert forall|c: Cell| queue@.to_set().contains(c) implies al.insert(start).contains(c) by {
                    let t = choose|t: int| 0 <= t < queue@.len() && queue@[t] == c;
                    assert(member_ok(al, start, queue@[t]));
                }
            }
            vstd::set_lib::lemma_len_subset(queue@.to_set(), al.insert(start));
            queue@.unique_seq_to_set();
        }
        let pos = queue[head];
        proof {
            assert(member_ok(al, start, queue@[head as int]));
            assert(far_from_limits(pos));
        }
        let mut i: usize = 0;
        while i < 6
            invariant
                view.wf(),
                allowed.wf(),
                v == view@,
                al == allowed@,
                al.finite(),
                far_from_limits(start),
                forall|c: Cell| #[trigger] al.contains(c) ==> far_from_limits(c) && !is_head(v, c),
                offsets@ == signal_offsets_spec(),
                structure.wf(),
                head < queue@.len(),
                pos == queue@[head as int],
                far_from_limits(pos),
                i <= 6,
                queue@[0] == start,
                queue@.no_duplicates(),
                structure@ == queue@.to_set(),
                forall|t: int| 0 <= t < queue@.len() ==> member_ok(al, start, #[trigger] queue@[t]),
                forall|x: Cell| #[trigger] structure@.contains(x) ==> factory_reach(v, al, cut, start).contains(x),
                forall|t: int, b: Cell| 0 <= t < head && #[trigger] factory_step(v, al, cut, start, queue@[t], b) ==> structure@.contains(b),
                forall|k: int, b: Cell| 0 <= k < i && #[trigger] direct_via(v, al, cut, pos, b, signal_offsets_spec()[k]) ==> structure@.contains(b),
                forall|k: int, k2: int, b: Cell| 0 <= k < i && 0 <= k2 < 6 && #[trigger] head_via(v, al, cut, start, pos, b, signal_offsets_spec()[k], signal_offsets_spec()[k2])
                    ==> structure@.contains(b),
            decreases 6 - i,
        {
            let o = offsets[i];
            let ghost oi = signal_offsets_spec()[i as int];
            assert(o == oi);
            let neighbor = pos.add(o);
            let link = view.get(neighbor);
            let is_h = match link {
                Some(l) => l.head,
                None => false,
            };
            assert(is_h == is_head(v, neighbor));
            if structure.contains(neighbor) {
                proof {
                    assert(queue@.to_set().contains(neighbor));
                    let t = choose|t: int| 0 <= t < queue@.len() && queue@[t] == neighbor;
                    assert(member_ok(al, start, queue@[t]));
                    assert forall|k2: int, b: Cell| 0 <= k2 < 6 && #[trigger] head_via(v, al, cut, start, pos, b, oi, signal_offsets_spec()[k2])
                        implies structure@.contains(b) by {
                        assert(is_head(v, neighbor));
                        assert(neighbor == start);
                    }
                }
            } else if is_h {
                let sealed_out = match view.get(pos) {
                    Some(l) => l.sealed == Some(o),
                    None => false,
                };
                let sealed_in = match link {
                    Some(l) => l.sealed == Some(o.neg()),
                    None => false,
                };
                let cut_here = match cut {
                    Some((p, f)) => (pos == p && neighbor == f) || (pos == f && neighbor == p),
                    None => false,
                };
                assert(sealed_out == sealed_toward(v, pos, oi));
                assert(sealed_in == sealed_toward(v, neighbor, oi.negated()));
                assert(cut_here == cut_blocks(cut, pos, neighbor));
                if !cut_here && !sealed_out && !sealed_in {
                    let hl = link.unwrap();
                    let mut j: usize = 0;
                    while j < 6
                        invariant
                            view.wf(),
                            allowed.wf(),
                            v == view@,
                            al == allowed@,
                            al.finite(),
                            far_from_limits(start),
                            forall|c: Cell| #[trigger] al.contains(c) ==> far_from_limits(c) && !is_head(v, c),
                            offsets@ == signal_offsets_spec(),
                            structure.wf(),
                            head < queue@.len(),
                            pos == queue@[head as int],
                            far_from_limits(pos),
                            i < 6,
                            oi == signal_offsets_spec()[i as int],
                            neighbor == pos.plus(oi),
                            is_head(v, neighbor),
                            v[neighbor] == hl,
                            neighbor != start,
                            !cut_blocks(cut, pos, neighbor),
                            face_open(v, pos, neighbor, oi),
                            j <= 6,
                            queue@[0] == start,
                            queue@.no_duplicates(),
                            structure@ == queue@.to_set(),
                            forall|t: int| 0 <= t < queue@.len() ==> member_ok(al, start, #[trigger] queue@[t]),
                            forall|x: Cell| #[trigger] structure@.contains(x) ==> factory_reach(v, al, cut, start).contains(x),
                            forall|t: int, b: Cell| 0 <= t < head && #[trigger] factory_step(v, al, cut, start, queue@[t], b) ==> structure@.contains(b),
                            forall|k: int, b: Cell| 0 <= k < i && #[trigger] direct_via(v, al, cut, pos, b, signal_offsets_spec()[k]) ==> structure@.contains(b),
                            forall|k: int, k2: int, b: Cell| 0 <= k < i && 0 <= k2 < 6 && #[trigger] head_via(v, al, cut, start, pos, b, signal_offsets_spec()[k], signal_offsets_spec()[k2])
                                ==> structure@.contains(b),
                            forall|k2: int, b: Cell| 0 <= k2 < j && #[trigger] head_via(v, al, cut, start, pos, b, oi, signal_offsets_spec()[k2])
                                ==> structure@.contains(b),
                        decreases 6 - j,
                    {
                        let o2 = offsets[j];
                        let ghost oj = signal_offsets_spec()[j as int];
                        assert(o2 == oj);
                        let beyond = neighbor.add(o2);
                        if !structure.contains(beyond) && allowed.contains(beyond) {
                            let beyond_sealed = match view.get(beyond) {
                                Some(l) => l.sealed == Some(o2.neg()),
                                None => false,
                            };
                            let head_sealed = hl.sealed == Some(o2);
                            assert(beyond_sealed == sealed_toward(v, beyond, oj.negated()));
                            assert(head_sealed == sealed_toward(v, neighbor, oj));
                            if !beyond_sealed && !head_sealed {
                                proof {
                                    assert(head_via(v, al, cut, start, pos, beyond, oi, oj));
                                    assert(factory_step(v, al, cut, start, pos, beyond));
                                    assert(structure@.contains(pos));
                                    lemma_reach_extend(v, al, cut, start, pos, beyond);
                                }
                                let ghost q0 = queue@;
                                structure.insert(beyond);
                                queue.push(beyond);
                                proof {
                                    q0.lemma_push_to_set_commute(beyond);
                                    assert(!q0.contains(beyond)) by {
                                        if q0.contains(beyond) {
                                            assert(q0.to_set().contains(beyond));
                                        }
                                    }
                                    assert(queue@.no_duplicates()) by {
                                        assert forall|a: int, b: int| 0 <= a < queue@.len() && 0 <= b < queue@.len() && a != b implies queue@[a] != queue@[b] by {
                                            if a < q0.len() && b < q0.len() {
                                                assert(queue@[a] == q0[a] && queue@[b] == q0[b]);
                                            } else if a < q0.len() {
                                                assert(queue@[a] == q0[a]);
                                                assert(q0.contains(q0[a]));
                                            } else if b < q0.len() {
                                                assert(queue@[b] == q0[b]);
                                                assert(q0.contains(q0[b]));
                                            }
                                        }
                                    }
                                    assert forall|t: int| 0 <= t < queue@.len() implies member_ok(al, start, #[trigger] queue@[t]) by {
                                        if t < q0.len() {
                                            assert(queue@[t] == q0[t]);
                                        }
                                    }
                                    assert forall|t: int, b: Cell| 0 <= t < head && #[trigger] factory_step(v, al, cut, start, queue@[t], b)
                                        implies structure@.contains(b) by {
                                        assert(queue@[t] == q0[t]);
                                    }
                                }
                            }
                        }
                        proof {
                            assert forall|k2: int, b: Cell| 0 <= k2 < j + 1 && #[trigger] head_via(v, al, cut, start, pos, b, oi, signal_offsets_spec()[k2])
                                implies structure@.contains(b) by {
                                if k2 == j {
                                    assert(b == beyond);
                                }
                            }
                        }
                        j = j + 1;
                    }
                } else {
                    proof {
                        assert forall|k2: int, b: Cell| 0 <= k2 < 6 && #[trigger] head_via(v, al, cut, start, pos, b, oi, signal_offsets_spec()[k2])
                            implies structure@.contains(b) by {}
                    }
                }
            } else {
                let sealed_out = match view.get(pos) {
                    Some(l) => l.sealed == Some(o),
                    None => false,
                };
                let sealed_in = match link {
                    Some(l) => l.sealed == Some(o.neg()),
                    None => false,
                };
                let cut_here = match cut {
                    Some((p, f)) => (pos == p && neighbor == f) || (pos == f && neighbor == p),
                    None => false,
                };
                assert(sealed_out == sealed_toward(v, pos, oi));
                assert(sealed_in == sealed_toward(v, neighbor, oi.negated()));
                assert(cut_here == cut_blocks(cut, pos, neighbor));
                if allowed.contains(neighbor) && !cut_here && !sealed_out && !sealed_in {
                    proof {
                        assert(direct_via(v, al, cut, pos, neighbor, oi));
                        assert(factory_step(v, al, cut, start, pos, neighbor));
                        assert(structure@.contains(pos));
                        lemma_reach_extend(v, al, cut, start, pos, neighbor);
                    }
                    let ghost q0 = queue@;
                    structure.insert(neighbor);
                    queue.push(neighbor);
                    proof {
                        q0.lemma_push_to_set_commute(neighbor);
                        assert(!q0.contains(neighbor)) by {
                            if q0.contains(neighbor) {
                                assert(q0.to_set().contains(neighbor));
                            }
                        }
                        assert(queue@.no_duplicates()) by {
                            assert forall|a: int, b: int| 0 <= a < queue@.len() && 0 <= b < queue@.len() && a != b implies queue@[a] != queue@[b] by {
                                if a < q0.len() && b < q0.len() {
                                    assert(queue@[a] == q0[a] && queue@[b] == q0[b]);
                                } else if a < q0.len() {
                                    assert(queue@[a] == q0[a]);
                                    assert(q0.contains(q0[a]));
                                } else if b < q0.len() {
                                    assert(queue@[b] == q0[b]);
                                    assert(q0.contains(q0[b]));
                                }
                            }
                        }
                        assert forall|t: int| 0 <= t < queue@.len() implies member_ok(al, start, #[trigger] queue@[t]) by {
                            if t < q0.len() {
                                assert(queue@[t] == q0[t]);
                            }
                        }
                        assert forall|t: int, b: Cell| 0 <= t < head && #[trigger] factory_step(v, al, cut, start, queue@[t], b)
                            implies structure@.contains(b) by {
                            assert(queue@[t] == q0[t]);
                        }
                    }
                }
                proof {
                    assert forall|k2: int, b: Cell| 0 <= k2 < 6 && #[trigger] head_via(v, al, cut, start, pos, b, oi, signal_offsets_spec()[k2])
                        implies structure@.contains(b) by {}
                }
            }
            proof {
                assert forall|k: int, b: Cell| 0 <= k < i + 1 && #[trigger] direct_via(v, al, cut, pos, b, signal_offsets_spec()[k])
                    implies structure@.contains(b) by {
                    if k == i {
                        assert(b == neighbor);
                    }
                }
            }
            i = i + 1;
        }
        proof {
            assert forall|t: int, b: Cell| 0 <= t < head + 1 && #[trigger] factory_step(v, al, cut, start, queue@[t], b)
                implies structure@.contains(b) by {
                if t == head {
                    if exists|k: int| 0 <= k < 6 && #[trigger] direct_via(v, al, cut, pos, b, signal_offsets_spec()[k]) {
                        let k = choose|k: int| 0 <= k < 6 && #[trigger] direct_via(v, al, cut, pos, b, signal_offsets_spec()[k]);
                    } else {
                        let (k, k2) = choose|k: int, k2: int| 0 <= k < 6 && 0 <= k2 < 6 && #[trigger] head_via(v, al, cut, start, pos, b, signal_offsets_spec()[k], signal_offsets_spec()[k2]);
                    }
                }
            }
        }
        head = head + 1;
    }
    proof {
        let reach = factory_reach(v, al, cut, start);
        assert forall|a: Cell, b: Cell| #![trigger structure@.contains(a), factory_step(v, al, cut, start, a, b)]
            structure@.contains(a) && factory_step(v, al, cut, start, a, b) implies structure@.contains(b) by {
            assert(queue@.to_set().contains(a));
            let t = choose|t: int| 0 <= t < queue@.len() && queue@[t] == a;
        }
        assert(structure@.contains(start)) by {
            assert(queue@.to_set().contains(queue@[0]));
        }
        assert forall|b: Cell| reach.contains(b) implies structure@.contains(b) by {
            let path = choose|path: Seq<Cell>| #[trigger] is_factory_path(v, al, cut, start, path) && path[0] == start && path.last() == b;
            lemma_closed_holds_reach(v, al, cut, start, structure@, path);
        }
        assert(structure@ =~= reach);
    }
    structure
}


/// The cell `c` touches the scene through offset `o`: the neighbour there is a scene
/// cell and `c` does not seal that face.
pub open spec fn touches_via(v: Map<Cell, FactoryLink>, scene: Set<Cell>, c: Cell, o: Cell) -> bool {
    scene.contains(c.plus(o)) && !sealed_toward(v, c, o)
}

/// The cell `c` touches the scene through one of its six faces.
pub open spec fn touches_scene_at(v: Map<Cell, FactoryLink>, scene: Set<Cell>, c: Cell) -> bool {
    exists|i: int| 0 <= i < 6 && #[trigger] touches_via(v, scene, c, signal_offsets_spec()[i])
}

/// Whether the cell `c` touches a scene cell through an open face.
pub fn cell_touches_scene(view: &CellMap<FactoryLink>, scene: &CellSet, c: Cell) -> (r: bool)
    requires
        view.wf(),
        scene.wf(),
        far_from_limits(c),
    ensures
        r == touches_scene_at(view@, scene@, c),
{
    let offsets = signal_offsets();
    let sealed = match view.get(c) {
        Some(l) => l.sealed,
        None => None,
    };
    let mut i: usize = 0;
    while i < 6
        invariant
            view.wf(),
            scene.wf(),
            far_from_limits(c),
            offsets@ == signal_offsets_spec(),
            i <= 6,
            sealed == (if view@.contains_key(c) { view@[c].sealed } else { None }),
            forall|k: int| 0 <= k < i ==> !#[trigger] touches_via(view@, scene@, c, signal_offsets_spec()[k]),
        decreases 6 - i,
    {
        let o = offsets[i];
        let neighbor = c.add(o);
        if scene.contains(neighbor) && sealed != Some(o) {
            assert(touches_via(view@, scene@, c, signal_offsets_spec()[i as int]));
            return true;
        }
        i = i + 1;
    }
    false
}

/// Whether some cell of `structure` touches the scene through an open face.
pub fn touches_scene(view: &CellMap<FactoryLink>, scene: &CellSet, structure: &CellSet) -> (r: bool)
    requires
        view.wf(),
        scene.wf(),
        structure.wf(),
        forall|c: Cell| #[trigger] structure@.contains(c) ==> far_from_limits(c),
    ensures
        r == exists|c: Cell| #[trigger] structure@.contains(c) && touches_scene_at(view@, scene@, c),
{
    let cells = structure.to_vec();
    proof {
        structure.lemma_elems();
    }
    let mut i: usize = 0;
    while i < cells.len()
        invariant
            view.wf(),
            scene.wf(),
            cells@ == structure.elems(),
            structure@ == structure.elems().to_set(),
            forall|c: Cell| #[trigger] structure@.contains(c) ==> far_from_limits(c),
            i <= cells@.len(),
            forall|k: int| 0 <= k < i ==> !touches_scene_at(view@, scene@, #[trigger] cells@[k]),
        decreases cells@.len() - i,
    {
        let c = cells[i];
        assert(structure@.contains(c));
        if cell_touches_scene(view, scene, c) {
            return true;
        }
        i = i + 1;
    }
    proof {
        assert forall|c: Cell| #[trigger] structure@.contains(c) implies !touches_scene_at(view@, scene@, c) by {
            let k = choose|k: int| 0 <= k < cells@.len() && cells@[k] == c;
        }
    }
    false
}

/// The cells of `positions` that touch the scene through an open face.
pub fn scene_touching_cells(view: &CellMap<FactoryLink>, scene: &CellSet, positions: &CellSet) -> (r: CellSet)
    requires
        view.wf(),
        scene.wf(),
        positions.wf(),
        forall|c: Cell| #[trigger] positions@.contains(c) ==> far_from_limits(c),
    ensures
        r.wf(),
        r@ == positions@.filter(|c: Cell| touches_scene_at(view@, scene@, c)),
{
    let cells = positions.to_vec();
    proof {
        positions.lemma_elems();
    }
    let mut r = CellSet::new();
    let mut i: usize = 0;
    while i < cells.len()
        invariant
            view.wf(),
            scene.wf(),
            r.wf(),
            cells@ == positions.elems(),
            positions@ == positions.elems().to_set(),
            forall|c: Cell| #[trigger] positions@.contains(c) ==> far_from_limits(c),
            i <= cells@.len(),
            forall|c: Cell| #[trigger] r@.contains(c) <==> (exists|k: int| 0 <= k < i && cells@[k] == c)
                && touches_scene_at(view@, scene@, c),
        decreases cells@.len() - i,
    {
        let c = cells[i];
        assert(positions@.contains(c));
        let t = cell_touches_scene(view, scene, c);
        if t {
            r.insert(c);
        }
        proof {
            assert forall|x: Cell| #[trigger] r@.contains(x) <==> (exists|k: int| 0 <= k < i + 1 && cells@[k] == x)
                && touches_scene_at(view@, scene@, x) by {
                if exists|k: int| 0 <= k < i + 1 && cells@[k] == x {
                    let k = choose|k: int| 0 <= k < i + 1 && cells@[k] == x;
                    if k < i {
                        assert(exists|k2: int| 0 <= k2 < i && cells@[k2] == x);
                    }
                }
                if exists|k: int| 0 <= k < i && cells@[k] == x {
                    let k = choose|k: int| 0 <= k < i && cells@[k] == x;
                    assert(0 <= k < i + 1 && cells@[k] == x);
                }
                if x == c {
                    assert(cells@[i as int] == x);
                }
            }
        }
        i = i + 1;
    }
    proof {
        assert forall|c: Cell| r@.contains(c) <==> positions@.filter(|c: Cell| touches_scene_at(view@, scene@, c)).contains(c) by {
            if positions@.contains(c) {
                let k = choose|k: int| 0 <= k < cells@.len() && cells@[k] == c;
                assert(exists|k2: int| 0 <= k2 < i && cells@[k2] == c);
            }
            if r@.contains(c) {
                let k = choose|k: int| 0 <= k < i && cells@[k] == c;
                assert(cells@.contains(c));
            }
        }
        assert(r@ =~= positions@.filter(|c: Cell| touches_scene_at(view@, scene@, c)));
    }
    r
}


/// Every allowed cell is away from the coordinate limits and is no pusher head.
pub open spec fn allowed_ok(v: Map<Cell, FactoryLink>, allowed: Set<Cell>) -> bool {
    forall|c: Cell| #[trigger] allowed.contains(c) ==> far_from_limits(c) && !is_head(v, c)
}

/// `dom` is closed under the factory steps (with no edge cut) that leave one of its
/// allowed cells, from any allowed start.
pub open spec fn closed_under_steps(v: Map<Cell, FactoryLink>, allowed: Set<Cell>, dom: Set<Cell>) -> bool {
    forall|s: Cell, a: Cell, b: Cell| #![trigger dom.contains(a), factory_step(v, allowed, None, s, a, b)]
        allowed.contains(s) && allowed.contains(a) && dom.contains(a) && factory_step(v, allowed, None, s, a, b) ==> dom.contains(b)
}

/// The start only matters through the rule that a walk does not pass its own head:
/// from a start that is no head, the steps are the same.
proof fn lemma_step_start_free(
    v: Map<Cell, FactoryLink>,
    allowed: Set<Cell>,
    cut: Option<(Cell, Cell)>,
    s1: Cell,
    s2: Cell,
    a: Cell,
    b: Cell,
)
    requires
        factory_step(v, allowed, cut, s1, a, b),
        !is_head(v, s2),
    ensures
        factory_step(v, allowed, cut, s2, a, b),
{
    let o = signal_offsets_spec();
    if !(exists|i: int| 0 <= i < 6 && #[trigger] direct_via(v, allowed, cut, a, b, o[i])) {
        let (i, j) = choose|i: int, j: int| 0 <= i < 6 && 0 <= j < 6 && #[trigger] head_via(v, allowed, cut, s1, a, b, o[i], o[j]);
        assert(head_via(v, allowed, cut, s2, a, b, o[i], o[j]));
    }
}

/// The index of the opposite offset.
spec fn opposite(i: int) -> int {
    if i % 2 == 0 {
        i + 1
    } else {
        i - 1
    }
}

proof fn lemma_opposite(i: int)
    requires
        0 <= i < 6,
    ensures
        0 <= opposite(i) < 6,
        signal_offsets_spec()[opposite(i)] == signal_offsets_spec()[i].negated(),
        signal_offsets_spec()[opposite(i)].negated() == signal_offsets_spec()[i],
{
}

/// With no edge cut, steps from an allowed cell go both ways.
proof fn lemma_step_symmetric(
    v: Map<Cell, FactoryLink>,
    allowed: Set<Cell>,
    s: Cell,
    a: Cell,
    b: Cell,
)
    requires
        factory_step(v, allowed, None, s, a, b),
        allowed.contains(a),
        allowed_ok(v, allowed),
    ensures
        factory_step(v, allowed, None, s, b, a),
        allowed.contains(b),
{
    let o = signal_offsets_spec();
    assert(far_from_limits(a) && !is_head(v, a));
    if exists|i: int| 0 <= i < 6 && #[trigger] direct_via(v, allowed, None, a, b, o[i]) {
        let i = choose|i: int| 0 <= i < 6 && #[trigger] direct_via(v, allowed, None, a, b, o[i]);
        lemma_opposite(i);
        let j = opposite(i);
        assert(b.plus(o[j]) == a);
        assert(o[j].negated() == o[i]);
        assert(direct_via(v, allowed, None, b, a, o[j]));
    } else {
        let (i, j) = choose|i: int, j: int| 0 <= i < 6 && 0 <= j < 6 && #[trigger] head_via(v, allowed, None, s, a, b, o[i], o[j]);
        lemma_opposite(i);
        lemma_opposite(j);
        let h = a.plus(o[i]);
        assert(b.plus(o[opposite(j)]) == h);
        assert(h.plus(o[opposite(i)]) == a);
        assert(head_via(v, allowed, None, s, b, a, o[opposite(j)], o[opposite(i)]));
    }
}

/// Walking a path back: a set closed under steps that holds the end of a path from an
/// allowed start holds the start.
proof fn lemma_reach_back(
    v: Map<Cell, FactoryLink>,
    allowed: Set<Cell>,
    dom: Set<Cell>,
    start: Cell,
    path: Seq<Cell>,
)
    requires
        allowed_ok(v, allowed),
        allowed.contains(start),
        closed_under_steps(v, allowed, dom),
        is_factory_path(v, allowed, None, start, path),
        path[0] == start,
        dom.contains(path.last()),
        forall|t: int| 0 <= t < path.len() ==> allowed.contains(#[trigger] path[t]),
    ensures
        dom.contains(start),
    decreases path.len(),
{
    if path.len() > 1 {
        let n = path.len() - 1;
        assert(factory_step(v, allowed, None, start, path[n - 1], path[n]));
        assert(allowed.contains(path[n - 1]));
        lemma_step_symmetric(v, allowed, start, path[n - 1], path[n]);
        assert(dom.contains(path[n - 1]));
        let prefix = path.drop_last();
        assert forall|i: int| 0 <= i < prefix.len() - 1 implies factory_step(v, allowed, None, start, #[trigger] prefix[i], prefix[i + 1]) by {
            assert(prefix[i] == path[i]);
            assert(prefix[i + 1] == path[i + 1]);
        }
        assert forall|t: int| 0 <= t < prefix.len() implies allowed.contains(#[trigger] prefix[t]) by {
            assert(prefix[t] == path[t]);
        }
        lemma_reach_back(v, allowed, dom, start, prefix);
    }
}

/// Every cell of a path from an allowed start is allowed.
proof fn lemma_path_allowed(
    v: Map<Cell, FactoryLink>,
    allowed: Set<Cell>,
    start: Cell,
    path: Seq<Cell>,
)
    requires
        allowed.contains(start),
        is_factory_path(v, allowed, None, start, path),
        path[0] == start,
    ensures
        forall|t: int| 0 <= t < path.len() ==> allowed.contains(#[trigger] path[t]),
{
    let o = signal_offsets_spec();
    assert forall|t: int| 0 <= t < path.len() implies allowed.contains(#[trigger] path[t]) by {
        if t > 0 {
            assert(factory_step(v, allowed, None, start, path[t - 1], path[t]));
            if !(exists|i: int| 0 <= i < 6 && #[trigger] direct_via(v, allowed, None, path[t - 1], path[t], o[i])) {
                let (i, j) = choose|i: int, j: int| 0 <= i < 6 && 0 <= j < 6 && #[trigger] head_via(v, allowed, None, start, path[t - 1], path[t], o[i], o[j]);
            }
        }
    }
}

/// A set closed under steps that misses an allowed start misses all of its component.
pub proof fn lemma_reach_outside(v: Map<Cell, FactoryLink>, allowed: Set<Cell>, dom: Set<Cell>, start: Cell)
    requires
        allowed_ok(v, allowed),
        allowed.contains(start),
        closed_under_steps(v, allowed, dom),
        !dom.contains(start),
    ensures
        forall|p: Cell| #[trigger] factory_reach(v, allowed, None, start).contains(p) ==> !dom.contains(p),
{
    assert forall|p: Cell| #[trigger] factory_reach(v, allowed, None, start).contains(p) implies !dom.contains(p) by {
        let path = choose|path: Seq<Cell>| #[trigger] is_factory_path(v, allowed, None, start, path) && path[0] == start && path.last() == p;
        lemma_path_allowed(v, allowed, start, path);
        if dom.contains(p) {
            lemma_reach_back(v, allowed, dom, start, path);
        }
    }
}

/// A set closed under steps that holds an allowed start holds all of its component.
pub proof fn lemma_reach_inside(v: Map<Cell, FactoryLink>, allowed: Set<Cell>, dom: Set<Cell>, start: Cell)
    requires
        allowed_ok(v, allowed),
        allowed.contains(start),
        closed_under_steps(v, allowed, dom),
        dom.contains(start),
    ensures
        forall|p: Cell| #[trigger] factory_reach(v, allowed, None, start).contains(p) ==> dom.contains(p),
{
    let held = dom.intersect(allowed);
    assert forall|a: Cell, b: Cell| #![trigger held.contains(a), factory_step(v, allowed, None, start, a, b)]
        held.contains(a) && factory_step(v, allowed, None, start, a, b) implies held.contains(b) by {
        assert(dom.contains(b));
        let o = signal_offsets_spec();
        if !(exists|i: int| 0 <= i < 6 && #[trigger] direct_via(v, allowed, None, a, b, o[i])) {
            let (i, j) = choose|i: int, j: int| 0 <= i < 6 && 0 <= j < 6 && #[trigger] head_via(v, allowed, None, start, a, b, o[i], o[j]);
        }
    }
    assert forall|p: Cell| #[trigger] factory_reach(v, allowed, None, start).contains(p) implies dom.contains(p) by {
        let path = choose|path: Seq<Cell>| #[trigger] is_factory_path(v, allowed, None, start, path) && path[0] == start && path.last() == p;
        lemma_closed_holds_reach(v, allowed, None, start, held, path);
    }
}

/// Adding the component of an allowed start keeps a set closed under steps.
pub proof fn lemma_closed_add(v: Map<Cell, FactoryLink>, allowed: Set<Cell>, dom: Set<Cell>, start: Cell)
    requires
        allowed_ok(v, allowed),
        allowed.contains(start),
        closed_under_steps(v, allowed, dom),
    ensures
        closed_under_steps(v, allowed, dom.union(factory_reach(v, allowed, None, start))),
{
    let r = factory_reach(v, allowed, None, start);
    let d2 = dom.union(r);
    assert forall|s: Cell, a: Cell, b: Cell| #![trigger d2.contains(a), factory_step(v, allowed, None, s, a, b)]
        allowed.contains(s) && allowed.contains(a) && d2.contains(a) && factory_step(v, allowed, None, s, a, b) implies d2.contains(b) by {
        if !dom.contains(a) {
            assert(!is_head(v, start));
            lemma_step_start_free(v, allowed, None, s, start, a, b);
            lemma_reach_extend(v, allowed, None, start, a, b);
        }
    }
}


/// Every cell of the component of an allowed start is allowed.
pub proof fn lemma_reach_allowed(v: Map<Cell, FactoryLink>, allowed: Set<Cell>, start: Cell, c: Cell)
    requires
        allowed.contains(start),
        factory_reach(v, allowed, None, start).contains(c),
    ensures
        allowed.contains(c),
{
    let path = choose|path: Seq<Cell>| #[trigger] is_factory_path(v, allowed, None, start, path) && path[0] == start && path.last() == c;
    lemma_path_allowed(v, allowed, start, path);
    assert(allowed.contains(path[path.len() - 1]));
}

/// The component of an allowed start is closed under steps.
pub proof fn lemma_reach_closed(v: Map<Cell, FactoryLink>, allowed: Set<Cell>, start: Cell)
    requires
        allowed_ok(v, allowed),
        allowed.contains(start),
    ensures
        closed_under_steps(v, allowed, factory_reach(v, allowed, None, start)),
{
    lemma_closed_add(v, allowed, Set::empty(), start);
    assert(Set::<Cell>::empty().union(factory_reach(v, allowed, None, start)) =~= factory_reach(v, allowed, None, start));
}

/// Factory connectivity is transitive: the component of a member of the component of
/// `s` lies in the component of `s`.
pub proof fn lemma_factory_reach_transitive(v: Map<Cell, FactoryLink>, allowed: Set<Cell>, s: Cell, c: Cell, d: Cell)
    requires
        allowed_ok(v, allowed),
        allowed.contains(s),
        factory_reach(v, allowed, None, s).contains(c),
        factory_reach(v, allowed, None, c).contains(d),
    ensures
        factory_reach(v, allowed, None, s).contains(d),
{
    lemma_reach_allowed(v, allowed, s, c);
    lemma_reach_closed(v, allowed, s);
    lemma_reach_inside(v, allowed, factory_reach(v, allowed, None, s), c);
}

/// Factory connectivity is symmetric between allowed cells (with no edge cut).
pub proof fn lemma_factory_reach_symmetric(v: Map<Cell, FactoryLink>, allowed: Set<Cell>, s: Cell, c: Cell)
    requires
        allowed_ok(v, allowed),
        allowed.contains(s),
        factory_reach(v, allowed, None, s).contains(c),
    ensures
        factory_reach(v, allowed, None, c).contains(s),
{
    lemma_reach_allowed(v, allowed, s, c);
    lemma_reach_closed(v, allowed, c);
    lemma_reach_start(v, allowed, None, c);
    if !factory_reach(v, allowed, None, c).contains(s) {
        lemma_reach_outside(v, allowed, factory_reach(v, allowed, None, c), s);
        assert(!factory_reach(v, allowed, None, c).contains(c));
    }
}


/// The factory structure grown from `pos` over all factory cells (`None` when `pos` is
/// no factory cell).
pub fn query_factory_structure(view: &CellMap<FactoryLink>, factory: &CellSet, pos: Cell) -> (r: Option<CellSet>)
    requires
        view.wf(),
        factory.wf(),
        allowed_ok(view@, factory@),
    ensures
        match r {
            Some(s) => factory@.contains(pos) && s.wf() && s@ == factory_reach(view@, factory@, None, pos),
            None => !factory@.contains(pos),
        },
{
    if factory.contains(pos) {
        Some(connected_factory_subset(view, factory, pos, None))
    } else {
        None
    }
}

} // verus!
