//! The deformation graph of a factory structure, built from its blocks: face links
//! between its blocks, and each pusher's head linked to what is in front of it.
use vstd::prelude::*;

use crate::cell::{signal_offsets, signal_offsets_spec, Cell};
use crate::cellmap::{CellMap, CellSet};
use crate::deform::DeformPusher;
use crate::factory::{far_from_limits, FactoryLink};
use crate::ids::BlockId;

verus! {

/// What deformation reads of a block.
#[derive(Clone, Copy, Debug, PartialEq, Eq, Structural)]
pub struct DeformBlock {
    pub id: BlockId,
    /// The direction a pusher body pushes in; `None` for any other block.
    pub push: Option<Cell>,
    /// The forward offset of the block's facing.
    pub forward: Cell,
    /// The block is an extended pusher head.
    pub head: bool,
    /// The face (as an offset) through which the block does not connect, if any.
    pub sealed: Option<Cell>,
}

pub open spec fn is_head_block(m: Map<Cell, DeformBlock>, c: Cell) -> bool {
    m.contains_key(c) && m[c].head
}

/// The cell `t` steps from `c` along `f`.
pub open spec fn ray(c: Cell, f: Cell, t: nat) -> Cell
    decreases t,
{
    if t == 0 {
        c
    } else {
        ray(c, f, (t - 1) as nat).plus(f)
    }
}

/// `front` is the first cell along `f` from `c` that is not a pusher head.
pub open spec fn front_at(m: Map<Cell, DeformBlock>, c: Cell, f: Cell, front: Cell) -> bool {
    exists|t: nat|
        t >= 1 && #[trigger] ray(c, f, t) == front && !is_head_block(m, front) && forall|s: nat|
            1 <= s < t ==> is_head_block(m, #[trigger] ray(c, f, s))
}

/// The coordinate of `v` along the unit direction `f`.
pub open spec fn along(v: Cell, f: Cell) -> int {
    if f.x == 1 {
        v.x as int
    } else if f.x == -1 {
        -v.x
    } else if f.y == 1 {
        v.y as int
    } else if f.y == -1 {
        -v.y
    } else if f.z == 1 {
        v.z as int
    } else {
        -v.z
    }
}

/// Every block of the map is away from the coordinate limits.
pub open spec fn blocks_far(m: Map<Cell, DeformBlock>) -> bool {
    forall|c: Cell| #[trigger] m.contains_key(c) ==> far_from_limits(c)
}

/// Whether the block at `c` is a pusher head.
pub fn head_at(m: &CellMap<DeformBlock>, c: Cell) -> (r: bool)
    requires
        m.wf(),
    ensures
        r == is_head_block(m@, c),
{
    match m.get(c) {
        Some(b) => b.head,
        None => false,
    }
}

/// The first cell in front of `c` along `f` past any pusher heads.
pub fn front_of(m: &CellMap<DeformBlock>, c: Cell, f: Cell) -> (r: Cell)
    requires
        m.wf(),
        blocks_far(m@),
        far_from_limits(c),
        f.is_unit_axis(),
    ensures
        front_at(m@, c, f, r),
{
    let mut front = c.add(f);
    let ghost mut t: nat = 1;
    proof {
        assert(ray(c, f, 0) == c);
        assert(ray(c, f, 1) == front);
    }
    while head_at(m, front)
        invariant
            m.wf(),
            blocks_far(m@),
            far_from_limits(c),
            f.is_unit_axis(),
            t >= 1,
            front == ray(c, f, t),
            along(front, f) == along(c, f) + t,
            forall|s: nat| 1 <= s < t ==> is_head_block(m@, #[trigger] ray(c, f, s)),
            i32::MIN + 1 <= front.x <= i32::MAX - 1,
            i32::MIN + 1 <= front.y <= i32::MAX - 1,
            i32::MIN + 1 <= front.z <= i32::MAX - 1,
        decreases 0x1_0000_0000int - along(front, f),
    {
        proof {
            assert(m@.contains_key(front));
            assert(far_from_limits(front));
        }
        let next = front.add(f);
        proof {
            assert(ray(c, f, t + 1) == next);
            assert forall|s: nat| 1 <= s < t + 1 implies is_head_block(m@, #[trigger] ray(c, f, s)) by {
                if s == t {
                    assert(ray(c, f, s) == front);
                }
            }
            t = t + 1;
        }
        front = next;
    }
    front
}


/// Every pusher body of the map pushes along a unit axis.
pub open spec fn pushes_unit(m: Map<Cell, DeformBlock>) -> bool {
    forall|c: Cell| #[trigger] m.contains_key(c) && m[c].push is Some ==> m[c].push->0.is_unit_axis()
}

/// The block at `c` is a pusher body pushing toward `target`.
pub open spec fn faces_toward(m: Map<Cell, DeformBlock>, c: Cell, target: Cell) -> bool {
    m.contains_key(c) && m[c].push is Some && c.plus(m[c].push->0) == target
}

/// The head of the pusher `p` is linked to the node `x`: the first block past the heads
/// in front of it is a pusher of the structure facing back (then `x` is that pusher's
/// head), or else a block of the structure (then `x` is that block).
pub open spec fn head_link(m: Map<Cell, DeformBlock>, cells: Set<Cell>, ps: Seq<DeformPusher>, p: DeformPusher, x: u64) -> bool {
    exists|fr: Cell| #[trigger] front_at(m, p.at, p.dir, fr) && m.contains_key(fr) && if faces_toward(m, fr, p.at) {
        exists|k2: int| #![trigger ps[k2]] 0 <= k2 < ps.len() && ps[k2].body == m[fr].id.0 && x == ps[k2].head
    } else {
        cells.contains(fr) && x == m[fr].id.0
    }
}

/// The block of the structure at `c` is linked through offset `o` to its neighbour:
/// not through the front of a pusher, the neighbour is a block of the structure, the
/// face is open on both sides, and the neighbour is not a pusher facing `c` (that link
/// goes through its head).
pub open spec fn face_via(m: Map<Cell, DeformBlock>, cells: Set<Cell>, c: Cell, o: Cell) -> bool {
    let n = c.plus(o);
    &&& cells.contains(c)
    &&& m.contains_key(c)
    &&& !(m[c].push is Some && m[c].forward == o)
    &&& cells.contains(n)
    &&& m.contains_key(n)
    &&& m[c].sealed != Some(o)
    &&& m[n].sealed != Some(o.negated())
    &&& !faces_toward(m, n, c)
}

/// The directed link (a, b) of the deformation graph.
pub open spec fn graph_link(m: Map<Cell, DeformBlock>, cells: Set<Cell>, ps: Seq<DeformPusher>, a: u64, b: u64) -> bool {
    ||| exists|k: int| #![trigger ps[k]] 0 <= k < ps.len() && ps[k].head == a && head_link(m, cells, ps, ps[k], b)
    ||| exists|c: Cell, i: int| 0 <= i < 6 && #[trigger] face_via(m, cells, c, signal_offsets_spec()[i]) && m[c].id.0 == a
        && m[c.plus(signal_offsets_spec()[i])].id.0 == b
}

/// The first pusher with the given body, if any.
fn find_pusher(ps: &Vec<DeformPusher>, body: u64) -> (r: Option<usize>)
    ensures
        match r {
            Some(k) => k < ps@.len() && ps@[k as int].body == body,
            None => forall|k: int| 0 <= k < ps@.len() ==> (#[trigger] ps@[k]).body != body,
        },
{
    let mut k: usize = 0;
    while k < ps.len()
        invariant
            k <= ps@.len(),
            forall|j: int| 0 <= j < k ==> (#[trigger] ps@[j]).body != body,
        decreases ps@.len() - k,
    {
        if ps[k].body == body {
            return Some(k);
        }
        k = k + 1;
    }
    None
}

/// Whether the pusher at `c` (if any) pushes toward `target`.
fn faces_toward_at(m: &CellMap<DeformBlock>, c: Cell, target: Cell) -> (r: bool)
    requires
        m.wf(),
        blocks_far(m@),
        pushes_unit(m@),
    ensures
        r == faces_toward(m@, c, target),
{
    match m.get(c) {
        Some(b) => match b.push {
            Some(s) => {
                proof {
                    assert(far_from_limits(c));
                    assert(s.is_unit_axis());
                }
                c.add(s) == target
            },
            None => false,
        },
        None => false,
    }
}

/// The links of the deformation graph of the structure over `cells`, with pushers `ps`.
pub fn deform_links(m: &CellMap<DeformBlock>, cells: &CellSet, ps: &Vec<DeformPusher>) -> (r: Vec<(u64, u64)>)
    requires
        m.wf(),
        cells.wf(),
        blocks_far(m@),
        pushes_unit(m@),
        forall|c: Cell| #[trigger] cells@.contains(c) ==> far_from_limits(c),
        forall|k: int| 0 <= k < ps@.len() ==> (#[trigger] ps@[k]).dir.is_unit_axis() && far_from_limits(ps@[k].at),
        forall|a: int, b: int| 0 <= a < b < ps@.len() ==> ps@[a].body < ps@[b].body,
    ensures
        forall|a: u64, b: u64| #[trigger] r@.contains((a, b)) <==> graph_link(m@, cells@, ps@, a, b),
{
    let ghost mm = m@;
    let ghost cs = cells@;
    let ghost pp = ps@;
    let mut links: Vec<(u64, u64)> = Vec::new();
    let mut k: usize = 0;
    while k < ps.len()
        invariant
            m.wf(),
            cells.wf(),
            mm == m@,
            cs == cells@,
            pp == ps@,
            blocks_far(mm),
            pushes_unit(mm),
            forall|j: int| 0 <= j < pp.len() ==> (#[trigger] pp[j]).dir.is_unit_axis() && far_from_limits(pp[j].at),
            forall|a: int, b: int| 0 <= a < b < pp.len() ==> pp[a].body < pp[b].body,
            k <= pp.len(),
            forall|a: u64, b: u64| #[trigger] links@.contains((a, b)) <==> exists|j: int| #![trigger pp[j]] 0 <= j < k && pp[j].head == a
                && head_link(mm, cs, pp, pp[j], b),
        decreases pp.len() - k,
    {
        let p = ps[k];
        proof {
            assert(p == pp[k as int]);
        }
        let fr = front_of(m, p.at, p.dir);
        let ghost l0 = links@;
        match m.get(fr) {
            Some(fb) => {
                let ftf = faces_toward_at(m, fr, p.at);
                if ftf {
                    match find_pusher(ps, fb.id.0) {
                        Some(k2) => {
                            links.push((p.head, ps[k2].head));
                            proof {
                                assert forall|y: u64| head_link(mm, cs, pp, p, y) <==> links@ == l0.push((p.head, y)) by {
                                    if head_link(mm, cs, pp, p, y) {
                                        let fr2 = choose|fr2: Cell| #[trigger] front_at(mm, p.at, p.dir, fr2) && mm.contains_key(fr2) && if faces_toward(mm, fr2, p.at) {
                                            exists|k3: int| #![trigger pp[k3]] 0 <= k3 < pp.len() && pp[k3].body == mm[fr2].id.0 && y == pp[k3].head
                                        } else {
                                            cs.contains(fr2) && y == mm[fr2].id.0
                                        };
                                        lemma_front_unique(mm, p.at, p.dir, fr, fr2);
                                        let k3 = choose|k3: int| #![trigger pp[k3]] 0 <= k3 < pp.len() && pp[k3].body == mm[fr2].id.0 && y == pp[k3].head;
                                        if k3 < k2 {
                                            assert(pp[k3].body < pp[k2 as int].body);
                                        } else if k3 > k2 {
                                            assert(pp[k2 as int].body < pp[k3].body);
                                        }
                                    }
                                    if links@ == l0.push((p.head, y)) {
                                        assert(links@.last() == (p.head, y));
                                        assert(head_link(mm, cs, pp, p, y));
                                    }
                                }
                            }
                        },
                        None => {
                            proof {
                                assert forall|y: u64| head_link(mm, cs, pp, p, y) <==> links@ == l0.push((p.head, y)) by {
                                    if head_link(mm, cs, pp, p, y) {
                                        let fr2 = choose|fr2: Cell| #[trigger] front_at(mm, p.at, p.dir, fr2) && mm.contains_key(fr2) && if faces_toward(mm, fr2, p.at) {
                                            exists|k3: int| #![trigger pp[k3]] 0 <= k3 < pp.len() && pp[k3].body == mm[fr2].id.0 && y == pp[k3].head
                                        } else {
                                            cs.contains(fr2) && y == mm[fr2].id.0
                                        };
                                        lemma_front_unique(mm, p.at, p.dir, fr, fr2);
                                        let k3 = choose|k3: int| #![trigger pp[k3]] 0 <= k3 < pp.len() && pp[k3].body == mm[fr2].id.0 && y == pp[k3].head;
                                    }
                                    assert(links@.len() != l0.push((p.head, y)).len());
                                }
                            }
                        },
                    }
                } else if cells.contains(fr) {
                    links.push((p.head, fb.id.0));
                    proof {
                        assert forall|y: u64| head_link(mm, cs, pp, p, y) <==> links@ == l0.push((p.head, y)) by {
                            if head_link(mm, cs, pp, p, y) {
                                let fr2 = choose|fr2: Cell| #[trigger] front_at(mm, p.at, p.dir, fr2) && mm.contains_key(fr2) && if faces_toward(mm, fr2, p.at) {
                                    exists|k3: int| #![trigger pp[k3]] 0 <= k3 < pp.len() && pp[k3].body == mm[fr2].id.0 && y == pp[k3].head
                                } else {
                                    cs.contains(fr2) && y == mm[fr2].id.0
                                };
                                lemma_front_unique(mm, p.at, p.dir, fr, fr2);
                            }
                            if links@ == l0.push((p.head, y)) {
                                assert(links@.last() == (p.head, y));
                                assert(head_link(mm, cs, pp, p, y));
                            }
                        }
                    }
                } else {
                    proof {
                        assert forall|y: u64| head_link(mm, cs, pp, p, y) <==> links@ == l0.push((p.head, y)) by {
                            if head_link(mm, cs, pp, p, y) {
                                let fr2 = choose|fr2: Cell| #[trigger] front_at(mm, p.at, p.dir, fr2) && mm.contains_key(fr2) && if faces_toward(mm, fr2, p.at) {
                                    exists|k3: int| #![trigger pp[k3]] 0 <= k3 < pp.len() && pp[k3].body == mm[fr2].id.0 && y == pp[k3].head
                                } else {
                                    cs.contains(fr2) && y == mm[fr2].id.0
                                };
                                lemma_front_unique(mm, p.at, p.dir, fr, fr2);
                            }
                            assert(links@.len() != l0.push((p.head, y)).len());
                        }
                    }
                }
            },
            None => {
                proof {
                    assert forall|y: u64| head_link(mm, cs, pp, p, y) <==> links@ == l0.push((p.head, y)) by {
                        if head_link(mm, cs, pp, p, y) {
                            let fr2 = choose|fr2: Cell| #[trigger] front_at(mm, p.at, p.dir, fr2) && mm.contains_key(fr2) && if faces_toward(mm, fr2, p.at) {
                                exists|k3: int| #![trigger pp[k3]] 0 <= k3 < pp.len() && pp[k3].body == mm[fr2].id.0 && y == pp[k3].head
                            } else {
                                cs.contains(fr2) && y == mm[fr2].id.0
                            };
                            lemma_front_unique(mm, p.at, p.dir, fr, fr2);
                        }
                        assert(links@.len() != l0.push((p.head, y)).len());
                    }
                }
            },
        }
        proof {
            assert(links@ == l0 || exists|y: u64| links@ == l0.push((p.head, y)));
            assert forall|a: u64, b: u64| #[trigger] links@.contains((a, b)) <==> exists|j: int| #![trigger pp[j]] 0 <= j < k + 1 && pp[j].head == a
                && head_link(mm, cs, pp, pp[j], b) by {
                if links@.contains((a, b)) {
                    let u = choose|u: int| 0 <= u < links@.len() && links@[u] == (a, b);
                    if u < l0.len() {
                        assert(l0[u] == links@[u]);
                        assert(l0.contains((a, b)));
                        let j = choose|j: int| #![trigger pp[j]] 0 <= j < k && pp[j].head == a && head_link(mm, cs, pp, pp[j], b);
                        assert(0 <= j < k + 1);
                    } else {
                        assert(links@ == l0.push((p.head, b)));
                        assert(pp[k as int].head == a);
                    }
                }
                if exists|j: int| #![trigger pp[j]] 0 <= j < k + 1 && pp[j].head == a && head_link(mm, cs, pp, pp[j], b) {
                    let j = choose|j: int| #![trigger pp[j]] 0 <= j < k + 1 && pp[j].head == a && head_link(mm, cs, pp, pp[j], b);
                    if j < k {
                        assert(l0.contains((a, b)));
                        let u = choose|u: int| 0 <= u < l0.len() && l0[u] == (a, b);
                        assert(links@[u] == (a, b));
                    } else {
                        assert(links@ == l0.push((p.head, b)));
                        assert(links@[links@.len() - 1] == (a, b));
                    }
                }
            }
        }
        k = k + 1;
    }
    let ghost l_heads = links@;
    let offsets = signal_offsets();
    let list = cells.to_vec();
    proof {
        cells.lemma_elems();
    }
    let mut ci: usize = 0;
    while ci < list.len()
        invariant
            m.wf(),
            cells.wf(),
            mm == m@,
            cs == cells@,
            pp == ps@,
            blocks_far(mm),
            pushes_unit(mm),
            forall|c: Cell| #[trigger] cs.contains(c) ==> far_from_limits(c),
            list@ == cells.elems(),
            cs == cells.elems().to_set(),
            offsets@ == signal_offsets_spec(),
            ci <= list@.len(),
            forall|a: u64, b: u64| #[trigger] l_heads.contains((a, b)) <==> exists|j: int| #![trigger pp[j]] 0 <= j < pp.len() && pp[j].head == a
                && head_link(mm, cs, pp, pp[j], b),
            forall|a: u64, b: u64| #[trigger] links@.contains((a, b)) <==> (l_heads.contains((a, b)) || exists|t: int, i: int| 0 <= t < ci && 0 <= i < 6
                && #[trigger] face_via(mm, cs, list@[t], signal_offsets_spec()[i]) && mm[list@[t]].id.0 == a
                && mm[list@[t].plus(signal_offsets_spec()[i])].id.0 == b),
        decreases list@.len() - ci,
    {
        let c = list[ci];
        proof {
            assert(cs.contains(c));
        }
        let ghost l_c = links@;
        match m.get(c) {
            Some(b) => {
                let mut i: usize = 0;
                while i < 6
                    invariant
                        m.wf(),
                        cells.wf(),
                        mm == m@,
                        cs == cells@,
                        blocks_far(mm),
                        pushes_unit(mm),
                        cs.contains(c),
                        far_from_limits(c),
                        mm.contains_key(c),
                        mm[c] == b,
                        offsets@ == signal_offsets_spec(),
                        i <= 6,
                        forall|a2: u64, b2: u64| #[trigger] links@.contains((a2, b2)) <==> (l_c.contains((a2, b2)) || exists|i2: int| 0 <= i2 < i
                            && #[trigger] face_via(mm, cs, c, signal_offsets_spec()[i2]) && mm[c].id.0 == a2
                            && mm[c.plus(signal_offsets_spec()[i2])].id.0 == b2),
                    decreases 6 - i,
                {
                    let o = offsets[i];
                    let ghost oi = signal_offsets_spec()[i as int];
                    assert(o == oi);
                    let ghost l1 = links@;
                    let through_front = match b.push {
                        Some(_) => b.forward.x == o.x && b.forward.y == o.y && b.forward.z == o.z,
                        None => false,
                    };
                    if !through_front {
                        let n = c.add(o);
                        if cells.contains(n) {
                            match m.get(n) {
                                Some(nb) => {
                                    let sealed_out = match b.sealed {
                                        Some(f) => f.x == o.x && f.y == o.y && f.z == o.z,
                                        None => false,
                                    };
                                    let on = o.neg();
                                    let sealed_in = match nb.sealed {
                                        Some(f) => f.x == on.x && f.y == on.y && f.z == on.z,
                                        None => false,
                                    };
                                    let back = faces_toward_at(m, n, c);
                                    if !sealed_out && !sealed_in && !back {
                                        links.push((b.id.0, nb.id.0));
                                        proof {
                                            assert(face_via(mm, cs, c, oi));
                                        }
                                    } else {
                                        proof {
                                            assert(!face_via(mm, cs, c, oi));
                                        }
                                    }
                                },
                                None => {},
                            }
                        }
                    }
                    proof {
                        assert forall|a2: u64, b2: u64| #[trigger] links@.contains((a2, b2)) <==> (l_c.contains((a2, b2)) || exists|i2: int| 0 <= i2 < i + 1
                            && #[trigger] face_via(mm, cs, c, signal_offsets_spec()[i2]) && mm[c].id.0 == a2
                            && mm[c.plus(signal_offsets_spec()[i2])].id.0 == b2) by {
                            if links@.contains((a2, b2)) && !l1.contains((a2, b2)) {
                                assert(links@[links@.len() - 1] == (a2, b2)) by {
                                    let u = choose|u: int| 0 <= u < links@.len() && links@[u] == (a2, b2);
                                    if u < l1.len() {
                                        assert(l1[u] == (a2, b2));
                                    }
                                }
                            }
                            if l1.contains((a2, b2)) {
                                let u = choose|u: int| 0 <= u < l1.len() && l1[u] == (a2, b2);
                                assert(links@[u] == (a2, b2));
                            }
                            if exists|i2: int| 0 <= i2 < i + 1 && #[trigger] face_via(mm, cs, c, signal_offsets_spec()[i2]) && mm[c].id.0 == a2
                                && mm[c.plus(signal_offsets_spec()[i2])].id.0 == b2 {
                                let i2 = choose|i2: int| 0 <= i2 < i + 1 && #[trigger] face_via(mm, cs, c, signal_offsets_spec()[i2]) && mm[c].id.0 == a2
                                    && mm[c.plus(signal_offsets_spec()[i2])].id.0 == b2;
                                if i2 == i {
                                    assert(links@[links@.len() - 1] == (a2, b2));
                                }
                            }
                        }
                    }
                    i = i + 1;
                }
            },
            None => {
                proof {
                    assert forall|i2: int| 0 <= i2 < 6 implies !#[trigger] face_via(mm, cs, c, signal_offsets_spec()[i2]) by {}
                }
            },
        }
        proof {
            assert forall|a: u64, b: u64| #[trigger] links@.contains((a, b)) <==> (l_heads.contains((a, b)) || exists|t: int, i: int| 0 <= t < ci + 1 && 0 <= i < 6
                && #[trigger] face_via(mm, cs, list@[t], signal_offsets_spec()[i]) && mm[list@[t]].id.0 == a
                && mm[list@[t].plus(signal_offsets_spec()[i])].id.0 == b) by {
                if exists|t: int, i: int| 0 <= t < ci + 1 && 0 <= i < 6 && #[trigger] face_via(mm, cs, list@[t], signal_offsets_spec()[i]) && mm[list@[t]].id.0 == a
                    && mm[list@[t].plus(signal_offsets_spec()[i])].id.0 == b {
                    let (t, i) = choose|t: int, i: int| 0 <= t < ci + 1 && 0 <= i < 6 && #[trigger] face_via(mm, cs, list@[t], signal_offsets_spec()[i]) && mm[list@[t]].id.0 == a
                        && mm[list@[t].plus(signal_offsets_spec()[i])].id.0 == b;
                    if t == ci {
                        assert(list@[t] == c);
                        assert(mm.contains_key(c));
                    }
                }
                if links@.contains((a, b)) && !l_c.contains((a, b)) {
                    let i2 = choose|i2: int| 0 <= i2 < 6 && #[trigger] face_via(mm, cs, c, signal_offsets_spec()[i2]) && mm[c].id.0 == a
                        && mm[c.plus(signal_offsets_spec()[i2])].id.0 == b;
                    assert(list@[ci as int] == c);
                    assert(face_via(mm, cs, list@[ci as int], signal_offsets_spec()[i2]));
                }
            }
        }
        ci = ci + 1;
    }
    proof {
        assert forall|a: u64, b: u64| #[trigger] links@.contains((a, b)) <==> graph_link(mm, cs, pp, a, b) by {
            if exists|c: Cell, i: int| 0 <= i < 6 && #[trigger] face_via(mm, cs, c, signal_offsets_spec()[i]) && mm[c].id.0 == a
                && mm[c.plus(signal_offsets_spec()[i])].id.0 == b {
                let (c, i) = choose|c: Cell, i: int| 0 <= i < 6 && #[trigger] face_via(mm, cs, c, signal_offsets_spec()[i]) && mm[c].id.0 == a
                    && mm[c.plus(signal_offsets_spec()[i])].id.0 == b;
                assert(cs.contains(c));
                let t = choose|t: int| 0 <= t < list@.len() && list@[t] == c;
                assert(face_via(mm, cs, list@[t], signal_offsets_spec()[i]));
            }
        }
    }
    links
}

/// The first cell past the heads is unique.
proof fn lemma_front_unique(m: Map<Cell, DeformBlock>, c: Cell, f: Cell, a: Cell, b: Cell)
    requires
        front_at(m, c, f, a),
        front_at(m, c, f, b),
    ensures
        a == b,
{
    let ta = choose|t: nat| t >= 1 && #[trigger] ray(c, f, t) == a && !is_head_block(m, a) && forall|s: nat| 1 <= s < t ==> is_head_block(m, #[trigger] ray(c, f, s));
    let tb = choose|t: nat| t >= 1 && #[trigger] ray(c, f, t) == b && !is_head_block(m, b) && forall|s: nat| 1 <= s < t ==> is_head_block(m, #[trigger] ray(c, f, s));
    if ta < tb {
        assert(is_head_block(m, ray(c, f, ta)));
    } else if tb < ta {
        assert(is_head_block(m, ray(c, f, tb)));
    }
}


/// Distinct blocks carry distinct identities.
pub open spec fn ids_unique(m: Map<Cell, DeformBlock>) -> bool {
    forall|a: Cell, b: Cell| #[trigger] m.contains_key(a) && #[trigger] m.contains_key(b) && a != b ==> m[a].id != m[b].id
}

/// The cell holds a pusher body of the structure.
pub open spec fn is_body_cell(m: Map<Cell, DeformBlock>, cells: Set<Cell>, c: Cell) -> bool {
    cells.contains(c) && m.contains_key(c) && m[c].push is Some
}

/// `ps` lists the pusher bodies of the structure, by increasing identity, each with
/// its cell and push direction.
pub open spec fn pushers_of(m: Map<Cell, DeformBlock>, cells: Set<Cell>, ps: Seq<DeformPusher>) -> bool {
    &&& forall|a: int, b: int| 0 <= a < b < ps.len() ==> ps[a].body < ps[b].body
    &&& forall|k: int| #![trigger ps[k]] 0 <= k < ps.len() ==> is_body_cell(m, cells, ps[k].at) && m[ps[k].at].id.0 == ps[k].body
        && ps[k].dir == m[ps[k].at].push->0
    &&& forall|c: Cell| #[trigger] is_body_cell(m, cells, c) ==> exists|k: int| #![trigger ps[k]] 0 <= k < ps.len() && ps[k].at == c
}

/// Inserts a pusher at its place by body.
fn insert_pusher(v: &mut Vec<DeformPusher>, x: DeformPusher)
    requires
        forall|a: int, b: int| 0 <= a < b < old(v)@.len() ==> old(v)@[a].body < old(v)@[b].body,
        forall|a: int| 0 <= a < old(v)@.len() ==> (#[trigger] old(v)@[a]).body != x.body,
    ensures
        forall|a: int, b: int| 0 <= a < b < final(v)@.len() ==> final(v)@[a].body < final(v)@[b].body,
        forall|y: DeformPusher| #[trigger] final(v)@.contains(y) <==> (old(v)@.contains(y) || y == x),
        final(v)@.len() == old(v)@.len() + 1,
{
    let mut j: usize = v.len();
    while j > 0 && v[j - 1].body > x.body
        invariant
            j <= v@.len(),
            v@ == old(v)@,
            forall|a: int| j <= a < v@.len() ==> x.body < v@[a].body,
        decreases j,
    {
        j = j - 1;
    }
    let ghost s0 = v@;
    proof {
        assert forall|a: int| 0 <= a < j implies s0[a].body < x.body by {
            assert(s0[j - 1].body != x.body);
            if a < j - 1 {
                assert(s0[a].body < s0[j - 1].body);
            }
        }
    }
    v.insert(j, x);
    proof {
        let s1 = v@;
        assert forall|a: int, b: int| 0 <= a < b < s1.len() implies s1[a].body < s1[b].body by {
            if a < j {
                if b > j {
                    assert(s1[b] == s0[b - 1]);
                }
            } else if a == j {
                assert(s1[b] == s0[b - 1]);
            } else {
                assert(s1[a] == s0[a - 1]);
                assert(s1[b] == s0[b - 1]);
            }
        }
        assert forall|y: DeformPusher| #[trigger] s1.contains(y) <==> (s0.contains(y) || y == x) by {
            if s1.contains(y) {
                let a = choose|a: int| 0 <= a < s1.len() && s1[a] == y;
                if a < j {
                    assert(s0[a] == y);
                } else if a > j {
                    assert(s0[a - 1] == y);
                }
            }
            if s0.contains(y) {
                let a = choose|a: int| 0 <= a < s0.len() && s0[a] == y;
                if a < j {
                    assert(s1[a] == y);
                } else {
                    assert(s1[a + 1] == y);
                }
            }
            if y == x {
                assert(s1[j as int] == y);
            }
        }
    }
}

/// The pusher bodies of the structure over `cells`, by increasing identity, with their
/// heads still to assign (zero).
pub fn pusher_bodies(m: &CellMap<DeformBlock>, cells: &CellSet) -> (r: Vec<DeformPusher>)
    requires
        m.wf(),
        cells.wf(),
        ids_unique(m@),
    ensures
        pushers_of(m@, cells@, r@),
        r@.len() <= cells@.len(),
        forall|k: int| 0 <= k < r@.len() ==> (#[trigger] r@[k]).head == 0,
{
    let list = cells.to_vec();
    proof {
        cells.lemma_elems();
        cells.elems().unique_seq_to_set();
    }
    let mut r: Vec<DeformPusher> = Vec::new();
    let mut i: usize = 0;
    while i < list.len()
        invariant
            m.wf(),
            ids_unique(m@),
            list@ == cells.elems(),
            list@.no_duplicates(),
            cells@ == list@.to_set(),
            i <= list@.len(),
            r@.len() <= i,
            forall|a: int, b: int| 0 <= a < b < r@.len() ==> r@[a].body < r@[b].body,
            forall|k: int| #![trigger r@[k]] 0 <= k < r@.len() ==> is_body_cell(m@, cells@, r@[k].at) && m@[r@[k].at].id.0 == r@[k].body
                && r@[k].dir == m@[r@[k].at].push->0 && r@[k].head == 0 && exists|t: int| 0 <= t < i && list@[t] == r@[k].at,
            forall|t: int| 0 <= t < i && #[trigger] is_body_cell(m@, cells@, list@[t]) ==> exists|k: int| #![trigger r@[k]] 0 <= k < r@.len() && r@[k].at == list@[t],
        decreases list@.len() - i,
    {
        let c = list[i];
        proof {
            assert(cells@.contains(c));
        }
        match m.get(c) {
            Some(b) => match b.push {
                Some(d) => {
                    let x = DeformPusher { body: b.id.0, head: 0, dir: d, at: c };
                    let ghost r0 = r@;
                    proof {
                        assert forall|a: int| 0 <= a < r0.len() implies (#[trigger] r0[a]).body != x.body by {
                            let t = choose|t: int| 0 <= t < i && list@[t] == r0[a].at;
                            assert(r0[a].at != c) by {
                                assert(list@[t] != list@[i as int]);
                            }
                            assert(m@.contains_key(r0[a].at));
                        }
                    }
                    insert_pusher(&mut r, x);
                    proof {
                        assert forall|k: int| #![trigger r@[k]] 0 <= k < r@.len() implies is_body_cell(m@, cells@, r@[k].at) && m@[r@[k].at].id.0 == r@[k].body
                            && r@[k].dir == m@[r@[k].at].push->0 && r@[k].head == 0 && exists|t: int| 0 <= t < i + 1 && list@[t] == r@[k].at by {
                            assert(r@.contains(r@[k]));
                            if r@[k] != x {
                                assert(r0.contains(r@[k]));
                                let k0 = choose|k0: int| 0 <= k0 < r0.len() && r0[k0] == r@[k];
                                assert(r0[k0] == r@[k]);
                                let t = choose|t: int| 0 <= t < i && list@[t] == r0[k0].at;
                                assert(0 <= t < i + 1);
                            } else {
                                assert(list@[i as int] == r@[k].at);
                            }
                        }
                        assert forall|t: int| 0 <= t < i + 1 && #[trigger] is_body_cell(m@, cells@, list@[t]) implies exists|k: int| #![trigger r@[k]] 0 <= k < r@.len()
                            && r@[k].at == list@[t] by {
                            if t < i {
                                let k0 = choose|k0: int| #![trigger r0[k0]] 0 <= k0 < r0.len() && r0[k0].at == list@[t];
                                assert(r0.contains(r0[k0]));
                                assert(r@.contains(r0[k0]));
                                let k = choose|k: int| 0 <= k < r@.len() && r@[k] == r0[k0];
                                assert(r@[k].at == list@[t]);
                            } else {
                                assert(r@.contains(x));
                                let k = choose|k: int| 0 <= k < r@.len() && r@[k] == x;
                                assert(r@[k].at == list@[t]);
                            }
                        }
                    }
                },
                None => {},
            },
            None => {},
        }
        i = i + 1;
    }
    proof {
        assert forall|c: Cell| #[trigger] is_body_cell(m@, cells@, c) implies exists|k: int| #![trigger r@[k]] 0 <= k < r@.len() && r@[k].at == c by {
            assert(list@.to_set().contains(c));
            let t = choose|t: int| 0 <= t < list@.len() && list@[t] == c;
            assert(is_body_cell(m@, cells@, list@[t]));
        }
        assert(cells@.len() == list@.len());
    }
    r
}


/// `prev` gave the head `h` to the body `body` (its first entry for that body).
pub open spec fn prev_head(prev: Seq<(BlockId, BlockId)>, body: u64, h: u64) -> bool {
    exists|i: int| #![trigger prev[i]] 0 <= i < prev.len() && prev[i].0.0 == body && prev[i].1.0 == h && forall|j: int|
        0 <= j < i ==> (#[trigger] prev[j]).0.0 != body
}

/// `prev` gave a head to the body `body`.
pub open spec fn had_head(prev: Seq<(BlockId, BlockId)>, body: u64) -> bool {
    exists|h: u64| #[trigger] prev_head(prev, body, h)
}

/// The pushers' heads: a body keeps the head `prev` gave it; the others get fresh
/// identities from `next0` on, in order, leaving the counter at `next1`.
pub open spec fn heads_fresh(prev: Seq<(BlockId, BlockId)>, ps: Seq<DeformPusher>, next0: u64, next1: u64) -> bool {
    &&& next0 <= next1
    &&& forall|k: int| #![trigger ps[k]] 0 <= k < ps.len() && had_head(prev, ps[k].body) ==> prev_head(prev, ps[k].body, ps[k].head)
    &&& forall|k: int| #![trigger ps[k]] 0 <= k < ps.len() && !had_head(prev, ps[k].body) ==> next0 <= ps[k].head < next1
    &&& forall|a: int, b: int| 0 <= a < b < ps.len() && !had_head(prev, ps[a].body) && !had_head(prev, ps[b].body) ==> ps[a].head < ps[b].head
}

/// `ps` is `bodies` with heads given as `heads_fresh` says.
pub open spec fn heads_given(
    prev: Seq<(BlockId, BlockId)>,
    bodies: Seq<DeformPusher>,
    ps: Seq<DeformPusher>,
    next0: u64,
    next1: u64,
) -> bool {
    &&& ps.len() == bodies.len()
    &&& heads_fresh(prev, ps, next0, next1)
    &&& forall|k: int| #![trigger ps[k]] 0 <= k < ps.len() ==> ps[k].body == bodies[k].body && ps[k].dir == bodies[k].dir && ps[k].at == bodies[k].at
    &&& forall|k: int| #![trigger ps[k]] 0 <= k < ps.len() && had_head(prev, ps[k].body) ==> prev_head(prev, ps[k].body, ps[k].head)
    &&& forall|k: int| #![trigger ps[k]] 0 <= k < ps.len() && !had_head(prev, ps[k].body) ==> next0 <= ps[k].head < next1
    &&& forall|a: int, b: int| 0 <= a < b < ps.len() && !had_head(prev, ps[a].body) && !had_head(prev, ps[b].body) ==> ps[a].head < ps[b].head
}

/// Gives each body its former head, or else the next fresh identity.
pub fn assign_heads(bodies: &Vec<DeformPusher>, prev: &Vec<(BlockId, BlockId)>, next: &mut u64) -> (r: Vec<DeformPusher>)
    requires
        *old(next) + bodies@.len() <= u64::MAX,
    ensures
        heads_given(prev@, bodies@, r@, *old(next), *final(next)),
        *final(next) <= *old(next) + bodies@.len(),
{
    let ghost n0 = *next;
    let mut r: Vec<DeformPusher> = Vec::new();
    let mut k: usize = 0;
    while k < bodies.len()
        invariant
            n0 + bodies@.len() <= u64::MAX,
            k <= bodies@.len(),
            n0 <= *next <= n0 + k,
            r@.len() == k,
            forall|j: int| #![trigger r@[j]] 0 <= j < k ==> r@[j].body == bodies@[j].body && r@[j].dir == bodies@[j].dir && r@[j].at == bodies@[j].at,
            forall|j: int| #![trigger r@[j]] 0 <= j < k && had_head(prev@, r@[j].body) ==> prev_head(prev@, r@[j].body, r@[j].head),
            forall|j: int| #![trigger r@[j]] 0 <= j < k && !had_head(prev@, r@[j].body) ==> n0 <= r@[j].head < *next,
            forall|a: int, b: int| 0 <= a < b < k && !had_head(prev@, r@[a].body) && !had_head(prev@, r@[b].body) ==> r@[a].head < r@[b].head,
        decreases bodies@.len() - k,
    {
        let p = bodies[k];
        let mut found: Option<u64> = None;
        let mut i: usize = 0;
        while i < prev.len()
            invariant
                i <= prev@.len(),
                match found {
                    Some(h) => prev_head(prev@, p.body, h),
                    None => forall|j: int| 0 <= j < i ==> (#[trigger] prev@[j]).0.0 != p.body,
                },
            decreases prev@.len() - i,
        {
            if found.is_none() && prev[i].0.0 == p.body {
                found = Some(prev[i].1.0);
                proof {
                    assert(prev_head(prev@, p.body, prev@[i as int].1.0));
                }
            }
            i = i + 1;
        }
        let head = match found {
            Some(h) => h,
            None => {
                let h = *next;
                *next = *next + 1;
                h
            },
        };
        proof {
            match found {
                Some(h) => {
                    assert(had_head(prev@, p.body));
                },
                None => {
                    assert(!had_head(prev@, p.body)) by {
                        if had_head(prev@, p.body) {
                            let h = choose|h: u64| #[trigger] prev_head(prev@, p.body, h);
                            let j = choose|j: int| #![trigger prev@[j]] 0 <= j < prev@.len() && prev@[j].0.0 == p.body && prev@[j].1.0 == h
                                && forall|j2: int| 0 <= j2 < j ==> (#[trigger] prev@[j2]).0.0 != p.body;
                        }
                    }
                },
            }
        }
        let ghost r0 = r@;
        r.push(DeformPusher { body: p.body, head, dir: p.dir, at: p.at });
        proof {
            assert forall|j: int| 0 <= j < k implies #[trigger] r@[j] == r0[j] by {}
            assert forall|a: int, b: int| 0 <= a < b < k + 1 && !had_head(prev@, r@[a].body) && !had_head(prev@, r@[b].body) implies r@[a].head < r@[b].head by {
                if b == k {
                    assert(r@[a] == r0[a]);
                }
            }
        }
        k = k + 1;
    }
    r
}


/// What factory connectivity reads of a block.
pub open spec fn link_of(b: DeformBlock) -> FactoryLink {
    FactoryLink { head: b.head, sealed: b.sealed }
}

/// The factory connectivity view of the blocks.
pub fn factory_view(m: &CellMap<DeformBlock>) -> (r: CellMap<FactoryLink>)
    requires
        m.wf(),
    ensures
        r.wf(),
        r@ == m@.map_values(|b: DeformBlock| link_of(b)),
{
    let keys = m.keys();
    let mut r: CellMap<FactoryLink> = CellMap::new();
    let mut i: usize = 0;
    while i < keys.len()
        invariant
            m.wf(),
            r.wf(),
            keys@.to_set() == m@.dom(),
            i <= keys@.len(),
            forall|c: Cell| #[trigger] r@.contains_key(c) <==> keys@.take(i as int).contains(c),
            forall|c: Cell| #[trigger] r@.contains_key(c) ==> m@.contains_key(c) && r@[c] == link_of(m@[c]),
        decreases keys@.len() - i,
    {
        let c = keys[i];
        proof {
            assert(keys@.to_set().contains(c));
        }
        let b = m.get(c).unwrap();
        r.insert(c, FactoryLink { head: b.head, sealed: b.sealed });
        proof {
            assert forall|x: Cell| #[trigger] r@.contains_key(x) <==> keys@.take(i + 1).contains(x) by {
                if keys@.take(i + 1).contains(x) {
                    let u = choose|u: int| 0 <= u < i + 1 && #[trigger] keys@.take(i + 1)[u] == x;
                    if u < i {
                        assert(keys@.take(i as int)[u] == x);
                    }
                }
                if keys@.take(i as int).contains(x) {
                    let u = choose|u: int| 0 <= u < i && #[trigger] keys@.take(i as int)[u] == x;
                    assert(keys@.take(i + 1)[u] == x);
                }
                if x == c {
                    assert(keys@.take(i + 1)[i as int] == x);
                }
            }
        }
        i = i + 1;
    }
    proof {
        assert(keys@.take(i as int) =~= keys@);
        assert forall|c: Cell| #[trigger] m@.contains_key(c) implies r@.contains_key(c) by {
            assert(keys@.to_set().contains(c));
        }
        assert(r@ =~= m@.map_values(|b: DeformBlock| link_of(b)));
    }
    r
}

} // verus!
