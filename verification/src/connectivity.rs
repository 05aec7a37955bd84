//! Welded material structures: flood fill over the weld graph.
use vstd::prelude::*;

use std::collections::HashSet;

use crate::cell::Cell;
use crate::cellmap::{CellMap, CellSet};
use crate::ids::{BlockId, MaterialWeld};

verus! {

/// Some weld joins `x` and `y`.
pub open spec fn welded(welds: Seq<MaterialWeld>, x: u64, y: u64) -> bool {
    exists|i: int|
        0 <= i < welds.len() && ((#[trigger] welds[i].a.0 == x && welds[i].b.0 == y) || (
        welds[i].b.0 == x && welds[i].a.0 == y))
}

/// Identities of the material blocks (unassigned identities excluded).
pub open spec fn material_ids(m: Map<Cell, BlockId>) -> Set<u64> {
    Set::new(|id: u64| id != 0 && exists|p: Cell| #[trigger] m.contains_key(p) && m[p].0 == id)
}

/// Every material identity is held by one cell only.
pub open spec fn ids_unique(m: Map<Cell, BlockId>) -> bool {
    forall|p: Cell, q: Cell|
        #![trigger m[p], m[q]]
        m.contains_key(p) && m.contains_key(q) && p != q && m[p].0 != 0 ==> m[p] != m[q]
}

/// `path` walks from material to material along welds.
pub open spec fn is_weld_path(welds: Seq<MaterialWeld>, ids: Set<u64>, path: Seq<u64>) -> bool {
    &&& path.len() >= 1
    &&& forall|i: int| 0 <= i < path.len() ==> ids.contains(#[trigger] path[i])
    &&& forall|i: int| 0 <= i < path.len() - 1 ==> welded(welds, #[trigger] path[i], path[i + 1])
}

/// `t` is reached from `s` through welded materials.
pub open spec fn weld_reachable(welds: Seq<MaterialWeld>, ids: Set<u64>, s: u64, t: u64) -> bool {
    exists|path: Seq<u64>| #[trigger]
        is_weld_path(welds, ids, path) && path[0] == s && path.last() == t
}

/// Cells of the welded material structure holding `start` (empty when `start` holds no
/// material with an assigned identity).
pub open spec fn material_structure_spec(m: Map<Cell, BlockId>, welds: Seq<MaterialWeld>, start: Cell) -> Set<Cell> {
    if m.contains_key(start) && m[start].0 != 0 {
        Set::new(
            |p: Cell|
                m.contains_key(p) && m[p].0 != 0 && weld_reachable(welds, material_ids(m), m[start].0, m[p].0),
        )
    } else {
        Set::empty()
    }
}

/// A set of materials holding `s` and closed under welds to materials holds all that
/// `s` reaches.
proof fn lemma_closed_contains_reachable(welds: Seq<MaterialWeld>, ids: Set<u64>, s: u64, found: Set<u64>, path: Seq<u64>)
    requires
        found.contains(s),
        forall|x: u64, y: u64| #![trigger found.contains(x), welded(welds, x, y)]
            found.contains(x) && welded(welds, x, y) && ids.contains(y) ==> found.contains(y),
        is_weld_path(welds, ids, path),
        path[0] == s,
    ensures
        found.contains(path.last()),
    decreases path.len(),
{
    if path.len() > 1 {
        let prefix = path.drop_last();
        assert(is_weld_path(welds, ids, prefix)) by {
            assert forall|i: int| 0 <= i < prefix.len() implies ids.contains(#[trigger] prefix[i]) by {
                assert(prefix[i] == path[i]);
            }
            assert forall|i: int| 0 <= i < prefix.len() - 1 implies welded(welds, #[trigger] prefix[i], prefix[i + 1]) by {
                assert(prefix[i] == path[i]);
                assert(prefix[i + 1] == path[i + 1]);
            }
        }
        lemma_closed_contains_reachable(welds, ids, s, found, prefix);
        let k = path.len() - 2;
        assert(welded(welds, path[k], path[k + 1]));
        assert(ids.contains(path[k + 1]));
        assert(found.contains(path[k]));
    }
}

/// Extends a weld path by one welded material.
proof fn lemma_path_extend(welds: Seq<MaterialWeld>, ids: Set<u64>, s: u64, x: u64, y: u64)
    requires
        weld_reachable(welds, ids, s, x),
        welded(welds, x, y),
        ids.contains(y),
    ensures
        weld_reachable(welds, ids, s, y),
{
    let path = choose|path: Seq<u64>| #[trigger] is_weld_path(welds, ids, path) && path[0] == s && path.last() == x;
    let p2 = path.push(y);
    assert(p2[0] == s);
    assert(p2.last() == y);
    assert forall|i: int| 0 <= i < p2.len() implies ids.contains(#[trigger] p2[i]) by {
        if i < path.len() {
            assert(p2[i] == path[i]);
        }
    }
    assert forall|i: int| 0 <= i < p2.len() - 1 implies welded(welds, #[trigger] p2[i], p2[i + 1]) by {
        assert(p2[i] == path[i]);
        if i < path.len() - 1 {
            assert(p2[i + 1] == path[i + 1]);
        } else {
            assert(p2[i + 1] == y);
        }
    }
    assert(is_weld_path(welds, ids, p2));
}

proof fn lemma_ids_finite(m: Map<Cell, BlockId>)
    requires
        m.dom().finite(),
    ensures
        material_ids(m).finite(),
{
    let img = m.dom().map(|p: Cell| m[p].0);
    vstd::set_lib::lemma_map_size_bound(m.dom(), img, |p: Cell| m[p].0);
    assert(material_ids(m).subset_of(img)) by {
        assert forall|id: u64| material_ids(m).contains(id) implies img.contains(id) by {
            let p = choose|p: Cell| #[trigger] m.contains_key(p) && m[p].0 == id;
            assert(m.dom().contains(p));
        }
    }
    vstd::set_lib::lemma_len_subset(material_ids(m), img);
}

/// Cell holding the material with identity `id`.
pub(crate) fn pos_of_id(materials: &CellMap<BlockId>, id: u64) -> (r: Option<Cell>)
    requires
        materials.wf(),
        ids_unique(materials@),
        id != 0,
    ensures
        r matches Some(p) ==> materials@.contains_key(p) && materials@[p].0 == id,
        r is None ==> !material_ids(materials@).contains(id),
{
    let keys = materials.keys();
    let mut i: usize = 0;
    while i < keys.len()
        invariant
            materials.wf(),
            keys@.to_set() == materials@.dom(),
            i <= keys@.len(),
            forall|j: int| 0 <= j < i ==> materials@[#[trigger] keys@[j]].0 != id,
        decreases keys@.len() - i,
    {
        let b = materials.get(keys[i]).unwrap();
        assert(materials@.dom().contains(keys@[i as int]));
        if b.0 == id {
            return Some(keys[i]);
        }
        i = i + 1;
    }
    assert forall|p: Cell| #[trigger] materials@.contains_key(p) implies materials@[p].0 != id by {
        assert(keys@.to_set().contains(p));
        let j = choose|j: int| 0 <= j < keys@.len() && keys@[j] == p;
    }
    None
}

/// Cells of the welded material structure holding `start`: every material reached from
/// it through welds.  Empty when `start` holds no material with an assigned identity.
pub fn material_structure(materials: &CellMap<BlockId>, welds: &[MaterialWeld], start: Cell) -> (r: CellSet)
    requires
        materials.wf(),
        ids_unique(materials@),
    ensures
        r.wf(),
        r@ == material_structure_spec(materials@, welds@, start),
{
    let ghost m = materials@;
    let ghost ids = material_ids(m);
    let start_id = match materials.get(start) {
        Some(b) => {
            if b.is_none() {
                return CellSet::new();
            }
            b.0
        },
        None => return CellSet::new(),
    };
    let ghost target = material_structure_spec(m, welds@, start);
    let mut structure = CellSet::new();
    structure.insert(start);
    let mut seen: HashSet<u64> = HashSet::new();
    seen.insert(start_id);
    let mut queue: Vec<u64> = Vec::new();
    queue.push(start_id);
    proof {
        assert(ids.contains(start_id));
        materials.lemma_view_finite();
        lemma_ids_finite(m);
        assert(queue@.to_set() =~= seen@.intersect(ids)) by {
            assert(queue@ =~= seq![start_id]);
            assert(queue@[0] == start_id);
        }
        vstd::set_lib::lemma_len_subset(queue@.to_set(), ids);
        queue@.unique_seq_to_set();
        let path = seq![start_id];
        assert(is_weld_path(welds@, ids, path));
        assert(weld_reachable(welds@, ids, start_id, start_id));
    }
    let mut head: usize = 0;
    while head < queue.len()
        invariant
            materials.wf(),
            m == materials@,
            ids == material_ids(m),
            ids_unique(m),
            m.contains_key(start) && m[start].0 == start_id && start_id != 0,
            structure.wf(),
            head <= queue@.len(),
            ids.finite(),
            queue@.len() <= ids.len(),
            queue@.no_duplicates(),
            queue@.to_set() == seen@.intersect(ids),
            seen@.contains(start_id),
            forall|x: u64| #[trigger] seen@.contains(x) && ids.contains(x) ==> weld_reachable(welds@, ids, start_id, x),
            forall|p: Cell| #[trigger] structure@.contains(p) <==> (m.contains_key(p) && m[p].0 != 0 && seen@.contains(m[p].0)),
            forall|j: int, y: u64| 0 <= j < head && welded(welds@, #[trigger] queue@[j], y) && ids.contains(y) ==> #[trigger] seen@.contains(y),
        decreases ids.len() - head,
    {
        let id = queue[head];
        let mut w: usize = 0;
        while w < welds.len()
            invariant
                materials.wf(),
                m == materials@,
                ids == material_ids(m),
                ids_unique(m),
                structure.wf(),
                head < queue@.len(),
                id == queue@[head as int],
                w <= welds@.len(),
                ids.finite(),
                queue@.len() <= ids.len(),
                queue@.no_duplicates(),
                queue@.to_set() == seen@.intersect(ids),
                seen@.contains(start_id),
                forall|x: u64| #[trigger] seen@.contains(x) && ids.contains(x) ==> weld_reachable(welds@, ids, start_id, x),
                forall|p: Cell| #[trigger] structure@.contains(p) <==> (m.contains_key(p) && m[p].0 != 0 && seen@.contains(m[p].0)),
                forall|j: int, y: u64| 0 <= j < head && welded(welds@, #[trigger] queue@[j], y) && ids.contains(y) ==> #[trigger] seen@.contains(y),
                forall|k: int, y: u64| #![trigger welds@[k], seen@.contains(y)] 0 <= k < w && ((welds@[k].a.0 == id && welds@[k].b.0 == y) || (welds@[k].b.0 == id && welds@[k].a.0 == y)) && ids.contains(y) ==> seen@.contains(y),
            decreases welds@.len() - w,
        {
            let weld = welds[w];
            let mut k: usize = 0;
            while k < 2
                invariant
                    materials.wf(),
                    m == materials@,
                    ids == material_ids(m),
                    ids_unique(m),
                    structure.wf(),
                    head < queue@.len(),
                    id == queue@[head as int],
                    w < welds@.len(),
                    weld == welds@[w as int],
                    k <= 2,
                    ids.finite(),
                    queue@.len() <= ids.len(),
                    queue@.no_duplicates(),
                    queue@.to_set() == seen@.intersect(ids),
                    seen@.contains(start_id),
                    forall|x: u64| #[trigger] seen@.contains(x) && ids.contains(x) ==> weld_reachable(welds@, ids, start_id, x),
                    forall|p: Cell| #[trigger] structure@.contains(p) <==> (m.contains_key(p) && m[p].0 != 0 && seen@.contains(m[p].0)),
                    forall|j: int, y: u64| 0 <= j < head && welded(welds@, #[trigger] queue@[j], y) && ids.contains(y) ==> #[trigger] seen@.contains(y),
                    forall|q: int, y: u64| #![trigger welds@[q], seen@.contains(y)] 0 <= q < w && ((welds@[q].a.0 == id && welds@[q].b.0 == y) || (welds@[q].b.0 == id && welds@[q].a.0 == y)) && ids.contains(y) ==> seen@.contains(y),
                    k >= 1 ==> (weld.a.0 == id && ids.contains(weld.b.0) ==> seen@.contains(weld.b.0)),
                    k >= 2 ==> (weld.b.0 == id && ids.contains(weld.a.0) ==> seen@.contains(weld.a.0)),
                decreases 2 - k,
            {
                let (from, other) = if k == 0 { (weld.a.0, weld.b.0) } else { (weld.b.0, weld.a.0) };
                if from == id && !seen.contains(&other) {
                    proof {
                        assert(queue@.to_set().contains(id)) by {
                            assert(queue@[head as int] == id);
                        }
                        assert(seen@.contains(id) && ids.contains(id));
                        assert(weld_reachable(welds@, ids, start_id, id));
                    }
                    seen.insert(other);
                    if other != 0 {
                        match pos_of_id(materials, other) {
                            Some(neighbor) => {
                                proof {
                                    assert(ids.contains(other));
                                    assert(welded(welds@, id, other)) by {
                                        assert(welds@[w as int] == weld);
                                    }
                                    lemma_path_extend(welds@, ids, start_id, id, other);
                                }
                                let ghost s0 = structure@;
                                structure.insert(neighbor);
                                let ghost q0 = queue@;
                                queue.push(other);
                                proof {
                                    q0.lemma_push_to_set_commute(other);
                                    assert(queue@.to_set() =~= seen@.intersect(ids));
                                    assert(!q0.contains(other)) by {
                                        if q0.contains(other) {
                                            assert(q0.to_set().contains(other));
                                        }
                                    }
                                    assert(queue@.no_duplicates()) by {
                                        assert forall|a: int, b: int| 0 <= a < queue@.len() && 0 <= b < queue@.len() && a != b implies queue@[a] != queue@[b] by {
                                            if a < q0.len() && b < q0.len() {
                                                assert(queue@[a] == q0[a] && queue@[b] == q0[b]);
                                            } else if a < q0.len() {
                                                assert(queue@[a] == q0[a]);
                                                assert(q0.contains(q0[a]));
                                            } else if b < q0.len() {
                                                assert(queue@[b] == q0[b]);
                                                assert(q0.contains(q0[b]));
                                            }
                                        }
                                    }
                                    queue@.unique_seq_to_set();
                                    vstd::set_lib::lemma_len_subset(queue@.to_set(), ids);
                                    assert forall|p: Cell| #[trigger] structure@.contains(p) <==> (m.contains_key(p) && m[p].0 != 0 && seen@.contains(m[p].0)) by {
                                        if m.contains_key(p) && m[p].0 == other && p != neighbor {
                                            assert(m[p] != m[neighbor]);
                                        }
                                    }
                                    assert forall|j: int, y: u64| 0 <= j < head && welded(welds@, #[trigger] queue@[j], y) && ids.contains(y) implies #[trigger] seen@.contains(y) by {
                                        assert(queue@[j] == q0[j]);
                                    }
                                }
                            },
                            None => {
                                proof {
                                    assert(!ids.contains(other));
                                    assert(seen@.intersect(ids) =~= queue@.to_set());
                                    assert forall|p: Cell| #[trigger] structure@.contains(p) <==> (m.contains_key(p) && m[p].0 != 0 && seen@.contains(m[p].0)) by {
                                        if m.contains_key(p) && m[p].0 == other {
                                            assert(ids.contains(other));
                                        }
                                    }
                                }
                            },
                        }
                    } else {
                        proof {
                            assert(!ids.contains(other));
                            assert(seen@.intersect(ids) =~= queue@.to_set());
                        }
                    }
                }
                k = k + 1;
            }
            proof {
                assert forall|q: int, y: u64| #![trigger welds@[q], seen@.contains(y)] 0 <= q < w + 1 && ((welds@[q].a.0 == id && welds@[q].b.0 == y) || (welds@[q].b.0 == id && welds@[q].a.0 == y)) && ids.contains(y) implies seen@.contains(y) by {
                    if q == w {
                        assert(welds@[q] == weld);
                    }
                }
            }
            w = w + 1;
        }
        proof {
            assert forall|j: int, y: u64| 0 <= j < head + 1 && welded(welds@, #[trigger] queue@[j], y) && ids.contains(y) implies #[trigger] seen@.contains(y) by {
                if j == head {
                    let q = choose|q: int| 0 <= q < welds@.len() && ((#[trigger] welds@[q]).a.0 == id && welds@[q].b.0 == y || welds@[q].b.0 == id && welds@[q].a.0 == y);
                }
            }
            queue@.unique_seq_to_set();
        }
        head = head + 1;
    }
    proof {
        let found = seen@.intersect(ids);
        assert forall|x: u64, y: u64| #![trigger found.contains(x), welded(welds@, x, y)]
            found.contains(x) && welded(welds@, x, y) && ids.contains(y) implies found.contains(y) by {
            assert(queue@.to_set().contains(x));
            let j = choose|j: int| 0 <= j < queue@.len() && queue@[j] == x;
        }
        assert(found.contains(start_id));
        assert forall|p: Cell| structure@.contains(p) <==> target.contains(p) by {
            if target.contains(p) {
                let path = choose|path: Seq<u64>| #[trigger] is_weld_path(welds@, ids, path) && path[0] == start_id && path.last() == m[p].0;
                lemma_closed_contains_reachable(welds@, ids, start_id, found, path);
            }
        }
        assert(structure@ =~= target);
    }
    structure
}

/// Every material reaches itself.
pub proof fn lemma_reachable_refl(welds: Seq<MaterialWeld>, ids: Set<u64>, s: u64)
    requires
        ids.contains(s),
    ensures
        weld_reachable(welds, ids, s, s),
{
    let path = seq![s];
    assert(is_weld_path(welds, ids, path));
}

proof fn lemma_path_reverse(welds: Seq<MaterialWeld>, ids: Set<u64>, path: Seq<u64>)
    requires
        is_weld_path(welds, ids, path),
    ensures
        weld_reachable(welds, ids, path.last(), path[0]),
    decreases path.len(),
{
    if path.len() == 1 {
        lemma_reachable_refl(welds, ids, path[0]);
    } else {
        let rest = path.subrange(1, path.len() as int);
        assert(is_weld_path(welds, ids, rest)) by {
            assert forall|i: int| 0 <= i < rest.len() implies ids.contains(#[trigger] rest[i]) by {
                assert(rest[i] == path[i + 1]);
            }
            assert forall|i: int| 0 <= i < rest.len() - 1 implies welded(welds, #[trigger] rest[i], rest[i + 1]) by {
                assert(rest[i] == path[i + 1]);
                assert(rest[i + 1] == path[i + 2]);
            }
        }
        lemma_path_reverse(welds, ids, rest);
        assert(rest.last() == path.last());
        assert(welded(welds, path[0], path[1]));
        assert(welded(welds, path[1], path[0])) by {
            let i = choose|i: int| 0 <= i < welds.len() && ((#[trigger] welds[i].a.0 == path[0] && welds[i].b.0 == path[1]) || (
                welds[i].b.0 == path[0] && welds[i].a.0 == path[1]));
        }
        assert(ids.contains(path[0]));
        lemma_path_extend(welds, ids, path.last(), path[1], path[0]);
    }
}

/// Reaching through welds goes both ways.
pub proof fn lemma_reachable_symmetric(welds: Seq<MaterialWeld>, ids: Set<u64>, s: u64, t: u64)
    requires
        weld_reachable(welds, ids, s, t),
    ensures
        weld_reachable(welds, ids, t, s),
{
    let path = choose|path: Seq<u64>| #[trigger] is_weld_path(welds, ids, path) && path[0] == s && path.last() == t;
    lemma_path_reverse(welds, ids, path);
}

proof fn lemma_reachable_along(welds: Seq<MaterialWeld>, ids: Set<u64>, s: u64, path: Seq<u64>)
    requires
        is_weld_path(welds, ids, path),
        weld_reachable(welds, ids, s, path[0]),
    ensures
        weld_reachable(welds, ids, s, path.last()),
    decreases path.len(),
{
    if path.len() > 1 {
        let prefix = path.drop_last();
        assert(is_weld_path(welds, ids, prefix)) by {
            assert forall|i: int| 0 <= i < prefix.len() implies ids.contains(#[trigger] prefix[i]) by {
                assert(prefix[i] == path[i]);
            }
            assert forall|i: int| 0 <= i < prefix.len() - 1 implies welded(welds, #[trigger] prefix[i], prefix[i + 1]) by {
                assert(prefix[i] == path[i]);
                assert(prefix[i + 1] == path[i + 1]);
            }
        }
        lemma_reachable_along(welds, ids, s, prefix);
        let k = path.len() - 2;
        assert(welded(welds, path[k], path[k + 1]));
        lemma_path_extend(welds, ids, s, path[k], path[k + 1]);
    }
}

/// Reaching through welds chains.
pub proof fn lemma_reachable_transitive(welds: Seq<MaterialWeld>, ids: Set<u64>, s: u64, t: u64, u: u64)
    requires
        weld_reachable(welds, ids, s, t),
        weld_reachable(welds, ids, t, u),
    ensures
        weld_reachable(welds, ids, s, u),
{
    let path = choose|path: Seq<u64>| #[trigger] is_weld_path(welds, ids, path) && path[0] == t && path.last() == u;
    lemma_reachable_along(welds, ids, s, path);
}

/// Every material of a welded structure has that same structure.
pub proof fn lemma_structure_of_member(m: Map<Cell, BlockId>, welds: Seq<MaterialWeld>, s: Cell, q: Cell)
    requires
        material_structure_spec(m, welds, s).contains(q),
    ensures
        material_structure_spec(m, welds, q) == material_structure_spec(m, welds, s),
{
    let ids = material_ids(m);
    assert(m.contains_key(s) && m[s].0 != 0);
    assert(weld_reachable(welds, ids, m[s].0, m[q].0));
    lemma_reachable_symmetric(welds, ids, m[s].0, m[q].0);
    assert forall|p: Cell| material_structure_spec(m, welds, q).contains(p) <==> material_structure_spec(m, welds, s).contains(p) by {
        if material_structure_spec(m, welds, q).contains(p) {
            lemma_reachable_transitive(welds, ids, m[s].0, m[q].0, m[p].0);
        }
        if material_structure_spec(m, welds, s).contains(p) {
            lemma_reachable_transitive(welds, ids, m[q].0, m[s].0, m[p].0);
        }
    }
    assert(material_structure_spec(m, welds, q) =~= material_structure_spec(m, welds, s));
}

/// A material with an identity belongs to its own welded structure.
pub proof fn lemma_structure_holds_start(m: Map<Cell, BlockId>, welds: Seq<MaterialWeld>, s: Cell)
    requires
        m.contains_key(s),
        m[s].0 != 0,
    ensures
        material_structure_spec(m, welds, s).contains(s),
{
    let ids = material_ids(m);
    assert(ids.contains(m[s].0));
    lemma_reachable_refl(welds, ids, m[s].0);
}


/// `s` is closed under welds: with a material (with an identity) it holds every
/// material welded to it.
pub open spec fn weld_closed(m: Map<Cell, BlockId>, welds: Seq<MaterialWeld>, s: Set<Cell>) -> bool {
    forall|p: Cell, q: Cell| #![trigger s.contains(p), welded(welds, m[p].0, m[q].0)]
        s.contains(p) && m.contains_key(p) && m.contains_key(q) && m[p].0 != 0 && m[q].0 != 0 && welded(welds, m[p].0, m[q].0)
            ==> s.contains(q)
}

/// The welded structure of `start` holds only materials, is closed under welds, and is
/// the least such set holding `start`; it is empty when `start` holds no material with
/// an identity.
pub proof fn lemma_material_structure_least(m: Map<Cell, BlockId>, welds: Seq<MaterialWeld>, start: Cell, s: Set<Cell>)
    requires
        ids_unique(m),
    ensures
        forall|q: Cell| #[trigger] material_structure_spec(m, welds, start).contains(q) ==> m.contains_key(q),
        weld_closed(m, welds, material_structure_spec(m, welds, start)),
        !(m.contains_key(start) && m[start].0 != 0) ==> material_structure_spec(m, welds, start) == Set::<Cell>::empty(),
        m.contains_key(start) && m[start].0 != 0 && s.contains(start) && weld_closed(m, welds, s) ==> material_structure_spec(
            m,
            welds,
            start,
        ).subset_of(s),
{
    let r = material_structure_spec(m, welds, start);
    let ids = material_ids(m);
    assert forall|p: Cell, q: Cell| #![trigger r.contains(p), welded(welds, m[p].0, m[q].0)]
        r.contains(p) && m.contains_key(p) && m.contains_key(q) && m[p].0 != 0 && m[q].0 != 0 && welded(welds, m[p].0, m[q].0)
        implies r.contains(q) by {
        assert(ids.contains(m[q].0));
        lemma_path_extend(welds, ids, m[start].0, m[p].0, m[q].0);
    }
    if !(m.contains_key(start) && m[start].0 != 0) {
        assert(r =~= Set::<Cell>::empty());
    }
    if m.contains_key(start) && m[start].0 != 0 && s.contains(start) && weld_closed(m, welds, s) {
        let found = Set::new(|x: u64| x != 0 && exists|c: Cell| #[trigger] s.contains(c) && m.contains_key(c) && m[c].0 == x);
        assert(found.contains(m[start].0));
        assert forall|x: u64, y: u64| #![trigger found.contains(x), welded(welds, x, y)]
            found.contains(x) && welded(welds, x, y) && ids.contains(y) implies found.contains(y) by {
            let c = choose|c: Cell| #[trigger] s.contains(c) && m.contains_key(c) && m[c].0 == x;
            assert(y != 0);
            let q = choose|q: Cell| #[trigger] m.contains_key(q) && m[q].0 == y;
            assert(s.contains(c) && welded(welds, m[c].0, m[q].0));
            assert(s.contains(q));
        }
        assert forall|q: Cell| #[trigger] r.contains(q) implies s.contains(q) by {
            let path = choose|path: Seq<u64>| #[trigger] is_weld_path(welds, ids, path) && path[0] == m[start].0 && path.last()
                == m[q].0;
            lemma_closed_contains_reachable(welds, ids, m[start].0, found, path);
            let c = choose|c: Cell| #[trigger] s.contains(c) && m.contains_key(c) && m[c].0 == m[q].0;
            if c != q {
                assert(m[c] != m[q]);
            }
        }
    }
}
} // verus!
