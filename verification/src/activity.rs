//! Inactivity spreading between factory structures: a factory structure that touches
//! the scene is held by it, and so is every factory structure joined to a held one
//! through an open face.  Held structures are inactive; those touching the scene
//! themselves are also fixed.
use vstd::prelude::*;

use std::collections::HashSet;

use crate::cell::{signal_offsets, signal_offsets_spec, Cell};
use crate::cellmap::{CellMap, CellSet};
use crate::factory::{face_open, far_from_limits, sealed_toward, touches_scene, touches_scene_at, FactoryLink};
use crate::ids::StructureId;
use crate::structure::{FactoryActivity, Structure, StructureFreedom, StructureKind};
use crate::structure_state::{entry_ok, with_activity, StructureState};

verus! {

/// The table holds a factory structure under `k`.
pub open spec fn is_factory_entry(t: Map<u64, Structure>, k: u64) -> bool {
    t.contains_key(k) && t[k].kind == StructureKind::Factory
}

/// The cell `p` of structure `a` faces, through an open face along `o`, a cell that
/// structure `b` owns.
pub open spec fn touch_via(
    t: Map<u64, Structure>,
    idx: Map<Cell, StructureId>,
    v: Map<Cell, FactoryLink>,
    a: u64,
    b: u64,
    p: Cell,
    o: Cell,
) -> bool {
    &&& t[a].positions@.contains(p)
    &&& idx.contains_key(p.plus(o))
    &&& idx[p.plus(o)].0 == b
    &&& face_open(v, p, p.plus(o), o)
}

/// The factory structures `a` and `b` touch through an open face.
pub open spec fn structures_touch(
    t: Map<u64, Structure>,
    idx: Map<Cell, StructureId>,
    v: Map<Cell, FactoryLink>,
    a: u64,
    b: u64,
) -> bool {
    &&& is_factory_entry(t, a)
    &&& is_factory_entry(t, b)
    &&& exists|p: Cell, i: int| 0 <= i < 6 && #[trigger] touch_via(t, idx, v, a, b, p, signal_offsets_spec()[i])
}

/// The factory structure `k` touches the scene itself.
pub open spec fn scene_anchored(t: Map<u64, Structure>, v: Map<Cell, FactoryLink>, scene: Set<Cell>, k: u64) -> bool {
    &&& is_factory_entry(t, k)
    &&& exists|c: Cell| #[trigger] t[k].positions@.contains(c) && touches_scene_at(v, scene, c)
}

/// `path` goes from factory structure to factory structure through touching faces.
pub open spec fn is_touch_path(
    t: Map<u64, Structure>,
    idx: Map<Cell, StructureId>,
    v: Map<Cell, FactoryLink>,
    path: Seq<u64>,
) -> bool {
    &&& path.len() >= 1
    &&& forall|i: int| 0 <= i < path.len() - 1 ==> structures_touch(t, idx, v, #[trigger] path[i], path[i + 1])
}

/// The factory structure `k` is held by the scene: a chain of touching factory
/// structures leads to it from one that touches the scene.
pub open spec fn held_by_scene(
    t: Map<u64, Structure>,
    idx: Map<Cell, StructureId>,
    v: Map<Cell, FactoryLink>,
    scene: Set<Cell>,
    k: u64,
) -> bool {
    exists|path: Seq<u64>| #[trigger] is_touch_path(t, idx, v, path) && scene_anchored(t, v, scene, path[0]) && path.last() == k
}

/// `after` is the entry `before` (under `k`) once inactivity has spread: a factory
/// structure is inactive exactly when the scene holds it and fixed exactly when it
/// touches the scene; other structures are left as they are.
pub open spec fn propagated(
    before: Structure,
    after: Structure,
    t: Map<u64, Structure>,
    idx: Map<Cell, StructureId>,
    v: Map<Cell, FactoryLink>,
    scene: Set<Cell>,
    k: u64,
) -> bool {
    if before.kind == StructureKind::Factory {
        with_activity(
            before,
            after,
            if held_by_scene(t, idx, v, scene, k) {
                FactoryActivity::Inactive
            } else {
                FactoryActivity::Active
            },
            if scene_anchored(t, v, scene, k) {
                StructureFreedom::Fixed
            } else {
                StructureFreedom::All
            },
        )
    } else {
        after == before
    }
}

proof fn lemma_anchored_held(
    t: Map<u64, Structure>,
    idx: Map<Cell, StructureId>,
    v: Map<Cell, FactoryLink>,
    scene: Set<Cell>,
    k: u64,
)
    requires
        scene_anchored(t, v, scene, k),
    ensures
        held_by_scene(t, idx, v, scene, k),
{
    let path = seq![k];
    assert(is_touch_path(t, idx, v, path));
}

proof fn lemma_held_extend(
    t: Map<u64, Structure>,
    idx: Map<Cell, StructureId>,
    v: Map<Cell, FactoryLink>,
    scene: Set<Cell>,
    a: u64,
    b: u64,
)
    requires
        held_by_scene(t, idx, v, scene, a),
        structures_touch(t, idx, v, a, b),
    ensures
        held_by_scene(t, idx, v, scene, b),
{
    let path = choose|path: Seq<u64>| #[trigger] is_touch_path(t, idx, v, path) && scene_anchored(t, v, scene, path[0]) && path.last() == a;
    let p2 = path.push(b);
    assert forall|i: int| 0 <= i < p2.len() - 1 implies structures_touch(t, idx, v, #[trigger] p2[i], p2[i + 1]) by {
        assert(p2[i] == path[i]);
        if i < path.len() - 1 {
            assert(p2[i + 1] == path[i + 1]);
        }
    }
    assert(is_touch_path(t, idx, v, p2));
}

/// A held structure is a factory structure.
proof fn lemma_held_factory(
    t: Map<u64, Structure>,
    idx: Map<Cell, StructureId>,
    v: Map<Cell, FactoryLink>,
    scene: Set<Cell>,
    k: u64,
)
    requires
        held_by_scene(t, idx, v, scene, k),
    ensures
        is_factory_entry(t, k),
{
    let path = choose|path: Seq<u64>| #[trigger] is_touch_path(t, idx, v, path) && scene_anchored(t, v, scene, path[0]) && path.last() == k;
    if path.len() > 1 {
        let n = path.len() - 1;
        assert(structures_touch(t, idx, v, path[n - 1], path[n]));
    }
}

/// A set that holds every anchored structure and is closed under touching holds
/// every structure at the end of a touch path from an anchored one.
proof fn lemma_closed_holds_held(
    t: Map<u64, Structure>,
    idx: Map<Cell, StructureId>,
    v: Map<Cell, FactoryLink>,
    scene: Set<Cell>,
    s: Set<u64>,
    path: Seq<u64>,
)
    requires
        forall|k: u64| #[trigger] scene_anchored(t, v, scene, k) ==> s.contains(k),
        forall|a: u64, b: u64| #![trigger s.contains(a), structures_touch(t, idx, v, a, b)]
            s.contains(a) && structures_touch(t, idx, v, a, b) ==> s.contains(b),
        is_touch_path(t, idx, v, path),
        scene_anchored(t, v, scene, path[0]),
    ensures
        s.contains(path.last()),
    decreases path.len(),
{
    if path.len() > 1 {
        let prefix = path.drop_last();
        assert(is_touch_path(t, idx, v, prefix)) by {
            assert forall|i: int| 0 <= i < prefix.len() - 1 implies structures_touch(t, idx, v, #[trigger] prefix[i], prefix[i + 1]) by {
                assert(prefix[i] == path[i]);
                assert(prefix[i + 1] == path[i + 1]);
            }
        }
        lemma_closed_holds_held(t, idx, v, scene, s, prefix);
        let n = path.len() - 1;
        assert(structures_touch(t, idx, v, path[n - 1], path[n]));
        assert(s.contains(path[n - 1]));
    }
}


/// `after` is `before` with inactivity spread from the scene (see `propagated`).
pub open spec fn all_propagated(before: StructureState, after: StructureState, v: Map<Cell, FactoryLink>, scene: Set<Cell>) -> bool {
    &&& after.wf()
    &&& after.index() == before.index()
    &&& after.last_id() == before.last_id()
    &&& after.held() == before.held()
    &&& after.moving() == before.moving()
    &&& after.table().dom() == before.table().dom()
    &&& after.head_counter() == before.head_counter()
    &&& after.acceptors() == before.acceptors()
    &&& forall|k: u64| #[trigger] before.table().contains_key(k) ==> propagated(
        before.table()[k],
        after.table()[k],
        before.table(),
        before.index(),
        v,
        scene,
        k,
    )
}

impl StructureState {
    /// Spreads inactivity from the factory structures touching the scene to every
    /// factory structure joined to them, directly or through others, by an open face
    /// (see `propagated`).  Cells, identities and the other structures are kept.
    #[verifier::rlimit(100)]
    pub fn apply_factory_inactive_propagation(&mut self, view: &CellMap<FactoryLink>, scene: &CellSet)
        requires
            old(self).wf(),
            view.wf(),
            scene.wf(),
            forall|p: Cell| #[trigger] old(self).index().contains_key(p) ==> far_from_limits(p),
        ensures
            final(self).wf(),
            final(self).index() == old(self).index(),
            final(self).last_id() == old(self).last_id(),
            final(self).held() == old(self).held(),
            final(self).moving() == old(self).moving(),
            final(self).table().dom() == old(self).table().dom(),
            final(self).head_counter() == old(self).head_counter(),
            final(self).acceptors() == old(self).acceptors(),
            forall|k: u64| #[trigger] old(self).table().contains_key(k) ==> propagated(
                old(self).table()[k],
                final(self).table()[k],
                old(self).table(),
                old(self).index(),
                view@,
                scene@,
                k,
            ),
    {
        proof {
            self.lemma_wf_facts();
        }
        let ghost t = self.table();
        let ghost idx = self.index();
        let ghost v = view@;
        let ghost sc = scene@;
        let ids = self.structure_ids();
        let offsets = signal_offsets();
        let mut inactive: HashSet<u64> = HashSet::new();
        let mut queue: Vec<u64> = Vec::new();
        let mut i: usize = 0;
        while i < ids.len()
            invariant
                self.wf(),
                self.table() == t,
                self.index() == idx,
                view.wf(),
                scene.wf(),
                v == view@,
                sc == scene@,
                forall|p: Cell| #[trigger] idx.contains_key(p) ==> far_from_limits(p),
                ids@.no_duplicates(),
                forall|id: StructureId| ids@.contains(id) <==> t.contains_key(id.0),
                i <= ids@.len(),
                queue@.no_duplicates(),
                inactive@ == queue@.to_set(),
                forall|j: int| 0 <= j < queue@.len() ==> is_factory_entry(t, #[trigger] queue@[j]) && held_by_scene(t, idx, v, sc, queue@[j]),
                forall|j: int| 0 <= i && 0 <= j < i ==> (#[trigger] scene_anchored(t, v, sc, ids@[j].0) ==> inactive@.contains(ids@[j].0)),
                forall|k: u64| #[trigger] inactive@.contains(k) ==> exists|j: int| 0 <= j < i && ids@[j].0 == k,
            decreases ids@.len() - i,
        {
            let id = ids[i];
            proof {
                assert(ids@.contains(id));
            }
            let s = self.get(id).unwrap();
            if s.kind == StructureKind::Factory {
                proof {
                    self.lemma_entry(id.0);
                    assert forall|c: Cell| #[trigger] s.positions@.contains(c) implies far_from_limits(c) by {
                        assert(idx.contains_key(c));
                    }
                }
                if touches_scene(view, scene, &s.positions) {
                    proof {
                        assert(scene_anchored(t, v, sc, id.0));
                        lemma_anchored_held(t, idx, v, sc, id.0);
                        assert(!inactive@.contains(id.0)) by {
                            if inactive@.contains(id.0) {
                                let j = choose|j: int| 0 <= j < i && ids@[j].0 == id.0;
                                assert(ids@[j] == ids@[i as int]);
                            }
                        }
                    }
                    let ghost q0 = queue@;
                    inactive.insert(id.0);
                    queue.push(id.0);
                    proof {
                        q0.lemma_push_to_set_commute(id.0);
                        assert(!q0.contains(id.0)) by {
                            if q0.contains(id.0) {
                                assert(q0.to_set().contains(id.0));
                            }
                        }
                        assert(queue@.no_duplicates()) by {
                            assert forall|a: int, b: int| 0 <= a < queue@.len() && 0 <= b < queue@.len() && a != b implies queue@[a] != queue@[b] by {
                                if a < q0.len() && b < q0.len() {
                                    assert(queue@[a] == q0[a] && queue@[b] == q0[b]);
                                } else if a < q0.len() {
                                    assert(queue@[a] == q0[a]);
                                    assert(q0.contains(q0[a]));
                                } else if b < q0.len() {
                                    assert(queue@[b] == q0[b]);
                                    assert(q0.contains(q0[b]));
                                }
                            }
                        }
                        assert forall|j: int| 0 <= j < queue@.len() implies is_factory_entry(t, #[trigger] queue@[j]) && held_by_scene(t, idx, v, sc, queue@[j]) by {
                            if j < q0.len() {
                                assert(queue@[j] == q0[j]);
                            }
                        }
                    }
                }
            }
            proof {
                assert forall|k: u64| #[trigger] inactive@.contains(k) implies exists|j: int| 0 <= j < i + 1 && ids@[j].0 == k by {
                    if k != id.0 || !(exists|j: int| 0 <= j < i && ids@[j].0 == k) {
                        if k == id.0 {
                            assert(ids@[i as int].0 == k);
                        } else {
                            let j = choose|j: int| 0 <= j < i && ids@[j].0 == k;
                            assert(0 <= j < i + 1);
                        }
                    } else {
                        let j = choose|j: int| 0 <= j < i && ids@[j].0 == k;
                        assert(0 <= j < i + 1);
                    }
                }
            }
            i = i + 1;
        }
        proof {
            assert forall|k: u64| #[trigger] scene_anchored(t, v, sc, k) implies inactive@.contains(k) by {
                assert(ids@.contains(StructureId(k)));
                let j = choose|j: int| 0 <= j < ids@.len() && ids@[j] == StructureId(k);
                assert(scene_anchored(t, v, sc, ids@[j].0));
            }
        }
        let mut head: usize = 0;
        while head < queue.len()
            invariant
                self.wf(),
                self.table() == t,
                self.index() == idx,
                view.wf(),
                scene.wf(),
                v == view@,
                sc == scene@,
                offsets@ == signal_offsets_spec(),
                forall|p: Cell| #[trigger] idx.contains_key(p) ==> far_from_limits(p),
                ids@.no_duplicates(),
                forall|id: StructureId| ids@.contains(id) <==> t.contains_key(id.0),
                head <= queue@.len(),
                queue@.no_duplicates(),
                inactive@ == queue@.to_set(),
                forall|j: int| 0 <= j < queue@.len() ==> is_factory_entry(t, #[trigger] queue@[j]) && held_by_scene(t, idx, v, sc, queue@[j]),
                forall|k: u64| #[trigger] scene_anchored(t, v, sc, k) ==> inactive@.contains(k),
                forall|j: int, b: u64| 0 <= j < head && #[trigger] structures_touch(t, idx, v, queue@[j], b) ==> inactive@.contains(b),
            decreases ids@.len() - head,
        {
            proof {
                let ids_keys = ids@.map_values(|x: StructureId| x.0);
                assert(queue@.to_set().subset_of(ids_keys.to_set())) by {
                    assert forall|k: u64| queue@.to_set().contains(k) implies ids_keys.to_set().contains(k) by {
                        let j = choose|j: int| 0 <= j < queue@.len() && queue@[j] == k;
                        assert(is_factory_entry(t, queue@[j]));
                        assert(ids@.contains(StructureId(k)));
                        let u = choose|u: int| 0 <= u < ids@.len() && ids@[u] == StructureId(k);
                        assert(ids_keys[u] == k);
                    }
                }
                assert(ids_keys.no_duplicates()) by {
                    assert forall|a: int, b: int| 0 <= a < ids_keys.len() && 0 <= b < ids_keys.len() && a != b implies ids_keys[a] != ids_keys[b] by {
                        assert(ids@[a] != ids@[b]);
                    }
                }
                ids_keys.unique_seq_to_set();
                queue@.unique_seq_to_set();
                vstd::set_lib::lemma_len_subset(queue@.to_set(), ids_keys.to_set());
            }
            let a = queue[head];
            proof {
                assert(is_factory_entry(t, queue@[head as int]));
            }
            let s = self.get(StructureId(a)).unwrap();
            let cells = s.positions.to_vec();
            proof {
                self.lemma_entry(a);
                s.positions.lemma_elems();
            }
            let mut ci: usize = 0;
            while ci < cells.len()
                invariant
                    self.wf(),
                    self.table() == t,
                    self.index() == idx,
                    view.wf(),
                    scene.wf(),
                    v == view@,
                    sc == scene@,
                    offsets@ == signal_offsets_spec(),
                    forall|p: Cell| #[trigger] idx.contains_key(p) ==> far_from_limits(p),
                    head < queue@.len(),
                    a == queue@[head as int],
                    is_factory_entry(t, a),
                    entry_ok(a, t[a], self.last_id(), idx),
                    cells@ == t[a].positions.elems(),
                    t[a].positions@ == t[a].positions.elems().to_set(),
                    ci <= cells@.len(),
                    queue@.no_duplicates(),
                    inactive@ == queue@.to_set(),
                    forall|j: int| 0 <= j < queue@.len() ==> is_factory_entry(t, #[trigger] queue@[j]) && held_by_scene(t, idx, v, sc, queue@[j]),
                    forall|k: u64| #[trigger] scene_anchored(t, v, sc, k) ==> inactive@.contains(k),
                    forall|j: int, b: u64| 0 <= j < head && #[trigger] structures_touch(t, idx, v, queue@[j], b) ==> inactive@.contains(b),
                    forall|c2: int, j: int, b: u64| 0 <= c2 < ci && 0 <= j < 6 && #[trigger] touch_via(t, idx, v, a, b, cells@[c2], signal_offsets_spec()[j])
                        && is_factory_entry(t, b) ==> inactive@.contains(b),
                decreases cells@.len() - ci,
            {
                let pos = cells[ci];
                proof {
                    assert(t[a].positions@.contains(pos));
                    assert(idx.contains_key(pos));
                }
                let ghost q_before = queue@;
                let ghost i_before = inactive@;
                self.spread_from_cell(view, Ghost(sc), a, pos, &mut inactive, &mut queue);
                proof {
                    assert forall|b: u64| #[trigger] i_before.contains(b) implies inactive@.contains(b) by {
                        assert(q_before.to_set().contains(b));
                        let u = choose|u: int| 0 <= u < q_before.len() && q_before[u] == b;
                        assert(queue@[u] == b);
                        assert(queue@.to_set().contains(b));
                    }
                    assert forall|q: int, b: u64| 0 <= q < head && #[trigger] structures_touch(t, idx, v, queue@[q], b) implies inactive@.contains(b) by {
                        assert(queue@[q] == q_before[q]);
                        assert(i_before.contains(b));
                    }
                    assert forall|c2: int, j2: int, b: u64| 0 <= c2 < ci && 0 <= j2 < 6 && #[trigger] touch_via(t, idx, v, a, b, cells@[c2], signal_offsets_spec()[j2])
                        && is_factory_entry(t, b) implies inactive@.contains(b) by {
                        assert(i_before.contains(b));
                    }
                    assert forall|k: u64| #[trigger] scene_anchored(t, v, sc, k) implies inactive@.contains(k) by {
                        assert(i_before.contains(k));
                    }
                    assert(queue@[head as int] == q_before[head as int]);
                }
                proof {
                    assert forall|c2: int, j2: int, b: u64| 0 <= c2 < ci + 1 && 0 <= j2 < 6 && #[trigger] touch_via(t, idx, v, a, b, cells@[c2], signal_offsets_spec()[j2])
                        && is_factory_entry(t, b) implies inactive@.contains(b) by {
                        if c2 == ci {
                            assert(cells@[c2] == pos);
                        }
                    }
                }
                ci = ci + 1;
            }
            proof {
                assert forall|b: u64| #[trigger] structures_touch(t, idx, v, a, b) implies inactive@.contains(b) by {
                    let (p, k) = choose|p: Cell, k: int| 0 <= k < 6 && #[trigger] touch_via(t, idx, v, a, b, p, signal_offsets_spec()[k]);
                    assert(t[a].positions@.contains(p));
                    let c2 = choose|c2: int| 0 <= c2 < cells@.len() && cells@[c2] == p;
                    assert(touch_via(t, idx, v, a, b, cells@[c2], signal_offsets_spec()[k]));
                }
                assert forall|j: int, b: u64| 0 <= j < head + 1 && #[trigger] structures_touch(t, idx, v, queue@[j], b) implies inactive@.contains(b) by {
                    if j == head {
                        assert(queue@[j] == a);
                    }
                }
            }
            head = head + 1;
        }
        proof {
            assert forall|k: u64| #[trigger] inactive@.contains(k) <==> held_by_scene(t, idx, v, sc, k) by {
                if inactive@.contains(k) {
                    assert(queue@.to_set().contains(k));
                    let j = choose|j: int| 0 <= j < queue@.len() && queue@[j] == k;
                    assert(held_by_scene(t, idx, v, sc, queue@[j]));
                }
                if held_by_scene(t, idx, v, sc, k) {
                    let path = choose|path: Seq<u64>| #[trigger] is_touch_path(t, idx, v, path) && scene_anchored(t, v, sc, path[0]) && path.last() == k;
                    assert forall|x: u64, y: u64| #![trigger inactive@.contains(x), structures_touch(t, idx, v, x, y)]
                        inactive@.contains(x) && structures_touch(t, idx, v, x, y) implies inactive@.contains(y) by {
                        assert(queue@.to_set().contains(x));
                        let j = choose|j: int| 0 <= j < queue@.len() && queue@[j] == x;
                        assert(structures_touch(t, idx, v, queue@[j], y));
                    }
                    lemma_closed_holds_held(t, idx, v, sc, inactive@, path);
                }
            }
        }
        let mut i: usize = 0;
        while i < ids.len()
            invariant
                self.wf(),
                self.index() == idx,
                self.last_id() == old(self).last_id(),
                self.held() == old(self).held(),
                self.moving() == old(self).moving(),
                self.head_counter() == old(self).head_counter(),
                self.acceptors() == old(self).acceptors(),
                self.table().dom() == t.dom(),
                t == old(self).table(),
                idx == old(self).index(),
                view.wf(),
                scene.wf(),
                v == view@,
                sc == scene@,
                forall|p: Cell| #[trigger] idx.contains_key(p) ==> far_from_limits(p),
                ids@.no_duplicates(),
                forall|id: StructureId| ids@.contains(id) <==> t.contains_key(id.0),
                i <= ids@.len(),
                forall|k: u64| #[trigger] inactive@.contains(k) <==> held_by_scene(t, idx, v, sc, k),
                forall|k: u64| #[trigger] t.contains_key(k) ==> if ids@.take(i as int).contains(StructureId(k)) {
                    propagated(t[k], self.table()[k], t, idx, v, sc, k)
                } else {
                    self.table()[k] == t[k]
                },
            decreases ids@.len() - i,
        {
            let id = ids[i];
            proof {
                assert(ids@.contains(id));
                assert(!ids@.take(i as int).contains(id)) by {
                    if ids@.take(i as int).contains(id) {
                        let u = choose|u: int| 0 <= u < i && #[trigger] ids@.take(i as int)[u] == id;
                        assert(ids@[u] == ids@[i as int]);
                    }
                }
                assert forall|x: StructureId| ids@.take(i + 1).contains(x) <==> (ids@.take(i as int).contains(x) || x == id) by {
                    if ids@.take(i + 1).contains(x) {
                        let u = choose|u: int| 0 <= u < i + 1 && #[trigger] ids@.take(i + 1)[u] == x;
                        if u < i {
                            assert(ids@.take(i as int)[u] == x);
                        }
                    }
                    if ids@.take(i as int).contains(x) {
                        let u = choose|u: int| 0 <= u < i && #[trigger] ids@.take(i as int)[u] == x;
                        assert(ids@.take(i + 1)[u] == x);
                    }
                    if x == id {
                        assert(ids@.take(i + 1)[i as int] == x);
                    }
                }
                assert(self.table()[id.0] == t[id.0]);
            }
            let s = self.get(id).unwrap();
            if s.kind == StructureKind::Factory {
                proof {
                    self.lemma_entry(id.0);
                    assert forall|c: Cell| #[trigger] s.positions@.contains(c) implies far_from_limits(c) by {
                        assert(idx.contains_key(c));
                    }
                }
                let anchored = touches_scene(view, scene, &s.positions);
                let held = inactive.contains(&id.0);
                proof {
                    assert(anchored == scene_anchored(t, v, sc, id.0));
                    assert(held == held_by_scene(t, idx, v, sc, id.0));
                }
                let activity = if held {
                    FactoryActivity::Inactive
                } else {
                    FactoryActivity::Active
                };
                let freedom = if anchored {
                    StructureFreedom::Fixed
                } else {
                    StructureFreedom::All
                };
                self.set_activity(id, activity, freedom);
            }
            i = i + 1;
        }
        proof {
            assert(ids@.take(i as int) =~= ids@);
        }
    }
}


impl StructureState {
    /// Marks and queues, once, every factory structure that the cell `pos` of the held
    /// structure `a` touches through an open face.
    fn spread_from_cell(
        &self,
        view: &CellMap<FactoryLink>,
        Ghost(sc): Ghost<Set<Cell>>,
        a: u64,
        pos: Cell,
        inactive: &mut HashSet<u64>,
        queue: &mut Vec<u64>,
    )
        requires
            self.wf(),
            view.wf(),
            forall|p: Cell| #[trigger] self.index().contains_key(p) ==> far_from_limits(p),
            is_factory_entry(self.table(), a),
            held_by_scene(self.table(), self.index(), view@, sc, a),
            self.table()[a].positions@.contains(pos),
            far_from_limits(pos),
            old(queue)@.no_duplicates(),
            old(inactive)@ == old(queue)@.to_set(),
            forall|q: int| 0 <= q < old(queue)@.len() ==> is_factory_entry(self.table(), #[trigger] old(queue)@[q])
                && held_by_scene(self.table(), self.index(), view@, sc, old(queue)@[q]),
        ensures
            final(queue)@.no_duplicates(),
            final(inactive)@ == final(queue)@.to_set(),
            forall|q: int| 0 <= q < final(queue)@.len() ==> is_factory_entry(self.table(), #[trigger] final(queue)@[q])
                && held_by_scene(self.table(), self.index(), view@, sc, final(queue)@[q]),
            final(queue)@.len() >= old(queue)@.len(),
            forall|q: int| 0 <= q < old(queue)@.len() ==> #[trigger] final(queue)@[q] == old(queue)@[q],
            forall|j: int, b: u64| 0 <= j < 6 && #[trigger] touch_via(self.table(), self.index(), view@, a, b, pos, signal_offsets_spec()[j])
                && is_factory_entry(self.table(), b) ==> final(inactive)@.contains(b),
    {
        let ghost t = self.table();
        let ghost idx = self.index();
        let ghost v = view@;
        let ghost q_in = queue@;
        let offsets = signal_offsets();
        let mut j: usize = 0;
        while j < 6
            invariant
                self.wf(),
                self.table() == t,
                self.index() == idx,
                view.wf(),
                v == view@,
                offsets@ == signal_offsets_spec(),
                forall|p: Cell| #[trigger] idx.contains_key(p) ==> far_from_limits(p),
                is_factory_entry(t, a),
                held_by_scene(t, idx, v, sc, a),
                t[a].positions@.contains(pos),
                far_from_limits(pos),
                j <= 6,
                queue@.no_duplicates(),
                inactive@ == queue@.to_set(),
                forall|q: int| 0 <= q < queue@.len() ==> is_factory_entry(t, #[trigger] queue@[q]) && held_by_scene(t, idx, v, sc, queue@[q]),
                queue@.len() >= q_in.len(),
                forall|q: int| 0 <= q < q_in.len() ==> #[trigger] queue@[q] == q_in[q],
                forall|j2: int, b: u64| 0 <= j2 < j && #[trigger] touch_via(t, idx, v, a, b, pos, signal_offsets_spec()[j2])
                    && is_factory_entry(t, b) ==> inactive@.contains(b),
            decreases 6 - j,
        {
            let o = offsets[j];
            let ghost oj = signal_offsets_spec()[j as int];
            assert(o == oj);
            let neighbor = pos.add(o);
            match self.id_at(neighbor) {
                Some(nid) => {
                    let nk = match self.get(nid) {
                        Some(ns) => ns.kind == StructureKind::Factory,
                        None => false,
                    };
                    let sealed_out = match view.get(pos) {
                        Some(l) => l.sealed == Some(o),
                        None => false,
                    };
                    let sealed_in = match view.get(neighbor) {
                        Some(l) => l.sealed == Some(o.neg()),
                        None => false,
                    };
                    assert(sealed_out == sealed_toward(v, pos, oj));
                    assert(sealed_in == sealed_toward(v, neighbor, oj.negated()));
                    assert(nk == is_factory_entry(t, nid.0));
                    if nk && !sealed_out && !sealed_in && !inactive.contains(&nid.0) {
                        proof {
                            assert(touch_via(t, idx, v, a, nid.0, pos, oj));
                            assert(structures_touch(t, idx, v, a, nid.0));
                            lemma_held_extend(t, idx, v, sc, a, nid.0);
                        }
                        let ghost q0 = queue@;
                        inactive.insert(nid.0);
                        queue.push(nid.0);
                        proof {
                            q0.lemma_push_to_set_commute(nid.0);
                            assert(!q0.contains(nid.0)) by {
                                if q0.contains(nid.0) {
                                    assert(q0.to_set().contains(nid.0));
                                }
                            }
                            assert(queue@.no_duplicates()) by {
                                assert forall|x: int, y: int| 0 <= x < queue@.len() && 0 <= y < queue@.len() && x != y implies queue@[x] != queue@[y] by {
                                    if x < q0.len() && y < q0.len() {
                                        assert(queue@[x] == q0[x] && queue@[y] == q0[y]);
                                    } else if x < q0.len() {
                                        assert(queue@[x] == q0[x]);
                                        assert(q0.contains(q0[x]));
                                    } else if y < q0.len() {
                                        assert(queue@[y] == q0[y]);
                                        assert(q0.contains(q0[y]));
                                    }
                                }
                            }
                            assert forall|q: int| 0 <= q < queue@.len() implies is_factory_entry(t, #[trigger] queue@[q]) && held_by_scene(t, idx, v, sc, queue@[q]) by {
                                if q < q0.len() {
                                    assert(queue@[q] == q0[q]);
                                }
                            }
                            assert forall|q: int| 0 <= q < q_in.len() implies #[trigger] queue@[q] == q_in[q] by {
                                assert(queue@[q] == q0[q]);
                            }
                        }
                    }
                },
                None => {},
            }
            proof {
                assert forall|j2: int, b: u64| 0 <= j2 < j + 1 && #[trigger] touch_via(t, idx, v, a, b, pos, signal_offsets_spec()[j2])
                    && is_factory_entry(t, b) implies inactive@.contains(b) by {
                    if j2 == j {
                        assert(idx.contains_key(neighbor));
                        assert(idx[neighbor].0 == b);
                    }
                }
            }
            j = j + 1;
        }
    }
}

} // verus!
