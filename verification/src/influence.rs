//! How often each push source has moved each structure: kept across turns while the
//! structure identity stays stable, so that sources that have not acted yet go first.
use vstd::prelude::*;

use std::collections::HashSet;

use crate::ids::{BlockId, StructureId};
use crate::moves::StructureMove;

verus! {

/// One executed movement: the structure moved and the block that moved it.
#[derive(Clone, Copy, Debug, PartialEq, Eq, Structural)]
pub struct ExecutedMovement {
    pub structure_id: StructureId,
    pub source: BlockId,
}

/// Counts of executed movements, per structure and push source.
pub struct MovementInfluenceCache {
    counts: Vec<(StructureId, BlockId, u32)>,
}

/// Each (structure, source) pair is listed once.
pub open spec fn pairs_unique(c: Seq<(StructureId, BlockId, u32)>) -> bool {
    forall|i: int, j: int| 0 <= i < j < c.len() ==> (c[i].0, c[i].1) != (c[j].0, c[j].1)
}

/// The counts as a map from (structure, source) identities.
pub open spec fn counts_map(c: Seq<(StructureId, BlockId, u32)>) -> Map<(u64, u64), u32> {
    Map::new(
        |k: (u64, u64)| exists|i: int| 0 <= i < c.len() && (#[trigger] c[i]).0.0 == k.0 && c[i].1.0 == k.1,
        |k: (u64, u64)| c[choose|i: int| 0 <= i < c.len() && (#[trigger] c[i]).0.0 == k.0 && c[i].1.0 == k.1].2,
    )
}

impl MovementInfluenceCache {
    pub closed spec fn wf(&self) -> bool {
        pairs_unique(self.counts@)
    }

    /// The number of executed movements of each (structure, source) pair that has any.
    pub closed spec fn view(&self) -> Map<(u64, u64), u32> {
        counts_map(self.counts@)
    }

    pub fn new() -> (r: MovementInfluenceCache)
        ensures
            r.wf(),
            r@ == Map::<(u64, u64), u32>::empty(),
    {
        let r = MovementInfluenceCache { counts: Vec::new() };
        assert(r@ =~= Map::<(u64, u64), u32>::empty());
        r
    }

    /// Forgets every count.
    pub fn clear(&mut self)
        ensures
            final(self).wf(),
            final(self)@ == Map::<(u64, u64), u32>::empty(),
    {
        self.counts.clear();
        assert(self@ =~= Map::<(u64, u64), u32>::empty());
    }

    fn find(&self, structure: u64, source: u64) -> (r: Option<usize>)
        requires
            self.wf(),
        ensures
            match r {
                Some(i) => i < self.counts@.len() && self.counts@[i as int].0.0 == structure && self.counts@[i as int].1.0 == source,
                None => !self@.contains_key((structure, source)),
            },
    {
        let mut i: usize = 0;
        while i < self.counts.len()
            invariant
                i <= self.counts@.len(),
                forall|j: int| 0 <= j < i ==> !((#[trigger] self.counts@[j]).0.0 == structure && self.counts@[j].1.0 == source),
            decreases self.counts@.len() - i,
        {
            if self.counts[i].0.0 == structure && self.counts[i].1.0 == source {
                return Some(i);
            }
            i = i + 1;
        }
        None
    }

    proof fn lemma_value_at(&self, i: int)
        requires
            self.wf(),
            0 <= i < self.counts@.len(),
        ensures
            self@.contains_key((self.counts@[i].0.0, self.counts@[i].1.0)),
            self@[(self.counts@[i].0.0, self.counts@[i].1.0)] == self.counts@[i].2,
    {
        let c = self.counts@;
        let k = (c[i].0.0, c[i].1.0);
        assert(c[i].0.0 == k.0 && c[i].1.0 == k.1);
        let j = choose|j: int| 0 <= j < c.len() && (#[trigger] c[j]).0.0 == k.0 && c[j].1.0 == k.1;
        if j != i {
            assert(c[j].0 == c[i].0);
            assert(c[j].1 == c[i].1);
            if j < i {
                assert((c[j].0, c[j].1) != (c[i].0, c[i].1));
            } else {
                assert((c[i].0, c[i].1) != (c[j].0, c[j].1));
            }
        }
    }

    /// How often the source of the movement has moved its structure (zero for a
    /// movement with no source).
    pub fn count(&self, movement: &StructureMove) -> (r: u32)
        requires
            self.wf(),
        ensures
            r == match movement@.source() {
                Some(src) => if self@.contains_key((movement@.structure_id().0, src.0)) {
                    self@[(movement@.structure_id().0, src.0)]
                } else {
                    0
                },
                None => 0,
            },
    {
        let source = match movement.source() {
            Some(s) => s,
            None => return 0,
        };
        let sid = movement.structure_id();
        match self.find(sid.0, source.0) {
            Some(i) => {
                proof {
                    self.lemma_value_at(i as int);
                }
                self.counts[i].2
            },
            None => 0,
        }
    }

    /// Drops the counts of structures and sources that no longer exist; the others are
    /// kept as they are.
    pub fn prune_missing(&mut self, living_structures: &HashSet<u64>, living_blocks: &HashSet<u64>)
        requires
            old(self).wf(),
        ensures
            final(self).wf(),
            final(self)@ == old(self)@.restrict(
                Set::new(|k: (u64, u64)| living_structures@.contains(k.0) && living_blocks@.contains(k.1)),
            ),
    {
        let ghost c0 = self.counts@;
        let mut kept: Vec<(StructureId, BlockId, u32)> = Vec::new();
        let ghost mut from: Seq<int> = Seq::empty();
        let mut i: usize = 0;
        while i < self.counts.len()
            invariant
                self.counts@ == c0,
                pairs_unique(c0),
                i <= c0.len(),
                from.len() == kept@.len(),
                forall|x: int| 0 <= x < from.len() ==> 0 <= #[trigger] from[x] < i && c0[from[x]] == kept@[x],
                forall|x: int, y: int| 0 <= x < y < from.len() ==> from[x] < from[y],
                forall|j: int| 0 <= j < i && living_structures@.contains((#[trigger] c0[j]).0.0) && living_blocks@.contains(c0[j].1.0) ==> kept@.contains(c0[j]),
                forall|x: int| 0 <= x < kept@.len() ==> living_structures@.contains((#[trigger] kept@[x]).0.0) && living_blocks@.contains(kept@[x].1.0),
            decreases c0.len() - i,
        {
            let e = self.counts[i];
            let ghost k0 = kept@;
            if living_structures.contains(&e.0.0) && living_blocks.contains(&e.1.0) {
                kept.push(e);
                proof {
                    from = from.push(i as int);
                    assert forall|j: int| 0 <= j < i + 1 && living_structures@.contains((#[trigger] c0[j]).0.0) && living_blocks@.contains(c0[j].1.0)
                        implies kept@.contains(c0[j]) by {
                        if j < i {
                            let x = choose|x: int| 0 <= x < k0.len() && k0[x] == c0[j];
                            assert(kept@[x] == c0[j]);
                        } else {
                            assert(kept@[k0.len() as int] == c0[j]);
                        }
                    }
                    assert forall|x: int| 0 <= x < kept@.len() implies living_structures@.contains((#[trigger] kept@[x]).0.0) && living_blocks@.contains(kept@[x].1.0) by {
                        if x < k0.len() {
                            assert(kept@[x] == k0[x]);
                        }
                    }
                    assert forall|x: int| 0 <= x < from.len() implies 0 <= #[trigger] from[x] < i + 1 && c0[from[x]] == kept@[x] by {
                        if x < k0.len() {
                            assert(kept@[x] == k0[x]);
                        }
                    }
                }
            }
            i = i + 1;
        }
        let ghost old_view = self@;
        self.counts = kept;
        proof {
            let c1 = self.counts@;
            assert(pairs_unique(c1)) by {
                assert forall|x: int, y: int| 0 <= x < y < c1.len() implies (c1[x].0, c1[x].1) != (c1[y].0, c1[y].1) by {
                    assert(from[x] < from[y]);
                    assert(c0[from[x]] == c1[x]);
                    assert(c0[from[y]] == c1[y]);
                }
            }
            let live = Set::new(|k: (u64, u64)| living_structures@.contains(k.0) && living_blocks@.contains(k.1));
            assert forall|k: (u64, u64)| self@.contains_key(k) <==> old_view.restrict(live).contains_key(k) by {
                if self@.contains_key(k) {
                    let x = choose|x: int| 0 <= x < c1.len() && (#[trigger] c1[x]).0.0 == k.0 && c1[x].1.0 == k.1;
                    let j = from[x];
                    assert(c0[j] == c1[x]);
                    assert(c0[j].0.0 == k.0 && c0[j].1.0 == k.1);
                }
                if old_view.restrict(live).contains_key(k) {
                    let j = choose|j: int| 0 <= j < c0.len() && (#[trigger] c0[j]).0.0 == k.0 && c0[j].1.0 == k.1;
                    assert(c1.contains(c0[j]));
                    let x = choose|x: int| 0 <= x < c1.len() && c1[x] == c0[j];
                    assert(c1[x].0.0 == k.0 && c1[x].1.0 == k.1);
                }
            }
            assert forall|k: (u64, u64)| #[trigger] self@.contains_key(k) implies self@[k] == old_view[k] by {
                let x = choose|x: int| 0 <= x < c1.len() && (#[trigger] c1[x]).0.0 == k.0 && c1[x].1.0 == k.1;
                self.lemma_value_at(x);
                let j = from[x];
                assert(c0[j] == c1[x]);
                lemma_counts_value(c0, j);
            }
            assert(self@ =~= old_view.restrict(live));
        }
    }

    /// Counts each executed movement once more for its (structure, source) pair.
    pub fn record_executed(&mut self, executed: Vec<ExecutedMovement>)
        requires
            old(self).wf(),
            forall|k: (u64, u64)| (if old(self)@.contains_key(k) { old(self)@[k] as int } else { 0 }) + #[trigger] times_executed(executed@, k)
                <= u32::MAX,
        ensures
            final(self).wf(),
            forall|k: (u64, u64)| #[trigger] final(self)@.contains_key(k) <==> (old(self)@.contains_key(k) || times_executed(executed@, k) > 0),
            forall|k: (u64, u64)| #[trigger] final(self)@.contains_key(k) ==> final(self)@[k] == (if old(self)@.contains_key(k) {
                old(self)@[k] as int
            } else {
                0
            }) + times_executed(executed@, k),
    {
        let ghost v0 = self@;
        let mut t: usize = 0;
        while t < executed.len()
            invariant
                self.wf(),
                t <= executed@.len(),
                forall|k: (u64, u64)| (if v0.contains_key(k) { v0[k] as int } else { 0 }) + #[trigger] times_executed(executed@, k) <= u32::MAX,
                forall|k: (u64, u64)| #[trigger] self@.contains_key(k) <==> (v0.contains_key(k) || times_executed(executed@.take(t as int), k) > 0),
                forall|k: (u64, u64)| #[trigger] self@.contains_key(k) ==> self@[k] == (if v0.contains_key(k) {
                    v0[k] as int
                } else {
                    0
                }) + times_executed(executed@.take(t as int), k),
            decreases executed@.len() - t,
        {
            let e = executed[t];
            let key = (e.structure_id.0, e.source.0);
            proof {
                assert(executed@.take(t + 1).drop_last() =~= executed@.take(t as int));
                assert(executed@.take(t + 1).last() == e);
                lemma_times_bound(executed@.take(t as int), key);
                assert forall|k: (u64, u64)| times_executed(executed@.take(t + 1), k) == times_executed(executed@.take(t as int), k) + (if k == key {
                    1int
                } else {
                    0int
                }) by {}
            }
            match self.find(key.0, key.1) {
                Some(i) => {
                    proof {
                        self.lemma_value_at(i as int);
                        assert(self@[key] + 1 <= u32::MAX) by {
                            lemma_times_prefix(executed@, t + 1, key);
                            assert((if v0.contains_key(key) { v0[key] as int } else { 0 }) + times_executed(executed@, key) <= u32::MAX);
                        }
                    }
                    let ghost c0 = self.counts@;
                    let ghost view0 = self@;
                    let entry = self.counts[i];
                    self.counts.set(i, (entry.0, entry.1, entry.2 + 1));
                    proof {
                        let c1 = self.counts@;
                        assert forall|x: int, y: int| 0 <= x < y < c1.len() implies (c1[x].0, c1[x].1) != (c1[y].0, c1[y].1) by {
                            assert((c0[x].0, c0[x].1) != (c0[y].0, c0[y].1));
                        }
                        assert forall|k: (u64, u64)| #[trigger] self@.contains_key(k) == view0.contains_key(k) by {
                            if self@.contains_key(k) {
                                let x = choose|x: int| 0 <= x < c1.len() && (#[trigger] c1[x]).0.0 == k.0 && c1[x].1.0 == k.1;
                                assert(c0[x].0.0 == k.0 && c0[x].1.0 == k.1);
                            }
                            if view0.contains_key(k) {
                                let x = choose|x: int| 0 <= x < c0.len() && (#[trigger] c0[x]).0.0 == k.0 && c0[x].1.0 == k.1;
                                assert(c1[x].0.0 == k.0 && c1[x].1.0 == k.1);
                            }
                        }
                        assert forall|k: (u64, u64)| #[trigger] self@.contains_key(k) implies self@[k] == (if k == key {
                            view0[k] + 1
                        } else {
                            view0[k] as int
                        }) by {
                            let x = choose|x: int| 0 <= x < c1.len() && (#[trigger] c1[x]).0.0 == k.0 && c1[x].1.0 == k.1;
                            self.lemma_value_at(x);
                            assert(c0[x].0.0 == k.0 && c0[x].1.0 == k.1);
                            lemma_counts_value(c0, x);
                            if x == i {
                                assert(k == key);
                            } else {
                                assert(c1[x] == c0[x]);
                                assert(k != key) by {
                                    if k == key {
                                        assert((c0[x].0, c0[x].1) == (c0[i as int].0, c0[i as int].1));
                                        if x < i {
                                            assert((c0[x].0, c0[x].1) != (c0[i as int].0, c0[i as int].1));
                                        } else {
                                            assert((c0[i as int].0, c0[i as int].1) != (c0[x].0, c0[x].1));
                                        }
                                    }
                                }
                            }
                        }
                    }
                },
                None => {
                    let ghost c0 = self.counts@;
                    let ghost view0 = self@;
                    self.counts.push((e.structure_id, e.source, 1));
                    proof {
                        let c1 = self.counts@;
                        assert forall|x: int, y: int| 0 <= x < y < c1.len() implies (c1[x].0, c1[x].1) != (c1[y].0, c1[y].1) by {
                            if y == c0.len() {
                                assert(c1[x] == c0[x]);
                                if (c1[x].0, c1[x].1) == (c1[y].0, c1[y].1) {
                                    assert(c0[x].0.0 == key.0 && c0[x].1.0 == key.1);
                                }
                            } else {
                                assert((c0[x].0, c0[x].1) != (c0[y].0, c0[y].1));
                            }
                        }
                        assert forall|k: (u64, u64)| #[trigger] self@.contains_key(k) == (view0.contains_key(k) || k == key) by {
                            if self@.contains_key(k) {
                                let x = choose|x: int| 0 <= x < c1.len() && (#[trigger] c1[x]).0.0 == k.0 && c1[x].1.0 == k.1;
                                if x < c0.len() {
                                    assert(c0[x].0.0 == k.0 && c0[x].1.0 == k.1);
                                }
                            }
                            if view0.contains_key(k) {
                                let x = choose|x: int| 0 <= x < c0.len() && (#[trigger] c0[x]).0.0 == k.0 && c0[x].1.0 == k.1;
                                assert(c1[x].0.0 == k.0 && c1[x].1.0 == k.1);
                            }
                            if k == key {
                                assert(c1[c0.len() as int].0.0 == k.0 && c1[c0.len() as int].1.0 == k.1);
                            }
                        }
                        assert forall|k: (u64, u64)| #[trigger] self@.contains_key(k) implies self@[k] == (if k == key {
                            1int
                        } else {
                            view0[k] as int
                        }) by {
                            let x = choose|x: int| 0 <= x < c1.len() && (#[trigger] c1[x]).0.0 == k.0 && c1[x].1.0 == k.1;
                            self.lemma_value_at(x);
                            if x < c0.len() {
                                assert(c1[x] == c0[x]);
                                lemma_counts_value(c0, x);
                                assert(k != key);
                            } else {
                                assert(k == key);
                            }
                        }
                    }
                },
            }
            t = t + 1;
        }
        proof {
            assert(executed@.take(t as int) =~= executed@);
        }
    }
}

/// How many of the executed movements are of the pair `k`.
pub open spec fn times_executed(e: Seq<ExecutedMovement>, k: (u64, u64)) -> int
    decreases e.len(),
{
    if e.len() == 0 {
        0
    } else {
        times_executed(e.drop_last(), k) + (if (e.last().structure_id.0, e.last().source.0) == k {
            1int
        } else {
            0int
        })
    }
}

/// A prefix counts a pair no more often than the whole.
proof fn lemma_times_prefix(e: Seq<ExecutedMovement>, t: int, k: (u64, u64))
    requires
        0 <= t <= e.len(),
    ensures
        times_executed(e.take(t), k) <= times_executed(e, k),
    decreases e.len(),
{
    if t == e.len() {
        assert(e.take(t) =~= e);
    } else {
        assert(e.drop_last().take(t) =~= e.take(t));
        lemma_times_prefix(e.drop_last(), t, k);
    }
}

proof fn lemma_times_bound(e: Seq<ExecutedMovement>, k: (u64, u64))
    ensures
        0 <= times_executed(e, k) <= e.len(),
    decreases e.len(),
{
    if e.len() > 0 {
        lemma_times_bound(e.drop_last(), k);
    }
}

/// The value of the map at the key of an entry is the entry's count.
proof fn lemma_counts_value(c: Seq<(StructureId, BlockId, u32)>, i: int)
    requires
        pairs_unique(c),
        0 <= i < c.len(),
    ensures
        counts_map(c).contains_key((c[i].0.0, c[i].1.0)),
        counts_map(c)[(c[i].0.0, c[i].1.0)] == c[i].2,
{
    let k = (c[i].0.0, c[i].1.0);
    assert(c[i].0.0 == k.0 && c[i].1.0 == k.1);
    let j = choose|j: int| 0 <= j < c.len() && (#[trigger] c[j]).0.0 == k.0 && c[j].1.0 == k.1;
    if j != i {
        assert(c[j].0 == c[i].0);
        assert(c[j].1 == c[i].1);
        if j < i {
            assert((c[j].0, c[j].1) != (c[i].0, c[i].1));
        } else {
            assert((c[i].0, c[i].1) != (c[j].0, c[j].1));
        }
    }
}

impl Default for MovementInfluenceCache {
    fn default() -> (r: MovementInfluenceCache)
        ensures
            r.wf(),
            r@ == Map::<(u64, u64), u32>::empty(),
    {
        MovementInfluenceCache::new()
    }
}

} // verus!
