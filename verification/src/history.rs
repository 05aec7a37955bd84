//! Arbitration history: how often each source has moved each structure.
use vstd::prelude::*;

use std::collections::HashMap;

use crate::ids::{BlockId, StructureId};
use crate::moves::StructureMove;
use crate::structure_state::keys_of;

verus! {

/// One executed sourced move.
#[derive(Clone, Copy, Debug, PartialEq, Eq, Structural)]
pub struct ExecutedMovement {
    pub structure_id: StructureId,
    pub source: BlockId,
}

/// Count of `(s, b)` in a counts view (zero when absent).
pub open spec fn count_in(v: Map<u64, Map<u64, u32>>, s: u64, b: u64) -> nat {
    if v.contains_key(s) && v[s].contains_key(b) {
        v[s][b] as nat
    } else {
        0
    }
}

/// The counts after recording one more move of `s` by `b`.
pub open spec fn record_one(v: Map<u64, Map<u64, u32>>, s: u64, b: u64) -> Map<u64, Map<u64, u32>> {
    let inner = if v.contains_key(s) { v[s] } else { Map::empty() };
    v.insert(s, inner.insert(b, (count_in(v, s, b) + 1) as u32))
}

/// The counts after recording each executed move in order.
pub open spec fn record_all(v: Map<u64, Map<u64, u32>>, e: Seq<ExecutedMovement>) -> Map<
    u64,
    Map<u64, u32>,
>
    decreases e.len(),
{
    if e.len() == 0 {
        v
    } else {
        record_one(record_all(v, e.drop_last()), e.last().structure_id.0, e.last().source.0)
    }
}

/// How many of the executed moves are of `s` by `b`.
pub open spec fn occurrences(e: Seq<ExecutedMovement>, s: u64, b: u64) -> nat
    decreases e.len(),
{
    if e.len() == 0 {
        0
    } else {
        occurrences(e.drop_last(), s, b) + if e.last().structure_id.0 == s && e.last().source.0
            == b {
            1nat
        } else {
            0nat
        }
    }
}

/// The counts kept by a prune: living structures, living sources, and no empty entry.
pub open spec fn pruned(
    v: Map<u64, Map<u64, u32>>,
    living_structures: Set<u64>,
    living_blocks: Set<u64>,
) -> Map<u64, Map<u64, u32>> {
    Map::new(
        |s: u64|
            v.contains_key(s) && living_structures.contains(s) && exists|b: u64|
                #![trigger v[s].contains_key(b)]
                v[s].contains_key(b) && living_blocks.contains(b),
        |s: u64| v[s].restrict(living_blocks),
    )
}

/// Accumulated executed sourced moves per structure and source; kept across turns
/// while identities stay stable, so sources that have not acted yet come first.
pub struct MovementHistory {
    counts: HashMap<u64, HashMap<u64, u32>>,
}

impl MovementHistory {
    pub closed spec fn view(&self) -> Map<u64, Map<u64, u32>> {
        self.counts@.map_values(|m: HashMap<u64, u32>| m@)
    }

    /// How often `b` has moved `s`.
    pub open spec fn count_of(&self, s: StructureId, b: BlockId) -> nat {
        count_in(self@, s.0, b.0)
    }

    pub fn new() -> (h: MovementHistory)
        ensures
            h@ == Map::<u64, Map<u64, u32>>::empty(),
    {
        let h = MovementHistory { counts: HashMap::new() };
        assert(h@ =~= Map::<u64, Map<u64, u32>>::empty());
        h
    }

    /// Forgets all counts.
    pub fn clear(&mut self)
        ensures
            final(self)@ == Map::<u64, Map<u64, u32>>::empty(),
    {
        self.counts.clear();
        assert(self@ =~= Map::<u64, Map<u64, u32>>::empty());
    }

    fn count_pair(&self, s: u64, b: u64) -> (r: u32)
        ensures
            r == count_in(self@, s, b),
    {
        match self.counts.get(&s) {
            Some(inner) => match inner.get(&b) {
                Some(c) => *c,
                None => 0,
            },
            None => 0,
        }
    }

    /// How often the move's source has moved its structure; zero for a sourceless move.
    pub fn count(&self, movement: &StructureMove) -> (r: u32)
        ensures
            r == (match movement@.source() {
                Some(b) => count_in(self@, movement@.structure_id().0, b.0),
                None => 0,
            }),
    {
        match movement.source() {
            Some(b) => self.count_pair(movement.structure_id().0, b.0),
            None => 0,
        }
    }

    /// Drops the counts of structures and sources that no longer exist (counts are not
    /// reset merely because a source did not act this turn).
    pub fn prune_missing(&mut self, living_structures: &[StructureId], living_blocks: &[BlockId])
        ensures
            final(self)@ == pruned(
                old(self)@,
                living_structures@.map_values(|x: StructureId| x.0).to_set(),
                living_blocks@.map_values(|x: BlockId| x.0).to_set(),
            ),
    {
        let ghost ls = living_structures@.map_values(|x: StructureId| x.0).to_set();
        let ghost lb = living_blocks@.map_values(|x: BlockId| x.0).to_set();
        let ghost v0 = self@;
        let keys = keys_of(&self.counts);
        let mut next: HashMap<u64, HashMap<u64, u32>> = HashMap::new();
        let mut i: usize = 0;
        while i < keys.len()
            invariant
                self@ == v0,
                i <= keys@.len(),
                keys@.to_set() == self.counts@.dom(),
                keys@.no_duplicates(),
                ls == living_structures@.map_values(|x: StructureId| x.0).to_set(),
                lb == living_blocks@.map_values(|x: BlockId| x.0).to_set(),
                next@.map_values(|m: HashMap<u64, u32>| m@) == pruned(v0, ls, lb).restrict(
                    keys@.take(i as int).to_set(),
                ),
            decreases keys@.len() - i,
        {
            let s = keys[i];
            assert(self.counts@.contains_key(s)) by {
                assert(keys@.to_set().contains(s));
            }
            let ghost before = next@.map_values(|m: HashMap<u64, u32>| m@);
            let ghost p = pruned(v0, ls, lb);
            if contains_structure(living_structures, s) {
                let inner = self.counts.get(&s).unwrap();
                let kept = retain_living(inner, living_blocks);
                assert(kept@ == v0[s].restrict(lb));
                if kept.len() > 0 {
                    proof {
                        assert(kept@.dom().len() > 0);
                        if kept@.dom() =~= Set::<u64>::empty() {
                        }
                        let w = kept@.dom().choose();
                        assert(kept@.dom().contains(w));
                        assert(v0[s].contains_key(w) && lb.contains(w));
                        assert(p.contains_key(s));
                        assert(p[s] == kept@);
                    }
                    next.insert(s, kept);
                    proof {
                        assert(next@.map_values(|m: HashMap<u64, u32>| m@) =~= before.insert(s, kept@));
                    }
                } else {
                    proof {
                        assert(kept@.dom().finite());
                        if exists|w: u64| #![trigger v0[s].contains_key(w)] v0[s].contains_key(w) && lb.contains(w) {
                            let w = choose|w: u64| #![trigger v0[s].contains_key(w)] v0[s].contains_key(w) && lb.contains(w);
                            assert(kept@.contains_key(w));
                            assert(kept@.dom().len() > 0) by {
                                assert(kept@.dom().contains(w));
                            }
                        }
                        assert(!p.contains_key(s));
                    }
                }
            } else {
                assert(!p.contains_key(s));
            }
            proof {
                assert(keys@.take(i + 1) =~= keys@.take(i as int).push(s));
                keys@.take(i as int).lemma_push_to_set_commute(s);
                assert(next@.map_values(|m: HashMap<u64, u32>| m@) =~= pruned(v0, ls, lb).restrict(
                    keys@.take(i + 1).to_set(),
                ));
            }
            i = i + 1;
        }
        proof {
            assert(keys@.take(i as int) =~= keys@);
            assert(pruned(v0, ls, lb).restrict(keys@.to_set()) =~= pruned(v0, ls, lb));
        }
        self.counts = next;
    }

    /// Adds one to the count of each executed move's structure and source.
    pub fn record_executed(&mut self, executed: Vec<ExecutedMovement>)
        requires
            forall|s: u64, b: u64| count_in(old(self)@, s, b) + occurrences(executed@, s, b) <= u32::MAX,
        ensures
            final(self)@ == record_all(old(self)@, executed@),
    {
        let mut i: usize = 0;
        while i < executed.len()
            invariant
                i <= executed@.len(),
                self@ == record_all(old(self)@, executed@.take(i as int)),
                forall|s: u64, b: u64| count_in(old(self)@, s, b) + occurrences(executed@, s, b) <= u32::MAX,
            decreases executed@.len() - i,
        {
            let m = executed[i];
            let s = m.structure_id.0;
            let b = m.source.0;
            proof {
                assert forall|s2: u64, b2: u64| count_in(old(self)@, s2, b2) + occurrences(executed@.take(i as int), s2, b2) <= u32::MAX by {
                    lemma_occurrences_prefix(executed@, i as int, s2, b2);
                }
                lemma_record_count(old(self)@, executed@.take(i as int), s, b);
                lemma_occurrences_prefix(executed@, i as int + 1, s, b);
                assert(executed@.take(i + 1).drop_last() =~= executed@.take(i as int));
            }
            let c = self.count_pair(s, b);
            let mut inner = match self.counts.remove(&s) {
                Some(inner) => inner,
                None => HashMap::new(),
            };
            inner.insert(b, c + 1);
            self.counts.insert(s, inner);
            proof {
                assert(self@ =~= record_one(record_all(old(self)@, executed@.take(i as int)), s, b));
            }
            i = i + 1;
        }
        assert(executed@.take(i as int) =~= executed@);
    }
}

proof fn lemma_record_count(v: Map<u64, Map<u64, u32>>, e: Seq<ExecutedMovement>, s: u64, b: u64)
    requires
        forall|s2: u64, b2: u64| count_in(v, s2, b2) + occurrences(e, s2, b2) <= u32::MAX,
    ensures
        count_in(record_all(v, e), s, b) == count_in(v, s, b) + occurrences(e, s, b),
    decreases e.len(),
{
    if e.len() > 0 {
        let e0 = e.drop_last();
        assert forall|s2: u64, b2: u64| count_in(v, s2, b2) + occurrences(e0, s2, b2) <= u32::MAX by {
        }
        lemma_record_count(v, e0, s, b);
        lemma_record_count(v, e0, e.last().structure_id.0, e.last().source.0);
    }
}

proof fn lemma_occurrences_prefix(e: Seq<ExecutedMovement>, n: int, s: u64, b: u64)
    requires
        0 <= n <= e.len(),
    ensures
        occurrences(e.take(n), s, b) <= occurrences(e, s, b),
    decreases e.len() - n,
{
    if n < e.len() {
        lemma_occurrences_prefix(e, n + 1, s, b);
        assert(e.take(n + 1).drop_last() =~= e.take(n));
    } else {
        assert(e.take(n) =~= e);
    }
}

fn contains_structure(v: &[StructureId], s: u64) -> (r: bool)
    ensures
        r == v@.map_values(|x: StructureId| x.0).to_set().contains(s),
{
    let mut i: usize = 0;
    while i < v.len()
        invariant
            i <= v@.len(),
            forall|j: int| 0 <= j < i ==> v@[j].0 != s,
        decreases v@.len() - i,
    {
        if v[i].0 == s {
            assert(v@.map_values(|x: StructureId| x.0)[i as int] == s);
            return true;
        }
        i = i + 1;
    }
    assert(!v@.map_values(|x: StructureId| x.0).contains(s));
    false
}

fn contains_block(v: &[BlockId], b: u64) -> (r: bool)
    ensures
        r == v@.map_values(|x: BlockId| x.0).to_set().contains(b),
{
    let mut i: usize = 0;
    while i < v.len()
        invariant
            i <= v@.len(),
            forall|j: int| 0 <= j < i ==> v@[j].0 != b,
        decreases v@.len() - i,
    {
        if v[i].0 == b {
            assert(v@.map_values(|x: BlockId| x.0)[i as int] == b);
            return true;
        }
        i = i + 1;
    }
    assert(!v@.map_values(|x: BlockId| x.0).contains(b));
    false
}

/// The entries of `inner` whose source is living.
fn retain_living(inner: &HashMap<u64, u32>, living_blocks: &[BlockId]) -> (r: HashMap<u64, u32>)
    ensures
        r@ == inner@.restrict(living_blocks@.map_values(|x: BlockId| x.0).to_set()),
{
    let ghost lb = living_blocks@.map_values(|x: BlockId| x.0).to_set();
    let keys = keys_of(inner);
    let mut out: HashMap<u64, u32> = HashMap::new();
    let mut i: usize = 0;
    while i < keys.len()
        invariant
            i <= keys@.len(),
            keys@.to_set() == inner@.dom(),
            lb == living_blocks@.map_values(|x: BlockId| x.0).to_set(),
            out@ == inner@.restrict(lb).restrict(keys@.take(i as int).to_set()),
        decreases keys@.len() - i,
    {
        let b = keys[i];
        assert(inner@.contains_key(b)) by {
            assert(keys@.to_set().contains(b));
        }
        if contains_block(living_blocks, b) {
            let c = *inner.get(&b).unwrap();
            out.insert(b, c);
        }
        proof {
            assert(keys@.take(i + 1) =~= keys@.take(i as int).push(b));
            keys@.take(i as int).lemma_push_to_set_commute(b);
            assert(out@ =~= inner@.restrict(lb).restrict(keys@.take(i + 1).to_set()));
        }
        i = i + 1;
    }
    proof {
        assert(keys@.take(i as int) =~= keys@);
        assert(inner@.restrict(lb).restrict(keys@.to_set()) =~= inner@.restrict(lb));
    }
    out
}

/// Recording adds exactly one per executed occurrence.
pub proof fn lemma_record_counts(h: Map<u64, Map<u64, u32>>, e: Seq<ExecutedMovement>, s: StructureId, b: BlockId)
    requires
        forall|s2: u64, b2: u64| count_in(h, s2, b2) + occurrences(e, s2, b2) <= u32::MAX,
    ensures
        count_in(record_all(h, e), s.0, b.0) == count_in(h, s.0, b.0) + occurrences(e, s.0, b.0),
{
    lemma_record_count(h, e, s.0, b.0);
}

/// After a prune, a count survives exactly when its structure and source are living.
pub proof fn lemma_prune_counts(h: Map<u64, Map<u64, u32>>, ls: Set<u64>, lb: Set<u64>, s: u64, b: u64)
    ensures
        count_in(pruned(h, ls, lb), s, b) == (if ls.contains(s) && lb.contains(b) {
            count_in(h, s, b)
        } else {
            0
        }),
{
    if ls.contains(s) && lb.contains(b) && h.contains_key(s) && h[s].contains_key(b) {
        assert(pruned(h, ls, lb).contains_key(s));
    }
}

} // verus!
