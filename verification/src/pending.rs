//! Effects held over to a later turn so that they land after the movement animation.
use vstd::prelude::*;

use crate::cell::Cell;
use crate::cellmap::CellMap;
use crate::ids::{BlockId, StampMaterialId};

verus! {

/// Why a material is destroyed at the start of a later turn (immediate destruction,
/// such as by a laser, does not go through the pending table).
#[derive(Clone, Copy, Debug, PartialEq, Eq, Structural)]
pub enum PendingDestroyReason {
    Drill,
    Accept,
}

/// A stamp waiting to be attached to a face of its host material.
#[derive(Clone, Copy, Debug, PartialEq, Eq, Structural)]
pub struct PendingStamp {
    pub host: BlockId,
    pub face_normal: Cell,
    pub stamp: StampMaterialId,
    pub ready_turn: u64,
}

/// Stamps held over to a later turn, one per stamper cell.
pub struct PendingTurnEffects {
    pending_stamps: CellMap<PendingStamp>,
}

impl PendingTurnEffects {
    pub closed spec fn wf(&self) -> bool {
        self.pending_stamps.wf()
    }

    /// Pending stamps by stamper cell.
    pub closed spec fn stamps(&self) -> Map<Cell, PendingStamp> {
        self.pending_stamps@
    }

    pub fn new() -> (p: PendingTurnEffects)
        ensures
            p.wf(),
            p.stamps() == Map::<Cell, PendingStamp>::empty(),
    {
        PendingTurnEffects { pending_stamps: CellMap::new() }
    }

    pub fn clear(&mut self)
        ensures
            final(self).wf(),
            final(self).stamps() == Map::<Cell, PendingStamp>::empty(),
    {
        self.pending_stamps.clear();
    }

    /// Holds a stamp for the stamper at `stamper_pos`; one already held there stays.
    pub fn mark_stamp(
        &mut self,
        stamper_pos: Cell,
        host: BlockId,
        face_normal: Cell,
        stamp: StampMaterialId,
        ready_turn: u64,
    )
        requires
            old(self).wf(),
        ensures
            final(self).wf(),
            final(self).stamps() == if old(self).stamps().contains_key(stamper_pos) {
                old(self).stamps()
            } else {
                old(self).stamps().insert(stamper_pos, PendingStamp { host, face_normal, stamp, ready_turn })
            },
    {
        if !self.pending_stamps.contains_key(stamper_pos) {
            self.pending_stamps.insert(stamper_pos, PendingStamp { host, face_normal, stamp, ready_turn });
        }
    }

    /// Takes out the stamps due by `turn` (each once, in no particular order); the
    /// others stay held.
    pub fn take_ready_stamps(&mut self, turn: u64) -> (r: Vec<(Cell, PendingStamp)>)
        requires
            old(self).wf(),
        ensures
            final(self).wf(),
            final(self).stamps() == old(self).stamps().restrict(
                Set::new(|p: Cell| old(self).stamps().contains_key(p) && old(self).stamps()[p].ready_turn > turn),
            ),
            forall|a: int, b: int| 0 <= a < b < r@.len() ==> r@[a].0 != r@[b].0,
            forall|e: (Cell, PendingStamp)| #[trigger] r@.contains(e) <==> (old(self).stamps().contains_key(e.0)
                && old(self).stamps()[e.0] == e.1 && e.1.ready_turn <= turn),
    {
        let ghost start = self.pending_stamps@;
        let keys = self.pending_stamps.keys();
        let mut out: Vec<(Cell, PendingStamp)> = Vec::new();
        let mut i: usize = 0;
        while i < keys.len()
            invariant
                i <= keys@.len(),
                keys@.no_duplicates(),
                keys@.to_set() == start.dom(),
                self.pending_stamps.wf(),
                self.pending_stamps@ == start.restrict(
                    Set::new(|p: Cell| start.contains_key(p) && (!keys@.take(i as int).contains(p) || start[p].ready_turn > turn)),
                ),
                forall|a: int, b: int| 0 <= a < b < out@.len() ==> out@[a].0 != out@[b].0,
                forall|e: (Cell, PendingStamp)| #[trigger] out@.contains(e) <==> (keys@.take(i as int).contains(e.0)
                    && start.contains_key(e.0) && start[e.0] == e.1 && e.1.ready_turn <= turn),
            decreases keys@.len() - i,
        {
            let p = keys[i];
            proof {
                assert(keys@.to_set().contains(p));
                assert(keys@.take(i + 1) =~= keys@.take(i as int).push(p));
                assert(!keys@.take(i as int).contains(p)) by {
                    if keys@.take(i as int).contains(p) {
                        let t = choose|t: int| 0 <= t < i && #[trigger] keys@.take(i as int)[t] == p;
                        assert(keys@[t] == keys@[i as int]);
                    }
                }
                assert(self.pending_stamps@.contains_key(p));
            }
            let pending = self.pending_stamps.get(p).unwrap();
            let ghost out0 = out@;
            if pending.ready_turn <= turn {
                self.pending_stamps.remove(p);
                out.push((p, pending));
                proof {
                    assert forall|a: int, b: int| 0 <= a < b < out@.len() implies out@[a].0 != out@[b].0 by {
                        if b == out0.len() {
                            assert(out0.contains(out0[a]));
                        } else {
                            assert(out@[a] == out0[a] && out@[b] == out0[b]);
                        }
                    }
                }
            }
            proof {
                assert forall|q: Cell| keys@.take(i + 1).contains(q) <==> (keys@.take(i as int).contains(q) || q == p) by {
                    if keys@.take(i + 1).contains(q) {
                        let t = choose|t: int| 0 <= t < i + 1 && #[trigger] keys@.take(i + 1)[t] == q;
                        if t < i {
                            assert(keys@.take(i as int)[t] == q);
                        }
                    }
                    if keys@.take(i as int).contains(q) {
                        let t = choose|t: int| 0 <= t < i && #[trigger] keys@.take(i as int)[t] == q;
                        assert(keys@.take(i + 1)[t] == q);
                    }
                    if q == p {
                        assert(keys@.take(i + 1)[i as int] == q);
                    }
                }
                assert(self.pending_stamps@ =~= start.restrict(
                    Set::new(|q: Cell| start.contains_key(q) && (!keys@.take(i + 1).contains(q) || start[q].ready_turn > turn)),
                ));
                assert forall|e: (Cell, PendingStamp)| #[trigger] out@.contains(e) <==> (keys@.take(i + 1).contains(e.0)
                    && start.contains_key(e.0) && start[e.0] == e.1 && e.1.ready_turn <= turn) by {
                    if out@.contains(e) && !out0.contains(e) {
                        assert(out@.last() == e);
                    }
                    if out0.contains(e) {
                        let t = choose|t: int| 0 <= t < out0.len() && out0[t] == e;
                        assert(out@[t] == e);
                    }
                    if e.0 == p && start.contains_key(e.0) && start[e.0] == e.1 && e.1.ready_turn <= turn {
                        assert(out@[out0.len() as int] == e);
                    }
                }
            }
            i = i + 1;
        }
        proof {
            assert(keys@.take(i as int) =~= keys@);
            assert(self.pending_stamps@ =~= start.restrict(
                Set::new(|q: Cell| start.contains_key(q) && start[q].ready_turn > turn),
            ));
        }
        out
    }
}

} // verus!
