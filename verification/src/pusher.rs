//! Extension state of pushers and blockers, keyed by block identity so that it
//! follows the block when it moves.
use vstd::prelude::*;

use std::collections::HashMap;

use crate::cell::Cell;
use crate::cellmap::CellSet;
use crate::ids::BlockId;

verus! {

/// State of one pusher.
#[derive(Clone, Copy, Debug, PartialEq, Eq, Structural)]
pub struct PusherStateEntry {
    pub extended: bool,
    /// A factory block stood in front of the head when the snapshot was taken
    /// (blocks that fall in front later do not stick).
    pub bound_front: bool,
}

/// What the world shows of one pusher when the state is rebuilt.
#[derive(Clone, Copy, Debug, PartialEq, Eq, Structural)]
pub struct PusherSnapshot {
    pub id: BlockId,
    /// Its head block stands in front of it.
    pub extended: bool,
    /// A factory block stands where the head goes.
    pub bound_front: bool,
}

/// A powered-translate block as the actuation decision sees it.
#[derive(Clone, Copy, Debug, PartialEq, Eq, Structural)]
pub struct PusherDevice {
    pub pos: Cell,
    pub id: BlockId,
    /// Extends while powered (a blocker extends while unpowered).
    pub extend_when_powered: bool,
}

/// Extension state of every pusher, by block identity.
#[derive(Clone)]
pub struct PusherState {
    entries: HashMap<u64, PusherStateEntry>,
}

/// Whether the pusher `id` is extended according to `entries` (unknown pushers are not).
pub open spec fn extended_in(entries: Map<u64, PusherStateEntry>, id: BlockId) -> bool {
    entries.contains_key(id.0) && entries[id.0].extended
}

/// Whether a device wants to change its extension given the power it receives.
pub open spec fn wants_change(entries: Map<u64, PusherStateEntry>, d: PusherDevice, powered: bool) -> bool {
    let desired = if d.extend_when_powered { powered } else { !powered };
    desired != extended_in(entries, d.id)
}

/// Entries built from snapshots: a later snapshot of the same identity wins.
pub open spec fn snapshot_entries(s: Seq<PusherSnapshot>) -> Map<u64, PusherStateEntry>
    decreases s.len(),
{
    if s.len() == 0 {
        Map::empty()
    } else {
        let last = s.last();
        snapshot_entries(s.drop_last()).insert(
            last.id.0,
            PusherStateEntry { extended: last.extended, bound_front: last.bound_front },
        )
    }
}

impl PusherState {
    pub closed spec fn entries(&self) -> Map<u64, PusherStateEntry> {
        self.entries@
    }

    pub fn new() -> (s: PusherState)
        ensures
            s.entries() == Map::<u64, PusherStateEntry>::empty(),
    {
        PusherState { entries: HashMap::new() }
    }

    /// State rebuilt from what the world shows of each pusher.
    pub fn rebuild_from_world(pushers: &[PusherSnapshot]) -> (s: PusherState)
        ensures
            s.entries() == snapshot_entries(pushers@),
    {
        let mut entries: HashMap<u64, PusherStateEntry> = HashMap::new();
        let mut i: usize = 0;
        while i < pushers.len()
            invariant
                i <= pushers@.len(),
                entries@ == snapshot_entries(pushers@.take(i as int)),
            decreases pushers@.len() - i,
        {
            let p = pushers[i];
            entries.insert(p.id.0, PusherStateEntry { extended: p.extended, bound_front: p.bound_front });
            proof {
                assert(pushers@.take(i + 1).drop_last() =~= pushers@.take(i as int));
            }
            i = i + 1;
        }
        assert(pushers@.take(i as int) =~= pushers@);
        PusherState { entries }
    }

    pub fn clear(&mut self)
        ensures
            final(self).entries() == Map::<u64, PusherStateEntry>::empty(),
    {
        self.entries.clear();
    }

    /// Whether the pusher `id` is currently extended.
    pub fn is_extended(&self, id: BlockId) -> (r: bool)
        ensures
            r == extended_in(self.entries(), id),
    {
        match self.entries.get(&id.0) {
            Some(e) => e.extended,
            None => false,
        }
    }

    /// Cells of the devices whose wanted extension (from the power they receive)
    /// differs from their current one.
    pub fn actuating_devices(&self, devices: &[PusherDevice], powered_devices: &CellSet) -> (r: CellSet)
        requires
            powered_devices.wf(),
        ensures
            r.wf(),
            forall|c: Cell| #[trigger] r@.contains(c) <==> exists|i: int|
                0 <= i < devices@.len() && (#[trigger] devices@[i]).pos == c && wants_change(
                    self.entries(),
                    devices@[i],
                    powered_devices@.contains(c),
                ),
    {
        let mut out = CellSet::new();
        let mut i: usize = 0;
        while i < devices.len()
            invariant
                i <= devices@.len(),
                powered_devices.wf(),
                out.wf(),
                forall|c: Cell| #[trigger] out@.contains(c) <==> exists|j: int|
                    0 <= j < i && (#[trigger] devices@[j]).pos == c && wants_change(
                        self.entries(),
                        devices@[j],
                        powered_devices@.contains(c),
                    ),
            decreases devices@.len() - i,
        {
            let d = devices[i];
            let powered = powered_devices.contains(d.pos);
            let desired = if d.extend_when_powered { powered } else { !powered };
            let current = self.is_extended(d.id);
            if desired != current {
                out.insert(d.pos);
            }
            proof {
                assert forall|c: Cell| #[trigger] out@.contains(c) <==> exists|j: int|
                    0 <= j < i + 1 && (#[trigger] devices@[j]).pos == c && wants_change(
                        self.entries(),
                        devices@[j],
                        powered_devices@.contains(c),
                    ) by {
                    if exists|j: int| 0 <= j < i + 1 && (#[trigger] devices@[j]).pos == c && wants_change(
                        self.entries(),
                        devices@[j],
                        powered_devices@.contains(c),
                    ) {
                        let j = choose|j: int| 0 <= j < i + 1 && (#[trigger] devices@[j]).pos == c && wants_change(
                            self.entries(),
                            devices@[j],
                            powered_devices@.contains(c),
                        );
                        if j < i {
                            assert(devices@[j].pos == c);
                        }
                    }
                    if desired != current && c == d.pos {
                        assert(devices@[i as int].pos == c);
                    }
                }
            }
            i = i + 1;
        }
        out
    }

    /// Commits a pusher's new extension after a successful push or retraction.
    /// Returns whether it changed, in which case the caller puts or takes away the
    /// head block in the world; an unknown pusher is left alone.
    pub fn set_extended(&mut self, id: BlockId, extended: bool) -> (changed: bool)
        ensures
            changed == (old(self).entries().contains_key(id.0) && old(self).entries()[id.0].extended != extended),
            final(self).entries() == if changed {
                old(self).entries().insert(
                    id.0,
                    PusherStateEntry { extended, bound_front: old(self).entries()[id.0].bound_front },
                )
            } else {
                old(self).entries()
            },
    {
        let entry = match self.entries.get(&id.0) {
            Some(e) => *e,
            None => return false,
        };
        if entry.extended == extended {
            return false;
        }
        self.entries.insert(id.0, PusherStateEntry { extended, bound_front: entry.bound_front });
        true
    }
}


/// A device actuates exactly when the power it receives calls for the other extension:
/// a pusher extends when it gets power while retracted and retracts when it loses power
/// while extended; a blocker (extending while unpowered) does the opposite; a device
/// already where its power wants it does nothing. Flipping the power flips whether it
/// actuates, and a pusher the state does not know counts as retracted.
pub proof fn lemma_actuation(entries: Map<u64, PusherStateEntry>, d: PusherDevice, powered: bool)
    ensures
        d.extend_when_powered && powered && !extended_in(entries, d.id) ==> wants_change(entries, d, powered),
        d.extend_when_powered && !powered && extended_in(entries, d.id) ==> wants_change(entries, d, powered),
        !d.extend_when_powered && !powered && !extended_in(entries, d.id) ==> wants_change(entries, d, powered),
        !d.extend_when_powered && powered && extended_in(entries, d.id) ==> wants_change(entries, d, powered),
        d.extend_when_powered && powered && extended_in(entries, d.id) ==> !wants_change(entries, d, powered),
        d.extend_when_powered && !powered && !extended_in(entries, d.id) ==> !wants_change(entries, d, powered),
        !d.extend_when_powered && !powered && extended_in(entries, d.id) ==> !wants_change(entries, d, powered),
        !d.extend_when_powered && powered && !extended_in(entries, d.id) ==> !wants_change(entries, d, powered),
        wants_change(entries, d, powered) != wants_change(entries, d, !powered),
        !entries.contains_key(d.id.0) ==> !extended_in(entries, d.id),
{
}

/// After a rebuild from snapshots, a pusher is extended exactly when the last snapshot
/// of its identity shows it extended, and unknown when no snapshot shows it.
pub proof fn lemma_snapshot_extension(s: Seq<PusherSnapshot>, id: BlockId)
    ensures
        (forall|i: int| 0 <= i < s.len() ==> (#[trigger] s[i]).id.0 != id.0) ==> !snapshot_entries(s).contains_key(id.0),
        forall|i: int| 0 <= i < s.len() && (#[trigger] s[i]).id.0 == id.0 && (forall|j: int| i < j < s.len() ==> (#[trigger] s[j]).id.0 != id.0)
            ==> extended_in(snapshot_entries(s), id) == s[i].extended,
    decreases s.len(),
{
    if s.len() > 0 {
        let r = s.drop_last();
        lemma_snapshot_extension(r, id);
        assert forall|i: int| 0 <= i < s.len() && (#[trigger] s[i]).id.0 == id.0 && (forall|j: int| i < j < s.len() ==> (#[trigger] s[j]).id.0
            != id.0) implies extended_in(snapshot_entries(s), id) == s[i].extended by {
            if i < s.len() - 1 {
                assert(s[s.len() - 1].id.0 != id.0);
                assert(r[i] == s[i]);
                assert forall|j: int| i < j < r.len() implies (#[trigger] r[j]).id.0 != id.0 by {
                    assert(r[j] == s[j]);
                }
            }
        }
        if forall|i: int| 0 <= i < s.len() ==> (#[trigger] s[i]).id.0 != id.0 {
            assert forall|i: int| 0 <= i < r.len() implies (#[trigger] r[i]).id.0 != id.0 by {
                assert(r[i] == s[i]);
            }
            assert(s[s.len() - 1].id.0 != id.0);
        }
    }
}

} // verus!
