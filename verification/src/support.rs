//! Recorded gravity supports: the contacts that held a structure up when it could not
//! fall, checked again on later turns instead of searching anew.
use vstd::prelude::*;

use crate::cell::Cell;
use crate::cellmap::CellSet;
use crate::factory::far_from_limits;
use crate::ids::StructureId;
use crate::structure::{FactoryActivity, Structure, StructureKind};
use crate::structure_state::{with_support, StructureState};

verus! {

/// One cell down.
pub open spec fn down() -> Cell {
    Cell { x: 0i32, y: -1i32, z: 0i32 }
}

/// A block that holds structures up for good stands at `c`: a scene block, or a member
/// of an inactive factory structure.
pub open spec fn stable_at(st: StructureState, scene: Set<Cell>, c: Cell) -> bool {
    scene.contains(c) || match st.structure_at(c) {
        Some(s) => s.kind == StructureKind::Factory && s.activity == FactoryActivity::Inactive,
        None => false,
    }
}

/// Nothing can move into `c`: a block that does not give way stands there (`solid`),
/// or a pusher head holds it (`hard`).
pub open spec fn blocked_at(solid: Set<Cell>, hard: Set<Cell>, c: Cell) -> bool {
    solid.contains(c) || hard.contains(c)
}

/// The contact `c` (a member and the direction of its support) still holds the
/// structure `s` up: the member is still one, and its support, above the floor and
/// outside `s`, is blocked and stable.
pub open spec fn contact_holds(
    st: StructureState,
    s: Structure,
    c: (Cell, Cell),
    solid: Set<Cell>,
    scene: Set<Cell>,
    hard: Set<Cell>,
) -> bool {
    let support = c.0.plus(c.1);
    &&& s.positions@.contains(c.0)
    &&& support.y >= 0
    &&& !s.positions@.contains(support)
    &&& blocked_at(solid, hard, support)
    &&& stable_at(st, scene, support)
}

/// The member `p` of `s` rests on a blocked cell right below it, above the floor and
/// outside `s`.
pub open spec fn rests_below(s: Structure, p: Cell, solid: Set<Cell>, hard: Set<Cell>) -> bool {
    let below = p.plus(down());
    &&& s.positions@.contains(p)
    &&& below.y >= 0
    &&& !s.positions@.contains(below)
    &&& blocked_at(solid, hard, below)
}

/// `contacts` lists, once each and pointing down, the members of `s` that rest on a
/// blocked cell.
pub open spec fn resting_contacts(s: Structure, contacts: Seq<(Cell, Cell)>, solid: Set<Cell>, hard: Set<Cell>) -> bool {
    &&& forall|i: int| 0 <= i < contacts.len() ==> (#[trigger] contacts[i]).1 == down() && rests_below(s, contacts[i].0, solid, hard)
    &&& forall|i: int, j: int| 0 <= i < contacts.len() && 0 <= j < contacts.len() && i != j ==> (#[trigger] contacts[i]).0
        != (#[trigger] contacts[j]).0
    &&& forall|p: Cell| #[trigger] rests_below(s, p, solid, hard) ==> exists|i: int| 0 <= i < contacts.len() && (#[trigger] contacts[i]).0 == p
}

impl StructureState {
    /// The structure at `c` is an inactive factory structure.
    fn inactive_factory_at(&self, c: Cell) -> (r: bool)
        requires
            self.wf(),
        ensures
            r == match self.structure_at(c) {
                Some(s) => s.kind == StructureKind::Factory && s.activity == FactoryActivity::Inactive,
                None => false,
            },
    {
        match self.id_at(c) {
            Some(id) => match self.get(id) {
                Some(s) => s.kind == StructureKind::Factory && s.activity == FactoryActivity::Inactive,
                None => false,
            },
            None => false,
        }
    }

    /// Whether one of the recorded gravity supports of the structure `id` still holds
    /// it up (see `contact_holds`); false for an identity with no structure.
    pub fn gravity_support_valid(&self, id: StructureId, solid: &CellSet, scene: &CellSet, hard: &CellSet) -> (r: bool)
        requires
            self.wf(),
            self.table().contains_key(id.0) ==> forall|i: int| 0 <= i < self.table()[id.0].gravity_support@.len()
                ==> (#[trigger] self.table()[id.0].gravity_support@[i]).0.add_fits(self.table()[id.0].gravity_support@[i].1),
        ensures
            r == (self.table().contains_key(id.0) && exists|i: int| 0 <= i < self.table()[id.0].gravity_support@.len()
                && contact_holds(*self, self.table()[id.0], #[trigger] self.table()[id.0].gravity_support@[i], solid@, scene@, hard@)),
    {
        let s = match self.get(id) {
            Some(s) => s,
            None => {
                return false;
            },
        };
        proof {
            self.lemma_entry(id.0);
        }
        let mut i: usize = 0;
        while i < s.gravity_support.len()
            invariant
                self.wf(),
                self.table().contains_key(id.0),
                *s == self.table()[id.0],
                s.positions.wf(),
                i <= s.gravity_support@.len(),
                forall|j: int| 0 <= j < s.gravity_support@.len() ==> (#[trigger] s.gravity_support@[j]).0.add_fits(s.gravity_support@[j].1),
                forall|j: int| 0 <= j < i ==> !contact_holds(*self, *s, #[trigger] s.gravity_support@[j], solid@, scene@, hard@),
            decreases s.gravity_support@.len() - i,
        {
            let (m, d) = s.gravity_support[i];
            let support = m.add(d);
            if s.positions.contains(m) && support.y >= 0 && !s.positions.contains(support) && (solid.contains(support)
                || hard.contains(support)) && (scene.contains(support) || self.inactive_factory_at(support)) {
                proof {
                    assert(contact_holds(*self, *s, s.gravity_support@[i as int], solid@, scene@, hard@));
                }
                return true;
            }
            i = i + 1;
        }
        false
    }

    /// Records as the gravity supports of the structure `id` its members that rest on
    /// a blocked cell right below them (see `resting_contacts`); nothing changes for an
    /// identity with no structure.
    pub fn record_gravity_support(&mut self, id: StructureId, solid: &CellSet, hard: &CellSet)
        requires
            old(self).wf(),
            forall|p: Cell| #[trigger] old(self).index().contains_key(p) ==> far_from_limits(p),
        ensures
            if old(self).table().contains_key(id.0) {
                &&& final(self).wf()
                &&& final(self).index() == old(self).index()
                &&& final(self).last_id() == old(self).last_id()
                &&& final(self).held() == old(self).held()
                &&& final(self).moving() == old(self).moving()
                &&& final(self).head_counter() == old(self).head_counter()
                &&& final(self).acceptors() == old(self).acceptors()
                &&& final(self).table().dom() == old(self).table().dom()
                &&& forall|k: u64| k != id.0 && #[trigger] old(self).table().contains_key(k) ==> final(self).table()[k] == old(self).table()[k]
                &&& with_support(old(self).table()[id.0], final(self).table()[id.0], final(self).table()[id.0].gravity_support@)
                &&& resting_contacts(old(self).table()[id.0], final(self).table()[id.0].gravity_support@, solid@, hard@)
            } else {
                *final(self) == *old(self)
            },
    {
        let s = match self.get(id) {
            Some(s) => s,
            None => {
                return;
            },
        };
        proof {
            self.lemma_wf_facts();
            self.lemma_entry(id.0);
        }
        let cells = s.positions.to_vec();
        proof {
            s.positions.lemma_elems();
        }
        let ghost st0 = *self;
        let ghost s0 = *s;
        let mut contacts: Vec<(Cell, Cell)> = Vec::new();
        let mut i: usize = 0;
        while i < cells.len()
            invariant
                st0.wf(),
                s0 == st0.table()[id.0],
                *s == s0,
                s0.positions.wf(),
                cells@ == s0.positions.elems(),
                cells@.no_duplicates(),
                s0.positions@ == cells@.to_set(),
                forall|p: Cell| #[trigger] s0.positions@.contains(p) ==> far_from_limits(p),
                i <= cells@.len(),
                forall|a: int| 0 <= a < contacts@.len() ==> (#[trigger] contacts@[a]).1 == down() && rests_below(s0, contacts@[a].0, solid@, hard@)
                    && cells@.take(i as int).contains(contacts@[a].0),
                forall|a: int, b: int| 0 <= a < contacts@.len() && 0 <= b < contacts@.len() && a != b ==> (#[trigger] contacts@[a]).0
                    != (#[trigger] contacts@[b]).0,
                forall|t: int| 0 <= t < i && rests_below(s0, #[trigger] cells@[t], solid@, hard@) ==> exists|a: int|
                    0 <= a < contacts@.len() && (#[trigger] contacts@[a]).0 == cells@[t],
            decreases cells@.len() - i,
        {
            let p = cells[i];
            proof {
                assert(s0.positions@.contains(p));
            }
            let below = p.add(Cell { x: 0, y: -1, z: 0 });
            let ghost c0 = contacts@;
            if below.y >= 0 && !s.positions.contains(below) && (solid.contains(below) || hard.contains(below)) {
                contacts.push((p, Cell { x: 0, y: -1, z: 0 }));
            }
            proof {
                assert(cells@.take(i + 1) =~= cells@.take(i as int).push(p));
                assert forall|a: int| 0 <= a < contacts@.len() implies (#[trigger] contacts@[a]).1 == down() && rests_below(s0, contacts@[a].0, solid@, hard@)
                    && cells@.take(i + 1).contains(contacts@[a].0) by {
                    if a < c0.len() {
                        assert(contacts@[a] == c0[a]);
                        let u = choose|u: int| 0 <= u < i && cells@.take(i as int)[u] == c0[a].0;
                        assert(cells@.take(i + 1)[u] == c0[a].0);
                    } else {
                        assert(cells@.take(i + 1)[i as int] == p);
                    }
                }
                assert forall|a: int, b: int| 0 <= a < contacts@.len() && 0 <= b < contacts@.len() && a != b implies (#[trigger] contacts@[a]).0
                    != (#[trigger] contacts@[b]).0 by {
                    if a == c0.len() || b == c0.len() {
                        let o = if a == c0.len() { b } else { a };
                        assert(contacts@[o] == c0[o]);
                        let u = choose|u: int| 0 <= u < i && cells@.take(i as int)[u] == c0[o].0;
                        assert(cells@[u] != cells@[i as int]);
                    } else {
                        assert(contacts@[a] == c0[a] && contacts@[b] == c0[b]);
                    }
                }
                assert forall|t: int| 0 <= t < i + 1 && rests_below(s0, #[trigger] cells@[t], solid@, hard@) implies exists|a: int|
                    0 <= a < contacts@.len() && (#[trigger] contacts@[a]).0 == cells@[t] by {
                    if t < i {
                        let a = choose|a: int| 0 <= a < c0.len() && (#[trigger] c0[a]).0 == cells@[t];
                        assert(contacts@[a] == c0[a]);
                    } else {
                        assert(contacts@[c0.len() as int].0 == p);
                    }
                }
            }
            i = i + 1;
        }
        proof {
            assert forall|q: Cell| #[trigger] rests_below(s0, q, solid@, hard@) implies exists|a: int| 0 <= a < contacts@.len()
                && (#[trigger] contacts@[a]).0 == q by {
                assert(cells@.to_set().contains(q));
                let t = choose|t: int| 0 <= t < cells@.len() && cells@[t] == q;
            }
        }
        let ghost found = contacts@;
        self.set_gravity_support(id, contacts);
        proof {
            assert(self.table()[id.0].gravity_support@ == found);
        }
    }

    /// Looks for a member of the structure `id` resting on a blocked, stable cell right
    /// below it; when one is found, records it as the one gravity support and answers
    /// true, and otherwise changes nothing and answers false.
    pub fn try_record_stable_gravity_support(&mut self, id: StructureId, solid: &CellSet, scene: &CellSet, hard: &CellSet) -> (r: bool)
        requires
            old(self).wf(),
            forall|p: Cell| #[trigger] old(self).index().contains_key(p) ==> far_from_limits(p),
        ensures
            r == (old(self).table().contains_key(id.0) && exists|p: Cell| #[trigger] rests_below(old(self).table()[id.0], p, solid@, hard@)
                && stable_at(*old(self), scene@, p.plus(down()))),
            r ==> {
                &&& final(self).wf()
                &&& final(self).index() == old(self).index()
                &&& final(self).last_id() == old(self).last_id()
                &&& final(self).held() == old(self).held()
                &&& final(self).moving() == old(self).moving()
                &&& final(self).head_counter() == old(self).head_counter()
                &&& final(self).acceptors() == old(self).acceptors()
                &&& final(self).table().dom() == old(self).table().dom()
                &&& forall|k: u64| k != id.0 && #[trigger] old(self).table().contains_key(k) ==> final(self).table()[k] == old(self).table()[k]
                &&& exists|p: Cell| #[trigger] rests_below(old(self).table()[id.0], p, solid@, hard@) && stable_at(*old(self), scene@, p.plus(down()))
                    && with_support(old(self).table()[id.0], final(self).table()[id.0], seq![(p, down())])
            },
            !r ==> *final(self) == *old(self),
    {
        let s = match self.get(id) {
            Some(s) => s,
            None => {
                return false;
            },
        };
        proof {
            self.lemma_wf_facts();
            self.lemma_entry(id.0);
        }
        let cells = s.positions.to_vec();
        proof {
            s.positions.lemma_elems();
        }
        let ghost st0 = *self;
        let ghost s0 = *s;
        let mut found: Option<Cell> = None;
        let mut i: usize = 0;
        while i < cells.len()
            invariant_except_break
                found is None,
                forall|t: int| 0 <= t < i ==> !(rests_below(s0, #[trigger] cells@[t], solid@, hard@) && stable_at(st0, scene@, cells@[t].plus(down()))),
            invariant
                st0 == *self,
                st0.wf(),
                s0 == st0.table()[id.0],
                *s == s0,
                s0.positions.wf(),
                cells@ == s0.positions.elems(),
                s0.positions@ == cells@.to_set(),
                forall|p: Cell| #[trigger] s0.positions@.contains(p) ==> far_from_limits(p),
                i <= cells@.len(),
            ensures
                found matches Some(p) ==> rests_below(s0, p, solid@, hard@) && stable_at(st0, scene@, p.plus(down())),
                found is None ==> forall|t: int| 0 <= t < cells@.len() ==> !(rests_below(s0, #[trigger] cells@[t], solid@, hard@) && stable_at(
                    st0,
                    scene@,
                    cells@[t].plus(down()),
                )),
            decreases cells@.len() - i,
        {
            let p = cells[i];
            proof {
                assert(s0.positions@.contains(p));
            }
            let below = p.add(Cell { x: 0, y: -1, z: 0 });
            if below.y >= 0 && !s.positions.contains(below) && (solid.contains(below) || hard.contains(below)) && (scene.contains(below)
                || self.inactive_factory_at(below)) {
                found = Some(p);
                proof {
                    assert(rests_below(s0, p, solid@, hard@) && stable_at(st0, scene@, p.plus(down())));
                }
                break;
            }
            i = i + 1;
        }
        match found {
            Some(p) => {
                let contact = vec![(p, Cell { x: 0, y: -1, z: 0 })];
                proof {
                    assert(contact@ =~= seq![(p, down())]);
                }
                self.set_gravity_support(id, contact);
                true
            },
            None => {
                proof {
                    assert forall|q: Cell| #[trigger] rests_below(s0, q, solid@, hard@) implies !stable_at(st0, scene@, q.plus(down())) by {
                        assert(cells@.to_set().contains(q));
                        let t = choose|t: int| 0 <= t < cells@.len() && cells@[t] == q;
                    }
                }
                false
            },
        }
    }

    /// Forgets the recorded gravity supports of the structure `id`; nothing changes for
    /// an identity with no structure.
    pub fn clear_gravity_support(&mut self, id: StructureId)
        requires
            old(self).wf(),
        ensures
            if old(self).table().contains_key(id.0) {
                &&& final(self).wf()
                &&& final(self).index() == old(self).index()
                &&& final(self).last_id() == old(self).last_id()
                &&& final(self).held() == old(self).held()
                &&& final(self).moving() == old(self).moving()
                &&& final(self).head_counter() == old(self).head_counter()
                &&& final(self).acceptors() == old(self).acceptors()
                &&& final(self).table().dom() == old(self).table().dom()
                &&& forall|k: u64| k != id.0 && #[trigger] old(self).table().contains_key(k) ==> final(self).table()[k] == old(self).table()[k]
                &&& with_support(old(self).table()[id.0], final(self).table()[id.0], Seq::empty())
            } else {
                *final(self) == *old(self)
            },
    {
        if self.get(id).is_some() {
            let none: Vec<(Cell, Cell)> = Vec::new();
            proof {
                assert(none@ =~= Seq::<(Cell, Cell)>::empty());
            }
            self.set_gravity_support(id, none);
        }
    }
}


/// Only lasting supports count across turns: a recorded contact holds only when its
/// support cell is a scene block or belongs to an inactive factory structure. A support
/// in an active factory structure, in a material structure, or in no structure and not
/// scene never holds. A contact on a blocked scene cell, from a member, above the floor
/// and outside the structure, always holds.
pub proof fn lemma_only_lasting_supports_hold(
    st: StructureState,
    s: Structure,
    c: (Cell, Cell),
    solid: Set<Cell>,
    scene: Set<Cell>,
    hard: Set<Cell>,
)
    ensures
        ({
            let support = c.0.plus(c.1);
            &&& contact_holds(st, s, c, solid, scene, hard) ==> scene.contains(support) || (st.structure_at(support) is Some
                && st.structure_at(support).unwrap().kind == StructureKind::Factory && st.structure_at(support).unwrap().activity
                == FactoryActivity::Inactive)
            &&& !scene.contains(support) && st.structure_at(support) is Some && st.structure_at(support).unwrap().activity
                == FactoryActivity::Active ==> !contact_holds(st, s, c, solid, scene, hard)
            &&& !scene.contains(support) && st.structure_at(support) is Some && st.structure_at(support).unwrap().kind
                == StructureKind::Material ==> !contact_holds(st, s, c, solid, scene, hard)
            &&& !scene.contains(support) && st.structure_at(support) is None ==> !contact_holds(st, s, c, solid, scene, hard)
            &&& contact_holds(st, s, c, solid, scene, hard) ==> (solid.contains(support) || hard.contains(support)) && support.y >= 0
                && s.positions@.contains(c.0) && !s.positions@.contains(support)
            &&& scene.contains(support) && (solid.contains(support) || hard.contains(support)) && support.y >= 0 && s.positions@.contains(
                c.0,
            ) && !s.positions@.contains(support) ==> contact_holds(st, s, c, solid, scene, hard)
        }),
{
}

} // verus!
