//! Decisions of a turn that stand around the movement phases: which actuating factory
//! structures get their deformation rebuilt before marking, and which after-move
//! phases run.
use vstd::prelude::*;

use crate::cell::Cell;
use crate::cellmap::{CellMap, CellSet};
use crate::deform_graph::{blocks_far, ids_unique, is_head_block, pushes_unit, DeformBlock};
use crate::factory::far_from_limits;
use crate::ids::StructureId;
use crate::structure::FactoryActivity;
use crate::structure_state::{some_deform_rebuilt, synced_counter, vec_has_id, StructureState};

verus! {

/// The device at `pos` makes its structure `id` need a deformation: the structure is
/// active, or the cell in front of the device holds a pusher head, or a member of the
/// structure that does not touch the scene.
pub open spec fn device_needs_deform(st: StructureState, m: Map<Cell, DeformBlock>, pos: Cell, id: StructureId) -> bool {
    let s = st.table()[id.0];
    let head = pos.plus(m[pos].forward);
    &&& st.index().contains_key(pos)
    &&& st.index()[pos] == id
    &&& m.contains_key(pos)
    &&& (s.activity == FactoryActivity::Active || is_head_block(m, head) || (st.index().contains_key(head) && st.index()[head] == id
        && !s.scene_touching@.contains(head)))
}

/// The structure `id` has no deformation yet and one of the actuating devices needs one.
pub open spec fn needs_deform(st: StructureState, m: Map<Cell, DeformBlock>, actuating: Set<Cell>, id: StructureId) -> bool {
    &&& st.table().contains_key(id.0)
    &&& st.table()[id.0].head_of@.len() == 0
    &&& exists|pos: Cell| #[trigger] actuating.contains(pos) && device_needs_deform(st, m, pos, id)
}

/// The cell in front of every actuating device can be computed.
pub open spec fn fronts_fit(m: Map<Cell, DeformBlock>, actuating: Set<Cell>) -> bool {
    forall|p: Cell| #[trigger] actuating.contains(p) && m.contains_key(p) ==> p.add_fits(m[p].forward)
}

impl StructureState {
    fn device_needs_deform_at(&self, m: &CellMap<DeformBlock>, pos: Cell, id: StructureId) -> (r: bool)
        requires
            self.wf(),
            m.wf(),
            self.table().contains_key(id.0),
            m@.contains_key(pos) ==> pos.add_fits(m@[pos].forward),
        ensures
            r == device_needs_deform(*self, m@, pos, id),
    {
        match self.id_at(pos) {
            Some(owner) => {
                if owner.0 != id.0 {
                    return false;
                }
            },
            None => {
                return false;
            },
        }
        let block = match m.get(pos) {
            Some(b) => b,
            None => {
                return false;
            },
        };
        let s = self.get(id).unwrap();
        proof {
            self.lemma_entry(id.0);
        }
        let head = pos.add(block.forward);
        if s.activity == FactoryActivity::Active {
            return true;
        }
        let at_head = match m.get(head) {
            Some(h) => h.head,
            None => false,
        };
        if at_head {
            return true;
        }
        match self.id_at(head) {
            Some(owner) => owner.0 == id.0 && !s.scene_touching.contains(head),
            None => false,
        }
    }

    /// Whether the structure `id` needs its deformation rebuilt before the actuating
    /// devices `actuating` act (see `needs_deform`).
    pub fn needs_deform(&self, m: &CellMap<DeformBlock>, actuating: &CellSet, id: StructureId) -> (r: bool)
        requires
            self.wf(),
            m.wf(),
            actuating.wf(),
            fronts_fit(m@, actuating@),
        ensures
            r == needs_deform(*self, m@, actuating@, id),
    {
        let s = match self.get(id) {
            Some(s) => s,
            None => {
                return false;
            },
        };
        if s.head_of.len() > 0 {
            return false;
        }
        let list = actuating.to_vec();
        proof {
            actuating.lemma_elems();
        }
        let mut i: usize = 0;
        while i < list.len()
            invariant
                self.wf(),
                m.wf(),
                self.table().contains_key(id.0),
                self.table()[id.0].head_of@.len() == 0,
                actuating@ == list@.to_set(),
                fronts_fit(m@, actuating@),
                i <= list@.len(),
                forall|t: int| 0 <= t < i ==> !device_needs_deform(*self, m@, #[trigger] list@[t], id),
            decreases list@.len() - i,
        {
            let pos = list[i];
            proof {
                assert(actuating@.contains(pos));
            }
            if self.device_needs_deform_at(m, pos, id) {
                proof {
                    assert(actuating@.contains(pos) && device_needs_deform(*self, m@, pos, id));
                }
                return true;
            }
            i = i + 1;
        }
        proof {
            assert forall|pos: Cell| #[trigger] actuating@.contains(pos) implies !device_needs_deform(*self, m@, pos, id) by {
                let t = choose|t: int| 0 <= t < list@.len() && list@[t] == pos;
            }
        }
        false
    }

    /// Before marking the moves of a turn: rebuilds the deformation of every factory
    /// structure that needs one for the actuating devices `actuating` (see
    /// `needs_deform`); the others are kept.
    pub fn prepare_actuating_deform(&mut self, m: &CellMap<DeformBlock>, scene: &CellSet, next_block_id: u64, actuating: &CellSet)
        requires
            old(self).wf(),
            m.wf(),
            scene.wf(),
            actuating.wf(),
            fronts_fit(m@, actuating@),
            blocks_far(m@),
            pushes_unit(m@),
            ids_unique(m@),
            forall|c: Cell| #[trigger] m@.contains_key(c) ==> m@[c].id.0 < next_block_id,
            forall|p: Cell| #[trigger] old(self).index().contains_key(p) ==> far_from_limits(p),
            synced_counter(old(self).head_counter(), next_block_id) + old(self).index().dom().len() <= u64::MAX,
        ensures
            some_deform_rebuilt(
                *old(self),
                *final(self),
                m@,
                scene@,
                next_block_id,
                Set::new(|id: StructureId| needs_deform(*old(self), m@, actuating@, id)),
            ),
    {
        let ghost s0 = *self;
        let ghost target = Set::new(|id: StructureId| needs_deform(s0, m@, actuating@, id));
        let list = actuating.to_vec();
        proof {
            actuating.lemma_elems();
        }
        let mut ids: Vec<StructureId> = Vec::new();
        let mut i: usize = 0;
        while i < list.len()
            invariant
                *self == s0,
                s0.wf(),
                m.wf(),
                actuating.wf(),
                actuating@ == list@.to_set(),
                fronts_fit(m@, actuating@),
                target == Set::new(|id: StructureId| needs_deform(s0, m@, actuating@, id)),
                i <= list@.len(),
                ids@.no_duplicates(),
                forall|x: StructureId| #[trigger] ids@.contains(x) <==> (target.contains(x) && exists|t: int| 0 <= t < i && s0.index().contains_key(
                    #[trigger] list@[t],
                ) && s0.index()[list@[t]] == x),
            decreases list@.len() - i,
        {
            let pos = list[i];
            let ghost ids0 = ids@;
            match self.id_at(pos) {
                Some(id) => {
                    let fresh = !vec_has_id(&ids, id);
                    if fresh && self.needs_deform(m, actuating, id) {
                        ids.push(id);
                        proof {
                            assert(ids@ == ids0.push(id));
                        }
                    }
                    proof {
                        assert(s0.index()[list@[i as int]] == id);
                        if target.contains(id) && !ids0.contains(id) {
                            assert(needs_deform(s0, m@, actuating@, id));
                            assert(ids@[ids0.len() as int] == id);
                            assert(ids@.contains(id));
                        }
                    }
                },
                None => {},
            }
            proof {
                assert forall|x: StructureId| #[trigger] ids@.contains(x) <==> (target.contains(x) && exists|t: int| 0 <= t < i + 1
                    && s0.index().contains_key(#[trigger] list@[t]) && s0.index()[list@[t]] == x) by {
                    if ids@.contains(x) && !ids0.contains(x) {
                        assert(ids@[ids@.len() - 1] == x);
                        assert(s0.index().contains_key(list@[i as int]));
                    }
                    if ids0.contains(x) {
                        let a = choose|a: int| 0 <= a < ids0.len() && ids0[a] == x;
                        assert(ids@[a] == x);
                    }
                    if target.contains(x) && (exists|t: int| 0 <= t < i + 1 && s0.index().contains_key(#[trigger] list@[t])
                        && s0.index()[list@[t]] == x) && !ids0.contains(x) {
                        let t = choose|t: int| 0 <= t < i + 1 && s0.index().contains_key(#[trigger] list@[t]) && s0.index()[list@[t]] == x;
                        if t < i {
                            assert(ids0.contains(x));
                        } else {
                            assert(ids@.contains(x));
                        }
                    }
                }
            }
            i = i + 1;
        }
        proof {
            s0.lemma_wf_facts();
            assert forall|x: StructureId| #[trigger] ids@.contains(x) implies s0.table().contains_key(x.0) by {}
            assert forall|x: StructureId| #[trigger] target.contains(x) implies ids@.contains(x) by {
                let pos = choose|pos: Cell| #[trigger] actuating@.contains(pos) && device_needs_deform(s0, m@, pos, x);
                let t = choose|t: int| 0 <= t < list@.len() && list@[t] == pos;
                assert(s0.index().contains_key(list@[t]) && s0.index()[list@[t]] == x);
            }
            assert(ids@.to_set() =~= target);
        }
        self.rebuild_deform_for_ids(m, scene, next_block_id, &ids);
    }
}

/// Which of the after-move phases of a turn run.
#[derive(Clone, Copy, Debug, PartialEq, Eq, Structural)]
pub struct AfterMovePhases {
    /// Destroying materials (drills and powered lasers).
    pub destroy: bool,
    /// Teleporting and converting materials.
    pub teleport_and_convert: bool,
    /// Accepting materials.
    pub accept: bool,
    /// Welding materials.
    pub weld: bool,
    /// Painting and stamping materials.
    pub label: bool,
}

/// The after-move phases of a turn: destruction when there were materials or a laser
/// fires; teleport, conversion and welding only with materials and system blocks;
/// acceptance only with materials and acceptor structures; painting and stamping with
/// materials.
pub open spec fn after_move_phases_spec(had_materials: bool, lasers: bool, system_blocks: bool, acceptors: bool) -> AfterMovePhases {
    AfterMovePhases {
        destroy: had_materials || lasers,
        teleport_and_convert: had_materials && system_blocks,
        accept: had_materials && acceptors,
        weld: had_materials && system_blocks,
        label: had_materials,
    }
}

/// Decides the after-move phases from what the turn held before them (see
/// `after_move_phases_spec`); generation is always scheduled.
pub fn after_move_phases(had_materials: bool, lasers: bool, system_blocks: bool, acceptors: bool) -> (r: AfterMovePhases)
    ensures
        r == after_move_phases_spec(had_materials, lasers, system_blocks, acceptors),
{
    AfterMovePhases {
        destroy: had_materials || lasers,
        teleport_and_convert: had_materials && system_blocks,
        accept: had_materials && acceptors,
        weld: had_materials && system_blocks,
        label: had_materials,
    }
}

/// The material structures are refreshed at the end of a turn when materials were
/// there before the phases or are there after them.
pub fn refresh_materials_after_turn(had_materials: bool, materials_now: u64) -> (r: bool)
    ensures
        r == (had_materials || materials_now > 0),
{
    had_materials || materials_now > 0
}

} // verus!
