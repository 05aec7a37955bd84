//! Full rebuilds of the structure table from the world: factory structures and their
//! activity, pusher deformation, acceptor structures, material structures.
use vstd::prelude::*;

use crate::cell::Cell;
use crate::cellmap::{CellMap, CellSet};
use crate::deform_graph::{blocks_far, factory_view, ids_unique, link_of, pushes_unit, DeformBlock};
use crate::factory::{allowed_ok, closed_under_steps, factory_step, factory_reach, far_from_limits, lemma_reach_allowed, FactoryLink};
use crate::ids::{BlockId, MaterialWeld, StructureId};
use crate::materials::{
    classes_whole,
    append_material_structures, materials_ok, materials_owned_by_materials, materials_refreshed, materials_registered,
    refresh_material_structures, remembered_ok,
};
use crate::structure::{AcceptorStructure, StoredAcceptorStructure, StructureKind};
use crate::activity::all_propagated;
use crate::structure_state::{
    factory_cells, factory_retained,
    acceptors_appended, all_deform_rebuilt, all_refreshed, factory_grown, fresh_table, synced_counter, StructureState,
};

verus! {

/// What a rebuild reads of the world.
pub struct StructureWorld {
    /// Every block, with what deformation and factory connectivity read of it.
    pub blocks: CellMap<DeformBlock>,
    /// The cells of factory blocks.
    pub factory: CellSet,
    /// The cells of scene blocks.
    pub scene: CellSet,
    /// The material blocks by cell.
    pub materials: CellMap<BlockId>,
    pub welds: Vec<MaterialWeld>,
    pub acceptors: Vec<StoredAcceptorStructure>,
    /// The next identity the world will give a block.
    pub next_block_id: u64,
    /// Advances (wrapping) whenever the grid's topology changes, so that what is derived
    /// from it knows to refresh.
    pub topology_revision: u64,
}

impl StructureWorld {
    /// The factory connectivity view of the blocks.
    pub open spec fn links(&self) -> Map<Cell, FactoryLink> {
        self.blocks@.map_values(|b: DeformBlock| link_of(b))
    }

    /// The world is consistent: blocks away from the coordinate limits with distinct
    /// identities below the next one, pushers pushing along axes, factory cells that are
    /// no heads, material cells that are not factory cells.
    pub open spec fn wf(&self) -> bool {
        &&& self.blocks.wf()
        &&& self.factory.wf()
        &&& self.scene.wf()
        &&& self.materials.wf()
        &&& materials_ok(self.materials@)
        &&& blocks_far(self.blocks@)
        &&& pushes_unit(self.blocks@)
        &&& ids_unique(self.blocks@)
        &&& forall|c: Cell| #[trigger] self.blocks@.contains_key(c) ==> self.blocks@[c].id.0 < self.next_block_id
        &&& allowed_ok(self.links(), self.factory@)
        &&& forall|p: Cell| #[trigger] self.materials@.contains_key(p) ==> !self.factory@.contains(p)
    }
}

/// `after` is the table rebuilt from the world by the steps of a rebuild, starting from
/// a fresh table with the head counter `counter`: factory structures grown, refreshed
/// from the scene, (when `deform`) their deformation rebuilt, the acceptor structures
/// appended, the material structures registered with fresh identities.
pub open spec fn rebuilt_from(after: StructureState, w: &StructureWorld, counter: u64, deform: bool) -> bool {
    exists|s1: StructureState, s2: StructureState, s3: StructureState, s4: StructureState, s5: StructureState|
        #![trigger factory_grown(s1, s2, w.links(), w.factory@), all_refreshed(s2, s3, w.links(), w.scene@), acceptors_appended(s4, s5, w.acceptors@)]
        fresh_table(s1, counter) && factory_grown(s1, s2, w.links(), w.factory@) && all_refreshed(s2, s3, w.links(), w.scene@) && (if deform {
            all_deform_rebuilt(s3, s4, w.blocks@, w.scene@, w.next_block_id)
        } else {
            s4 == s3
        }) && acceptors_appended(s4, s5, w.acceptors@) && materials_registered(s5, after, w.materials@, w.welds@, Seq::empty(), Seq::empty())
}

/// The cells owned after a rebuild of `w` are closed under its factory steps, and the
/// materials among them form whole welded classes: what an edit of that world relies on.
pub open spec fn rebuilt_whole(st: StructureState, w: &StructureWorld) -> bool {
    &&& closed_under_steps(w.links(), w.factory@, st.index().dom())
    &&& classes_whole(w.materials@, w.welds@, st.index().dom())
}

impl StructureState {
    fn rebuild_for_simulation_mode(&mut self, world: &StructureWorld, rebuild_deform: bool)
        requires
            world.wf(),
            synced_counter(old(self).head_counter(), world.next_block_id) + world.factory@.len() + world.materials@.dom().len() <= u64::MAX,
        ensures
            rebuilt_from(*final(self), world, synced_counter(old(self).head_counter(), world.next_block_id), rebuild_deform),
            rebuilt_whole(*final(self), world),
    {
        let ghost counter = synced_counter(self.head_counter(), world.next_block_id);
        self.reset_for_rebuild(world.next_block_id);
        let ghost s1 = *self;
        let view = factory_view(&world.blocks);
        proof {
            assert(view@ == world.links());
            assert(closed_under_steps(view@, world.factory@, s1.index().dom()));
            world.factory.lemma_elems();
        }
        self.append_factory_structures(&view, &world.factory);
        let ghost s2 = *self;
        proof {
            assert forall|p: Cell| #[trigger] s2.index().contains_key(p) implies world.factory@.contains(p) by {
                let c = choose|c: Cell| world.factory@.contains(c) && !s1.index().contains_key(c) && #[trigger] factory_reach(
                    view@,
                    world.factory@,
                    None,
                    c,
                ).contains(p);
                lemma_reach_allowed(view@, world.factory@, c, p);
            }
            assert forall|p: Cell| #[trigger] s2.index().contains_key(p) implies far_from_limits(p) by {
                assert(world.factory@.contains(p));
            }
        }
        self.refresh_all_factory_activity_from_scene(&view, &world.scene);
        let ghost s3 = *self;
        if rebuild_deform {
            proof {
                assert(s3.index().dom().subset_of(world.factory@)) by {
                    assert forall|p: Cell| s3.index().dom().contains(p) implies world.factory@.contains(p) by {
                        assert(s2.index().contains_key(p));
                    }
                }
                vstd::set_lib::lemma_len_subset(s3.index().dom(), world.factory@);
                assert(synced_counter(s3.head_counter(), world.next_block_id) == counter);
            }
            self.rebuild_all_factory_deform(&world.blocks, &world.scene, world.next_block_id);
        }
        let ghost s4 = *self;
        self.append_acceptor_structures(world.acceptors.as_slice());
        let ghost s5 = *self;
        let previous: Vec<(Vec<u64>, StructureId)> = Vec::new();
        let support: Vec<(StructureId, Vec<(Cell, Cell)>)> = Vec::new();
        proof {
            assert forall|p: Cell| #[trigger] world.materials@.contains_key(p) implies !s5.index().contains_key(p) by {
                if s5.index().contains_key(p) {
                    assert(s2.index().contains_key(p));
                }
            }
            assert(remembered_ok(previous@, s5));
            assert(s5.last_id() <= world.factory@.len());
        }
        append_material_structures(self, &world.materials, world.welds.as_slice(), previous.as_slice(), support.as_slice());
        proof {
            assert(previous@ == Seq::<(Vec<u64>, StructureId)>::empty());
            assert(support@ == Seq::<(StructureId, Vec<(Cell, Cell)>)>::empty());
            assert(fresh_table(s1, counter));
            assert(factory_grown(s1, s2, world.links(), world.factory@));
            assert(all_refreshed(s2, s3, world.links(), world.scene@));
            assert(acceptors_appended(s4, s5, world.acceptors@));
            let s6 = *self;
            assert(s5.index() == s2.index());
            assert forall|sx: Cell, a: Cell, b: Cell| #![trigger s6.index().dom().contains(a), factory_step(world.links(), world.factory@, None, sx, a, b)]
                world.factory@.contains(sx) && world.factory@.contains(a) && s6.index().dom().contains(a) && factory_step(world.links(), world.factory@, None, sx, a, b)
                implies s6.index().dom().contains(b) by {
                assert(!world.materials@.contains_key(a));
                assert(s2.index().dom().contains(a));
                assert(s2.index().dom().contains(b));
            }
            assert(closed_under_steps(world.links(), world.factory@, s6.index().dom()));
        }
    }

    /// Rebuilds the whole table from the world, the deformation of every factory
    /// structure included (see `rebuilt_from`).
    pub fn rebuild_for_simulation(&mut self, world: &StructureWorld)
        requires
            world.wf(),
            synced_counter(old(self).head_counter(), world.next_block_id) + world.factory@.len() + world.materials@.dom().len() <= u64::MAX,
        ensures
            rebuilt_from(*final(self), world, synced_counter(old(self).head_counter(), world.next_block_id), true),
            rebuilt_whole(*final(self), world),
    {
        self.rebuild_for_simulation_mode(world, true);
    }

    /// Rebuilds the whole table from the world, leaving the deformation of the factory
    /// structures to be rebuilt when they first act (see `rebuilt_from`).
    pub fn rebuild_for_runtime(&mut self, world: &StructureWorld)
        requires
            world.wf(),
            synced_counter(old(self).head_counter(), world.next_block_id) + world.factory@.len() + world.materials@.dom().len() <= u64::MAX,
        ensures
            rebuilt_from(*final(self), world, synced_counter(old(self).head_counter(), world.next_block_id), false),
            rebuilt_whole(*final(self), world),
    {
        self.rebuild_for_simulation_mode(world, false);
    }
}


/// `after` is `before` refreshed at the start of a simulation: the turn holds cleared,
/// the acceptor structures replaced by the stored ones, the material structures rebuilt
/// (each remembered member set keeping its identity); factory structures are kept.
pub open spec fn start_refreshed(before: StructureState, after: StructureState, w: &StructureWorld) -> bool {
    exists|s1: StructureState, s2: StructureState| #![trigger acceptors_appended(s1, s2, w.acceptors@)]
        s1.table() == before.table() && s1.index() == before.index() && s1.last_id() == before.last_id() && s1.wf() == before.wf()
            && s1.held() == Set::<u64>::empty() && s1.moving() == Set::<u64>::empty() && s1.head_counter() == before.head_counter()
            && s1.acceptors() == Seq::<AcceptorStructure>::empty() && acceptors_appended(s1, s2, w.acceptors@) && materials_refreshed(
            s2,
            after,
            w.materials@,
            w.welds@,
        )
}

impl StructureState {
    /// At the start of a simulation: with factory structures already built, refreshes
    /// only the acceptor and material structures (see `start_refreshed`); with none,
    /// rebuilds the whole table, leaving deformation for later (see `rebuilt_from`).
    pub fn refresh_for_simulation_start(&mut self, world: &StructureWorld)
        requires
            old(self).wf(),
            world.wf(),
            materials_owned_by_materials(*old(self), world.materials@),
            old(self).last_id() + world.materials@.dom().len() <= u64::MAX,
            synced_counter(old(self).head_counter(), world.next_block_id) + world.factory@.len() + world.materials@.dom().len() <= u64::MAX,
        ensures
            if exists|k: u64| #[trigger] old(self).table().contains_key(k) && old(self).table()[k].kind == StructureKind::Factory {
                start_refreshed(*old(self), *final(self), world)
            } else {
                rebuilt_from(*final(self), world, synced_counter(old(self).head_counter(), world.next_block_id), false)
            },
    {
        self.clear_turn_marks();
        if !self.has_factory_structure() {
            self.rebuild_for_simulation_mode(world, false);
            return;
        }
        self.clear_acceptor_structures();
        let ghost s1 = *self;
        self.append_acceptor_structures(world.acceptors.as_slice());
        let ghost s2 = *self;
        refresh_material_structures(self, &world.materials, world.welds.as_slice());
        proof {
            assert(acceptors_appended(s1, s2, world.acceptors@));
        }
    }
}


/// `after` is `before` with its factory structures rebuilt from the world: only the
/// factory structures kept, factory structures grown from every factory cell no
/// structure owns, inactivity spread from the scene, and the deformation of every
/// factory structure rebuilt.
pub open spec fn factory_rebuilt(before: StructureState, after: StructureState, w: &StructureWorld) -> bool {
    exists|s1: StructureState, s2: StructureState, s3: StructureState|
        #![trigger factory_retained(before, s1), factory_grown(s1, s2, w.links(), w.factory@), all_propagated(s2, s3, w.links(), w.scene@)]
        factory_retained(before, s1) && factory_grown(s1, s2, w.links(), w.factory@) && all_propagated(s2, s3, w.links(), w.scene@)
            && all_deform_rebuilt(s3, after, w.blocks@, w.scene@, w.next_block_id)
}

impl StructureState {
    /// Rebuilds only the factory structures and their deformation from the world (see
    /// `factory_rebuilt`).  The factory structures kept must be closed under the
    /// factory steps of the world.
    pub fn rebuild_factory_for_debug(&mut self, world: &StructureWorld)
        requires
            old(self).wf(),
            world.wf(),
            closed_under_steps(world.links(), world.factory@, factory_cells(*old(self))),
            forall|p: Cell| #[trigger] old(self).index().contains_key(p) ==> far_from_limits(p),
            old(self).last_id() + world.factory@.len() <= u64::MAX,
            synced_counter(old(self).head_counter(), world.next_block_id) + old(self).index().dom().len() + world.factory@.len()
                <= u64::MAX,
        ensures
            factory_rebuilt(*old(self), *final(self), world),
    {
        let ghost s0 = *self;
        self.retain_factory_only();
        let ghost s1 = *self;
        let view = factory_view(&world.blocks);
        proof {
            assert(factory_retained(s0, s1));
            assert(s1.index().dom() =~= factory_cells(s0));
            assert(view@ == world.links());
        }
        self.append_factory_structures(&view, &world.factory);
        let ghost s2 = *self;
        proof {
            assert forall|p: Cell| #[trigger] s2.index().contains_key(p) implies far_from_limits(p) && (s0.index().contains_key(p)
                || world.factory@.contains(p)) by {
                if !s1.index().contains_key(p) {
                    let c = choose|c: Cell| world.factory@.contains(c) && !s1.index().contains_key(c) && #[trigger] factory_reach(
                        view@,
                        world.factory@,
                        None,
                        c,
                    ).contains(p);
                    lemma_reach_allowed(view@, world.factory@, c, p);
                }
            }
        }
        self.apply_factory_inactive_propagation(&view, &world.scene);
        let ghost s3 = *self;
        proof {
            s0.lemma_index_finite();
            world.factory.lemma_elems();
            assert(s3.index().dom().subset_of(s0.index().dom() + world.factory@));
            vstd::set_lib::lemma_len_subset(s3.index().dom(), s0.index().dom() + world.factory@);
            vstd::set_lib::lemma_len_union(s0.index().dom(), world.factory@);
            assert(all_propagated(s2, s3, world.links(), world.scene@));
        }
        self.rebuild_all_factory_deform(&world.blocks, &world.scene, world.next_block_id);
    }
}

} // verus!
