//! Edits of the world at some cells: the structures near the edit are broken up and
//! grown again from the world as it now is; the others are kept.
use vstd::prelude::*;

use crate::cell::{signal_offsets, signal_offsets_spec, Cell};
use crate::cellmap::{CellMap, CellSet};
use crate::deform_graph::factory_view;
use crate::factory::{closed_under_steps, factory_reach, far_from_limits, lemma_reach_allowed, FactoryLink};
use crate::ids::StructureId;
use crate::materials::{
    apply_material_edit, cells_of, classes_whole, material_edit_stale, material_edited, materials_owned_by_materials,
};
use crate::rebuild::StructureWorld;
use crate::structure::StructureKind;
use crate::structure_state::{
    entry_ok, grown_factory, owners_of_kind, scene_refreshed, structures_removed, vec_has_id, without_owners, StructureState,
};

verus! {

/// `q` is one of the six cells face-adjacent to `p`.
pub open spec fn next_to(p: Cell, q: Cell) -> bool {
    exists|i: int| 0 <= i < 6 && q == p.plus(#[trigger] signal_offsets_spec()[i])
}

/// The cells an edit at `changed` touches among the factory blocks: the changed cells
/// and the cells next to them.
pub open spec fn factory_touched(changed: Set<Cell>) -> Set<Cell> {
    Set::new(|q: Cell| changed.contains(q) || exists|p: Cell| #[trigger] changed.contains(p) && next_to(p, q))
}

/// The factory structures an edit at `changed` breaks up: those owning a touched cell.
pub open spec fn factory_edit_stale(st: StructureState, changed: Set<Cell>) -> Set<StructureId> {
    owners_of_kind(st, factory_touched(changed), StructureKind::Factory)
}

/// The factory cells an edit at `changed` regrows from: the changed ones and those of
/// the structures it breaks up.
pub open spec fn factory_edit_seeds(st: StructureState, factory: Set<Cell>, changed: Set<Cell>) -> Set<Cell> {
    Set::new(
        |c: Cell| factory.contains(c) && (changed.contains(c) || cells_of(st, factory_edit_stale(st, changed)).contains(c)),
    )
}

/// `after` is `before` with a factory structure (active, free) grown from each factory
/// cell of `seeds` that no structure owns; the structures of `before` are kept, and the
/// cells owned stay closed under the factory steps.
pub open spec fn factory_regrown(
    before: StructureState,
    after: StructureState,
    v: Map<Cell, FactoryLink>,
    factory: Set<Cell>,
    seeds: Set<Cell>,
) -> bool {
    &&& after.wf()
    &&& after.held() == before.held()
    &&& after.moving() == before.moving()
    &&& after.head_counter() == before.head_counter()
    &&& after.acceptors() == before.acceptors()
    &&& before.last_id() <= after.last_id() <= before.last_id() + seeds.len()
    &&& forall|k: u64| #[trigger] before.table().contains_key(k) ==> after.table().contains_key(k)
        && after.table()[k] == before.table()[k]
    &&& forall|k: u64| #[trigger] after.table().contains_key(k) && !before.table().contains_key(k)
        ==> before.last_id() < k <= after.last_id() && grown_factory(after.table()[k], v, factory)
    &&& forall|p: Cell| #[trigger] after.index().contains_key(p) <==> (before.index().contains_key(p) || exists|c: Cell|
        seeds.contains(c) && factory.contains(c) && !before.index().contains_key(c) && #[trigger] factory_reach(v, factory, None, c).contains(p))
    &&& forall|p: Cell| #[trigger] before.index().contains_key(p) ==> after.index()[p] == before.index()[p]
    &&& closed_under_steps(v, factory, after.index().dom())
}

/// `after` is `before` with its factory structures of identity above `base` refreshed
/// from the scene (see `scene_refreshed`).
pub open spec fn new_refreshed(
    before: StructureState,
    after: StructureState,
    base: u64,
    v: Map<Cell, FactoryLink>,
    scene: Set<Cell>,
) -> bool {
    &&& after.wf()
    &&& after.index() == before.index()
    &&& after.last_id() == before.last_id()
    &&& after.held() == before.held()
    &&& after.moving() == before.moving()
    &&& after.table().dom() == before.table().dom()
    &&& after.head_counter() == before.head_counter()
    &&& after.acceptors() == before.acceptors()
    &&& forall|k: u64| #[trigger] before.table().contains_key(k) ==> if k > base && before.table()[k].kind == StructureKind::Factory {
        scene_refreshed(before.table()[k], after.table()[k], v, scene)
    } else {
        after.table()[k] == before.table()[k]
    }
}

/// `after` is `before` after an edit of the world `w` at `changed`: the factory
/// structures near the edit removed, factory structures grown again from the seeds and
/// refreshed from the scene, then the material structures edited (see
/// `material_edited`).
pub open spec fn factory_edited(before: StructureState, after: StructureState, w: &StructureWorld, changed: Set<Cell>) -> bool {
    exists|s1: StructureState, s2: StructureState, s3: StructureState|
        #![trigger structures_removed(before, s1, factory_edit_stale(before, changed)), factory_regrown(s1, s2, w.links(), w.factory@, factory_edit_seeds(before, w.factory@, changed)), new_refreshed(s2, s3, s1.last_id(), w.links(), w.scene@)]
        structures_removed(before, s1, factory_edit_stale(before, changed)) && factory_regrown(
            s1,
            s2,
            w.links(),
            w.factory@,
            factory_edit_seeds(before, w.factory@, changed),
        ) && new_refreshed(s2, s3, s1.last_id(), w.links(), w.scene@) && material_edited(
            s3,
            after,
            w.materials@,
            w.welds@,
            changed,
        )
}

/// The cells `pos` plus one of the first `k` face offsets.
pub open spec fn offsets_upto(pos: Cell, k: int) -> Set<Cell> {
    Set::new(|q: Cell| exists|t: int| 0 <= t < k && q == pos.plus(#[trigger] signal_offsets_spec()[t]))
}

proof fn lemma_offsets_step(pos: Cell, k: int)
    requires
        0 <= k,
    ensures
        offsets_upto(pos, k + 1) == offsets_upto(pos, k).insert(pos.plus(signal_offsets_spec()[k])),
{
    assert forall|q: Cell| #[trigger] offsets_upto(pos, k + 1).contains(q) <==> offsets_upto(pos, k).insert(pos.plus(signal_offsets_spec()[k])).contains(q) by {
        if q == pos.plus(signal_offsets_spec()[k]) {
            assert(0 <= k < k + 1 && q == pos.plus(signal_offsets_spec()[k]));
        }
    }
    assert(offsets_upto(pos, k + 1) =~= offsets_upto(pos, k).insert(pos.plus(signal_offsets_spec()[k])));
}

proof fn lemma_factory_touched_step(done: Set<Cell>, pos: Cell)
    ensures
        factory_touched(done.insert(pos)) == factory_touched(done).insert(pos) + Set::new(|q: Cell| next_to(pos, q)),
{
    assert forall|q: Cell| factory_touched(done.insert(pos)).contains(q) <==> (factory_touched(done).insert(pos) + Set::new(
        |q: Cell| next_to(pos, q),
    )).contains(q) by {
        if factory_touched(done.insert(pos)).contains(q) && !done.insert(pos).contains(q) {
            let p = choose|p: Cell| #[trigger] done.insert(pos).contains(p) && next_to(p, q);
            if p != pos {
                assert(done.contains(p));
            }
        }
        if factory_touched(done).contains(q) && !done.contains(q) {
            let p = choose|p: Cell| #[trigger] done.contains(p) && next_to(p, q);
            assert(done.insert(pos).contains(p));
        }
        if next_to(pos, q) {
            assert(done.insert(pos).contains(pos));
        }
    }
    assert(factory_touched(done.insert(pos)) =~= factory_touched(done).insert(pos) + Set::new(|q: Cell| next_to(pos, q)));
}

/// The material structures of `s0` pass through the factory part of an edit untouched:
/// same entries, same cells.
proof fn lemma_material_kept(
    s0: StructureState,
    s1: StructureState,
    s2: StructureState,
    s3: StructureState,
    world: &StructureWorld,
    changed: Set<Cell>,
    id: StructureId,
)
    requires
        s0.wf(),
        structures_removed(s0, s1, factory_edit_stale(s0, changed)),
        factory_regrown(s1, s2, world.links(), world.factory@, factory_edit_seeds(s0, world.factory@, changed)),
        new_refreshed(s2, s3, s1.last_id(), world.links(), world.scene@),
        s0.table().contains_key(id.0),
        s0.table()[id.0].kind == StructureKind::Material,
    ensures
        s3.table().contains_key(id.0),
        s3.table()[id.0] == s0.table()[id.0],
        forall|c: Cell| (s0.index().contains_key(c) && s0.index()[c] == id) <==> (s3.index().contains_key(c) && s3.index()[c] == id),
{
    s0.lemma_wf_facts();
    s3.lemma_wf_facts();
    let k = id.0;
    assert(entry_ok(k, s0.table()[k], s0.last_id(), s0.index()));
    assert(!factory_edit_stale(s0, changed).contains(StructureId(k)));
    assert(s1.table().contains_key(k));
    assert(s2.table().contains_key(k));
    assert(s3.table()[k] == s2.table()[k]);
    assert(entry_ok(k, s3.table()[k], s3.last_id(), s3.index()));
    assert forall|c: Cell| (s0.index().contains_key(c) && s0.index()[c] == id) <==> (s3.index().contains_key(c) && s3.index()[c] == id) by {
        if s0.index().contains_key(c) && s0.index()[c] == id {
            assert(s0.table()[s0.index()[c].0].positions@.contains(c));
        }
        if s3.index().contains_key(c) && s3.index()[c] == id {
            assert(s3.table()[s3.index()[c].0].positions@.contains(c));
        }
    }
}

/// What the material part of an edit needs holds after the factory part.
proof fn lemma_materials_carry(
    s0: StructureState,
    s1: StructureState,
    s2: StructureState,
    s3: StructureState,
    world: &StructureWorld,
    changed: Set<Cell>,
)
    requires
        s0.wf(),
        world.wf(),
        materials_owned_by_materials(s0, world.materials@),
        structures_removed(s0, s1, factory_edit_stale(s0, changed)),
        factory_regrown(s1, s2, world.links(), world.factory@, factory_edit_seeds(s0, world.factory@, changed)),
        new_refreshed(s2, s3, s1.last_id(), world.links(), world.scene@),
        classes_whole(
            world.materials@,
            world.welds@,
            without_owners(s0.index(), material_edit_stale(s0, world.materials@, world.welds@, changed)).dom(),
        ),
    ensures
        classes_whole(
            world.materials@,
            world.welds@,
            without_owners(s3.index(), material_edit_stale(s3, world.materials@, world.welds@, changed)).dom(),
        ),
{
    let m = world.materials@;
    let w = world.welds@;
    let t = crate::materials::material_touched(m, w, changed);
    let d0 = without_owners(s0.index(), material_edit_stale(s0, m, w, changed)).dom();
    let d3 = without_owners(s3.index(), material_edit_stale(s3, m, w, changed)).dom();
    s0.lemma_wf_facts();
    s3.lemma_wf_facts();
    // A material indexed after the factory part was indexed before, by the same owner.
    assert forall|p: Cell| #[trigger] m.contains_key(p) && s3.index().contains_key(p) implies s0.index().contains_key(p)
        && s0.index()[p] == s3.index()[p] by {
        assert(s2.index().contains_key(p));
        if !s1.index().contains_key(p) {
            let c = choose|c: Cell| factory_edit_seeds(s0, world.factory@, changed).contains(c) && world.factory@.contains(c)
                && !s1.index().contains_key(c) && #[trigger] factory_reach(world.links(), world.factory@, None, c).contains(p);
            lemma_reach_allowed(world.links(), world.factory@, c, p);
        }
    }
    assert forall|p: Cell| #[trigger] m.contains_key(p) && s0.index().contains_key(p) implies s3.index().contains_key(p)
        && s3.index()[p] == s0.index()[p] by {
        lemma_material_kept(s0, s1, s2, s3, world, changed, s0.index()[p]);
    }
    // The stale material owners agree on the owners of materials.
    assert forall|p: Cell| #[trigger] m.contains_key(p) && d3.contains(p) implies d0.contains(p) by {
        let id = s3.index()[p];
        assert(s0.index()[p] == id);
        if material_edit_stale(s0, m, w, changed).contains(id) {
            let p1 = choose|p1: Cell| #[trigger] t.contains(p1) && s0.index().contains_key(p1) && s0.index()[p1] == id
                && s0.table()[id.0].kind == StructureKind::Material;
            lemma_material_kept(s0, s1, s2, s3, world, changed, id);
            assert(s3.index().contains_key(p1) && s3.index()[p1] == id);
            assert(material_edit_stale(s3, m, w, changed).contains(id));
        }
    }
    assert forall|p: Cell| #[trigger] m.contains_key(p) && d0.contains(p) implies d3.contains(p) by {
        let id = s0.index()[p];
        assert(s3.index()[p] == id);
        lemma_material_kept(s0, s1, s2, s3, world, changed, id);
        if material_edit_stale(s3, m, w, changed).contains(id) {
            let p1 = choose|p1: Cell| #[trigger] t.contains(p1) && s3.index().contains_key(p1) && s3.index()[p1] == id
                && s3.table()[id.0].kind == StructureKind::Material;
            assert(s0.index().contains_key(p1) && s0.index()[p1] == id);
            assert(material_edit_stale(s0, m, w, changed).contains(id));
        }
    }
    assert forall|p: Cell, q: Cell| #![trigger d3.contains(p), crate::connectivity::material_structure_spec(m, w, p).contains(q)]
        m.contains_key(p) && d3.contains(p) && crate::connectivity::material_structure_spec(m, w, p).contains(q) implies d3.contains(q) by {
        assert(d0.contains(p));
        assert(d0.contains(q));
        assert(m.contains_key(q));
    }
}

impl StructureState {
    /// After an edit of the world at `changed`: breaks up the factory structures owning
    /// a changed cell or a cell next to one, grows factory structures again from the
    /// changed factory cells and the cells of those removed, refreshes the new ones from
    /// the scene, then edits the material structures (see `factory_edited`).  With no
    /// changed cell nothing changes.  The structures left must still be closed under the
    /// factory steps, and the material structures left whole welded classes.
    pub fn apply_factory_edit(&mut self, world: &StructureWorld, changed: &CellSet)
        requires
            old(self).wf(),
            world.wf(),
            changed.wf(),
            forall|c: Cell| #[trigger] changed@.contains(c) ==> far_from_limits(c),
            forall|p: Cell| #[trigger] old(self).index().contains_key(p) ==> far_from_limits(p),
            materials_owned_by_materials(*old(self), world.materials@),
            !changed@.is_empty() ==> closed_under_steps(
                world.links(),
                world.factory@,
                without_owners(old(self).index(), factory_edit_stale(*old(self), changed@)).dom(),
            ),
            !changed@.is_empty() ==> classes_whole(
                world.materials@,
                world.welds@,
                without_owners(old(self).index(), material_edit_stale(*old(self), world.materials@, world.welds@, changed@)).dom(),
            ),
            old(self).last_id() + world.factory@.len() + world.materials@.dom().len() <= u64::MAX,
        ensures
            if changed@.is_empty() {
                *final(self) == *old(self)
            } else {
                factory_edited(*old(self), *final(self), world, changed@)
            },
    {
        if changed.is_empty() {
            return;
        }
        let ghost s0 = *self;
        let view = factory_view(&world.blocks);
        let list = changed.to_vec();
        let offsets = signal_offsets();
        proof {
            changed.lemma_elems();
            s0.lemma_wf_facts();
        }
        let mut stale: Vec<StructureId> = Vec::new();
        let mut seeds = CellSet::new();
        let ghost mut got: Set<Cell> = Set::empty();
        proof {
            assert(list@.take(0).to_set() =~= Set::<Cell>::empty());
            assert(factory_touched(Set::<Cell>::empty()) =~= Set::<Cell>::empty());
            assert(stale@.to_set() =~= owners_of_kind(s0, got, StructureKind::Factory));
            assert(seeds@ =~= world.factory@.intersect(list@.take(0).to_set()));
        }
        let mut i: usize = 0;
        while i < list.len()
            invariant
                *self == s0,
                s0.wf(),
                world.wf(),
                offsets@ == signal_offsets_spec(),
                list@.to_set() == changed@,
                forall|c: Cell| #[trigger] changed@.contains(c) ==> far_from_limits(c),
                i <= list@.len(),
                stale@.no_duplicates(),
                stale@.to_set() == owners_of_kind(s0, got, StructureKind::Factory),
                got == factory_touched(list@.take(i as int).to_set()),
                seeds.wf(),
                seeds@ == world.factory@.intersect(list@.take(i as int).to_set()),
            decreases list@.len() - i,
        {
            let pos = list[i];
            proof {
                assert(list@.to_set().contains(pos));
                assert(far_from_limits(pos));
            }
            let ghost base = got;
            self.note_owner(&mut stale, pos, StructureKind::Factory, Ghost(got));
            proof {
                got = got.insert(pos);
                assert(got =~= base.insert(pos) + offsets_upto(pos, 0));
            }
            let mut k: usize = 0;
            while k < 6
                invariant
                    *self == s0,
                    s0.wf(),
                    offsets@ == signal_offsets_spec(),
                    far_from_limits(pos),
                    k <= 6,
                    stale@.no_duplicates(),
                    stale@.to_set() == owners_of_kind(s0, got, StructureKind::Factory),
                    got == base.insert(pos) + offsets_upto(pos, k as int),
                decreases 6 - k,
            {
                let n = pos.add(offsets[k]);
                let ghost g0 = got;
                self.note_owner(&mut stale, n, StructureKind::Factory, Ghost(got));
                proof {
                    got = got.insert(n);
                    lemma_offsets_step(pos, k as int);
                    assert(got =~= base.insert(pos) + offsets_upto(pos, k + 1));
                }
                k = k + 1;
            }
            if world.factory.contains(pos) {
                seeds.insert(pos);
            }
            proof {
                assert(offsets_upto(pos, 6) =~= Set::new(|q: Cell| next_to(pos, q)));
                list@.take(i as int).lemma_push_to_set_commute(pos);
                assert(list@.take(i + 1) =~= list@.take(i as int).push(pos));
                lemma_factory_touched_step(list@.take(i as int).to_set(), pos);
                assert(seeds@ =~= world.factory@.intersect(list@.take(i + 1).to_set()));
            }
            i = i + 1;
        }
        proof {
            assert(list@.take(i as int) =~= list@);
        }
        let ghost stale_set = factory_edit_stale(s0, changed@);
        let ghost touched = got;
        let mut j: usize = 0;
        while j < stale.len()
            invariant
                *self == s0,
                s0.wf(),
                world.wf(),
                j <= stale@.len(),
                stale@.no_duplicates(),
                stale@.to_set() == stale_set,
                touched == factory_touched(changed@),
                stale_set == owners_of_kind(s0, touched, StructureKind::Factory),
                seeds.wf(),
                seeds@ == world.factory@.intersect(changed@ + cells_of(s0, stale@.take(j as int).to_set())),
            decreases stale@.len() - j,
        {
            let id = stale[j];
            proof {
                s0.lemma_wf_facts();
                assert(stale@[j as int] == id);
                assert(stale@.to_set().contains(id));
                let p = choose|p: Cell| #[trigger] touched.contains(p) && s0.index().contains_key(p) && s0.index()[p] == id
                    && s0.table()[id.0].kind == StructureKind::Factory;
                assert(s0.table().contains_key(id.0));
                assert(stale@.take(j + 1) =~= stale@.take(j as int).push(id));
                stale@.take(j as int).lemma_push_to_set_commute(id);
            }
            let s = self.get(id).unwrap();
            let cells = s.positions.to_vec();
            proof {
                s.positions.lemma_elems();
                assert(entry_ok(id.0, s0.table()[id.0], s0.last_id(), s0.index()));
            }
            let ghost seeds0 = seeds@;
            let mut k: usize = 0;
            while k < cells.len()
                invariant
                    world.wf(),
                    k <= cells@.len(),
                    seeds.wf(),
                    seeds@ == seeds0 + world.factory@.intersect(cells@.take(k as int).to_set()),
                decreases cells@.len() - k,
            {
                let c = cells[k];
                if world.factory.contains(c) {
                    seeds.insert(c);
                }
                proof {
                    cells@.take(k as int).lemma_push_to_set_commute(c);
                    assert(cells@.take(k + 1) =~= cells@.take(k as int).push(c));
                    assert(seeds@ =~= seeds0 + world.factory@.intersect(cells@.take(k + 1).to_set()));
                }
                k = k + 1;
            }
            proof {
                assert(cells@.take(k as int) =~= cells@);
                assert(cells_of(s0, stale@.take(j + 1).to_set()) =~= cells_of(s0, stale@.take(j as int).to_set()) + s.positions@) by {
                    assert forall|c: Cell| #[trigger] s.positions@.contains(c) implies s0.index().contains_key(c) && s0.index()[c] == id by {}
                    assert forall|c: Cell| #[trigger] s0.index().contains_key(c) && s0.index()[c] == id implies s.positions@.contains(c) by {}
                }
                assert(seeds@ =~= world.factory@.intersect(changed@ + cells_of(s0, stale@.take(j + 1).to_set())));
            }
            j = j + 1;
        }
        proof {
            s0.lemma_wf_facts();
            assert(stale@.take(j as int) =~= stale@);
            assert(seeds@ =~= factory_edit_seeds(s0, world.factory@, changed@));
            assert forall|t: int| 0 <= t < stale@.len() implies s0.table().contains_key(#[trigger] stale@[t].0) by {
                let id = stale@[t];
                assert(stale@.to_set().contains(id));
                let p = choose|p: Cell| #[trigger] touched.contains(p) && s0.index().contains_key(p) && s0.index()[p] == id
                    && s0.table()[id.0].kind == StructureKind::Factory;
            }
        }
        self.remove_structures(&stale);
        let ghost s1 = *self;
        let starts = seeds.to_vec();
        proof {
            seeds.lemma_elems();
            assert(s1.index() == without_owners(s0.index(), stale_set));
            world.factory.lemma_elems();
            assert(seeds@.subset_of(world.factory@));
            vstd::set_lib::lemma_len_subset(seeds@, world.factory@);
            assert(view@ == world.links());
        }
        let before_ids = self.structure_ids();
        self.append_connected_factory_structures(&view, &world.factory, &starts);
        let ghost s2 = *self;
        proof {
            assert(factory_regrown(s1, s2, world.links(), world.factory@, seeds@)) by {
                assert forall|c: Cell| #[trigger] starts@.contains(c) <==> seeds@.contains(c) by {
                    assert(seeds.elems().to_set().contains(c) == seeds.elems().contains(c));
                }
            }
            s2.lemma_wf_facts();
            assert forall|p: Cell| #[trigger] s2.index().contains_key(p) implies far_from_limits(p) by {
                if !s1.index().contains_key(p) {
                    let c = choose|c: Cell| seeds@.contains(c) && world.factory@.contains(c) && !s1.index().contains_key(c)
                        && #[trigger] factory_reach(view@, world.factory@, None, c).contains(p);
                    lemma_reach_allowed(view@, world.factory@, c, p);
                } else {
                    assert(s0.index().contains_key(p));
                }
            }
        }
        let all_ids = self.structure_ids();
        let mut fresh: Vec<StructureId> = Vec::new();
        let mut t: usize = 0;
        while t < all_ids.len()
            invariant
                *self == s2,
                t <= all_ids@.len(),
                forall|id: StructureId| before_ids@.contains(id) <==> s1.table().contains_key(id.0),
                forall|id: StructureId| all_ids@.contains(id) <==> s2.table().contains_key(id.0),
                forall|id: StructureId| #[trigger] fresh@.contains(id) <==> (all_ids@.take(t as int).contains(id) && !s1.table().contains_key(id.0)),
            decreases all_ids@.len() - t,
        {
            let id = all_ids[t];
            let ghost f0 = fresh@;
            if !vec_has_id(&before_ids, id) {
                fresh.push(id);
            }
            proof {
                assert(all_ids@.take(t + 1) =~= all_ids@.take(t as int).push(id));
                assert forall|x: StructureId| #[trigger] fresh@.contains(x) <==> (all_ids@.take(t + 1).contains(x) && !s1.table().contains_key(x.0)) by {
                    if all_ids@.take(t + 1).contains(x) && x != id {
                        let a = choose|a: int| 0 <= a < t + 1 && #[trigger] all_ids@.take(t + 1)[a] == x;
                        assert(all_ids@.take(t as int)[a] == x);
                    }
                    if all_ids@.take(t as int).contains(x) {
                        let a = choose|a: int| 0 <= a < t && #[trigger] all_ids@.take(t as int)[a] == x;
                        assert(all_ids@.take(t + 1)[a] == x);
                    }
                    if x == id {
                        assert(all_ids@.take(t + 1)[t as int] == id);
                    }
                    if f0.contains(x) {
                        let a = choose|a: int| 0 <= a < f0.len() && #[trigger] f0[a] == x;
                        assert(fresh@[a] == x);
                    }
                    if fresh@.contains(x) && x != id {
                        let a = choose|a: int| 0 <= a < fresh@.len() && #[trigger] fresh@[a] == x;
                        assert(f0[a] == x);
                    }
                    if x == id && !s1.table().contains_key(id.0) {
                        assert(fresh@[f0.len() as int] == id);
                    }
                }
            }
            t = t + 1;
        }
        proof {
            assert(all_ids@.take(t as int) =~= all_ids@);
        }
        self.refresh_factory_activity_from_scene(&view, &world.scene, &fresh);
        let ghost s3 = *self;
        proof {
            assert(new_refreshed(s2, s3, s1.last_id(), world.links(), world.scene@)) by {
                s1.lemma_wf_facts();
                assert forall|k: u64| #[trigger] s2.table().contains_key(k) implies fresh@.contains(StructureId(k)) == (k > s1.last_id()) by {
                    assert(all_ids@.contains(StructureId(k)));
                    if s1.table().contains_key(k) {
                        assert(entry_ok(k, s1.table()[k], s1.last_id(), s1.index()));
                    }
                }
            }
            lemma_materials_carry(s0, s1, s2, s3, world, changed@);
        }
        apply_material_edit(self, &world.materials, world.welds.as_slice(), changed);
        proof {
            assert(structures_removed(s0, s1, factory_edit_stale(s0, changed@)));
            assert(factory_regrown(s1, s2, world.links(), world.factory@, factory_edit_seeds(s0, world.factory@, changed@)));
        }
    }
}

} // verus!
