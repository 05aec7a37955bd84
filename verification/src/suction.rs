//! Temporary links made by powered suction cups: a union-find over structure
//! identities, and the pushable sets it expands to.
use vstd::prelude::*;

use std::collections::HashMap;

use crate::cell::{Cell, Facing};
use crate::cellmap::CellSet;
use crate::ids::StructureId;
use crate::structure::{Structure, StructureFreedom, StructureKind};
use crate::structure_state::{StructureState, entry_ok, ids_of_cells};

verus! {

/// `k` has no parent or is its own parent.
pub open spec fn is_root_in(parent: Map<u64, u64>, k: u64) -> bool {
    !parent.contains_key(k) || parent[k] == k
}

/// Links of this turn between structures; identities are not merged.
pub struct SuctionLinks {
    parent: HashMap<u64, u64>,
    /// Representative reached by following parents.
    root: Ghost<spec_fn(u64) -> u64>,
    /// Number of parent steps to the representative.
    dist: Ghost<spec_fn(u64) -> nat>,
}

impl SuctionLinks {
    pub closed spec fn wf(&self) -> bool {
        let p = self.parent@;
        let root = self.root@;
        let dist = self.dist@;
        &&& forall|k: u64| #[trigger] is_root_in(p, k) ==> root(k) == k && dist(k) == 0
        &&& forall|k: u64|
            #![trigger p[k]]
            p.contains_key(k) && p[k] != k ==> root(k) == root(p[k]) && dist(k) == dist(p[k]) + 1
        &&& forall|k: u64| #[trigger] is_root_in(p, root(k))
    }

    /// The representative of the link group holding `id`.
    pub closed spec fn rep(&self, id: StructureId) -> StructureId {
        StructureId((self.root@)(id.0))
    }

    /// `a` and `b` are linked (directly or through other structures).
    pub open spec fn linked(&self, a: StructureId, b: StructureId) -> bool {
        self.rep(a) == self.rep(b)
    }

    /// No links: every structure is alone.
    pub fn new() -> (s: SuctionLinks)
        ensures
            s.wf(),
            forall|id: StructureId| #[trigger] s.rep(id) == id,
    {
        SuctionLinks {
            parent: HashMap::new(),
            root: Ghost(|k: u64| k),
            dist: Ghost(|k: u64| 0nat),
        }
    }

    /// The representative of `id`'s group.
    pub fn find(&self, id: StructureId) -> (r: StructureId)
        requires
            self.wf(),
        ensures
            r == self.rep(id),
    {
        let mut current = id.0;
        loop
            invariant
                self.wf(),
                (self.root@)(current) == (self.root@)(id.0),
            decreases (self.dist@)(current),
        {
            match self.parent.get(&current) {
                Some(parent) => {
                    let parent = *parent;
                    if parent == current {
                        assert(is_root_in(self.parent@, current));
                        return StructureId(current);
                    }
                    assert(self.parent@[current] == parent);
                    current = parent;
                },
                None => {
                    assert(is_root_in(self.parent@, current));
                    return StructureId(current);
                },
            }
        }
    }

    /// Links the groups of `a` and `b`; `a`'s representative represents the merged group.
    pub fn union(&mut self, a: StructureId, b: StructureId)
        requires
            old(self).wf(),
        ensures
            final(self).wf(),
            forall|x: StructureId| #[trigger]
                final(self).rep(x) == (if old(self).rep(x) == old(self).rep(b) {
                    old(self).rep(a)
                } else {
                    old(self).rep(x)
                }),
            forall|x: StructureId, y: StructureId|
                #![trigger final(self).linked(x, y)]
                final(self).linked(x, y) <==> (old(self).linked(x, y) || (old(self).linked(x, a)
                    && old(self).linked(y, b)) || (old(self).linked(x, b) && old(self).linked(y, a))),
    {
        let ra = self.find(a);
        let rb = self.find(b);
        if ra != rb {
            let ghost old_root = self.root@;
            let ghost old_dist = self.dist@;
            let ghost old_parent = self.parent@;
            assert(is_root_in(old_parent, ra.0));
            assert(is_root_in(old_parent, rb.0));
            self.parent.insert(rb.0, ra.0);
            if !self.parent.contains_key(&ra.0) {
                self.parent.insert(ra.0, ra.0);
            }
            let ghost rb0 = rb.0;
            let ghost ra0 = ra.0;
            self.root = Ghost(|k: u64| if old_root(k) == rb0 { ra0 } else { old_root(k) });
            self.dist = Ghost(
                |k: u64| if old_root(k) == rb0 { old_dist(k) + 1 } else { old_dist(k) },
            );
            proof {
                let p = self.parent@;
                assert(p.contains_key(ra0) && p[ra0] == ra0);
                assert(p.contains_key(rb0) && p[rb0] == ra0);
                assert forall|k: u64| #[trigger] is_root_in(p, k) implies (self.root@)(k) == k && (
                self.dist@)(k) == 0 by {
                    assert(k != rb0);
                    assert(is_root_in(old_parent, k));
                }
                assert forall|k: u64| #![trigger p[k]] p.contains_key(k) && p[k] != k implies (
                self.root@)(k) == (self.root@)(p[k]) && (self.dist@)(k) == (self.dist@)(p[k]) + 1 by {
                    if k == rb0 {
                    } else {
                        assert(k != ra0);
                        assert(old_parent.contains_key(k) && old_parent[k] == p[k]);
                    }
                }
                assert forall|k: u64| #[trigger] is_root_in(p, (self.root@)(k)) by {
                    assert(is_root_in(old_parent, old_root(k)));
                }
            }
        }
    }

    /// Identities of the structures linked to any of the seeds.  When the table holds none
    /// of them, the seeds' representatives themselves.
    pub fn component_ids(&self, structures: &StructureState, seed_ids: &[StructureId]) -> (r: Vec<
        StructureId,
    >)
        requires
            self.wf(),
        ensures
            r@.no_duplicates(),
            r@.to_set() == self.component_spec(structures.table(), seed_ids@.to_set()),
    {
        let mut roots: Vec<StructureId> = Vec::new();
        let mut i: usize = 0;
        while i < seed_ids.len()
            invariant
                self.wf(),
                i <= seed_ids@.len(),
                roots@.no_duplicates(),
                roots@.to_set() == self.roots_of(seed_ids@.take(i as int).to_set()),
            decreases seed_ids@.len() - i,
        {
            let r = self.find(seed_ids[i]);
            let ghost roots_before = roots@;
            if !vec_contains(&roots, r) {
                roots.push(r);
                proof {
                    roots_before.lemma_push_to_set_commute(r);
                }
            } else {
                assert(roots_before.to_set().insert(r) =~= roots_before.to_set());
            }
            assert(roots@.to_set() == roots_before.to_set().insert(r));
            proof {
                assert(seed_ids@.take(i + 1) =~= seed_ids@.take(i as int).push(seed_ids@[i as int]));
                let t0 = seed_ids@.take(i as int).to_set();
                let t1 = seed_ids@.take(i + 1).to_set();
                seed_ids@.take(i as int).lemma_push_to_set_commute(seed_ids@[i as int]);
                assert(t1 == t0.insert(seed_ids@[i as int]));
                assert forall|x: StructureId| self.roots_of(t1).contains(x) <==> self.roots_of(t0).insert(r).contains(x) by {
                    if self.roots_of(t1).contains(x) {
                        let y = choose|y: StructureId| t1.contains(y) && self.rep(y) == x;
                        if y != seed_ids@[i as int] {
                            assert(t0.contains(y));
                        }
                    }
                    if self.roots_of(t0).contains(x) {
                        let y = choose|y: StructureId| t0.contains(y) && self.rep(y) == x;
                        assert(t1.contains(y));
                    }
                    if x == r {
                        assert(t1.contains(seed_ids@[i as int]));
                    }
                }
                assert(self.roots_of(t1) =~= self.roots_of(t0).insert(r));
                assert(roots@.to_set() =~= self.roots_of(t1));
            }
            i = i + 1;
        }
        assert(seed_ids@.take(i as int) =~= seed_ids@);
        if roots.len() == 0 {
            assert(roots@.to_set() =~= Set::<StructureId>::empty());
            return roots;
        }
        let ids = structures.structure_ids();
        let mut component: Vec<StructureId> = Vec::new();
        let mut j: usize = 0;
        while j < ids.len()
            invariant
                self.wf(),
                j <= ids@.len(),
                ids@.no_duplicates(),
                forall|id: StructureId| ids@.contains(id) <==> structures.table().contains_key(id.0),
                roots@.to_set() == self.roots_of(seed_ids@.to_set()),
                component@.no_duplicates(),
                forall|id: StructureId| #[trigger] component@.contains(id) <==> (ids@.take(j as int).contains(id)
                    && roots@.contains(self.rep(id))),
            decreases ids@.len() - j,
        {
            let id = ids[j];
            let r = self.find(id);
            let ghost before = component@;
            if vec_contains(&roots, r) {
                component.push(id);
                proof {
                    assert(component@ == before.push(id));
                    assert forall|x: StructureId| #[trigger] component@.contains(x) <==> (before.contains(x) || x == id) by {
                        if component@.contains(x) {
                            let k = choose|k: int| 0 <= k < component@.len() && component@[k] == x;
                            if k < before.len() {
                                assert(before[k] == x);
                            }
                        }
                        if before.contains(x) {
                            let k = choose|k: int| 0 <= k < before.len() && before[k] == x;
                            assert(component@[k] == x);
                        }
                        if x == id {
                            assert(component@[before.len() as int] == id);
                        }
                    }
                }
                proof {
                    assert(!before.contains(id)) by {
                        if before.contains(id) {
                            let k = choose|k: int| 0 <= k < j && ids@.take(j as int)[k] == id;
                            assert(ids@[k] == ids@[j as int]);
                        }
                    }
                }
            }
            proof {
                assert(ids@.take(j + 1) =~= ids@.take(j as int).push(id));
                assert forall|x: StructureId| #[trigger] component@.contains(x) <==> (ids@.take(j + 1).contains(x)
                    && roots@.contains(self.rep(x))) by {
                    if x == id {
                        assert(ids@.take(j + 1)[j as int] == id);
                    } else {
                        if ids@.take(j + 1).contains(x) {
                            let k = choose|k: int| 0 <= k < j + 1 && #[trigger] ids@.take(j + 1)[k] == x;
                            assert(ids@.take(j as int)[k] == x);
                        }
                        if ids@.take(j as int).contains(x) {
                            let k = choose|k: int| 0 <= k < j && #[trigger] ids@.take(j as int)[k] == x;
                            assert(ids@.take(j + 1)[k] == x);
                        }
                    }
                }
            }
            j = j + 1;
        }
        assert(ids@.take(j as int) =~= ids@);
        if component.len() == 0 {
            proof {
                assert(component@.to_set() =~= Set::<StructureId>::empty());
                assert(self.linked_in_table(structures.table(), seed_ids@.to_set()) =~= Set::<StructureId>::empty()) by {
                    assert forall|x: StructureId| !self.linked_in_table(structures.table(), seed_ids@.to_set()).contains(x) by {
                        if structures.table().contains_key(x.0) && self.roots_of(seed_ids@.to_set()).contains(self.rep(x)) {
                            assert(roots@.to_set().contains(self.rep(x)));
                            assert(ids@.contains(x));
                            assert(component@.contains(x));
                        }
                    }
                }
            }
            return roots;
        }
        proof {
            assert(component@.to_set() =~= self.linked_in_table(structures.table(), seed_ids@.to_set())) by {
                assert forall|x: StructureId| component@.to_set().contains(x) <==> self.linked_in_table(structures.table(), seed_ids@.to_set()).contains(x) by {
                    if component@.contains(x) {
                        assert(roots@.to_set().contains(self.rep(x)));
                    }
                    if self.linked_in_table(structures.table(), seed_ids@.to_set()).contains(x) {
                        assert(roots@.to_set().contains(self.rep(x)));
                        assert(ids@.contains(x));
                    }
                }
            }
            assert(component@.to_set().len() > 0) by {
                assert(component@.to_set().contains(component@[0]));
                component@.unique_seq_to_set();
            }
        }
        component
    }

    /// Representatives of the seeds.
    pub open spec fn roots_of(&self, seeds: Set<StructureId>) -> Set<StructureId> {
        Set::new(|r: StructureId| exists|x: StructureId| seeds.contains(x) && self.rep(x) == r)
    }

    /// Structures of the table linked to some seed.
    pub open spec fn linked_in_table(&self, table: Map<u64, Structure>, seeds: Set<StructureId>) -> Set<
        StructureId,
    > {
        Set::new(
            |x: StructureId| table.contains_key(x.0) && self.roots_of(seeds).contains(self.rep(x)),
        )
    }

    /// What [`Self::component_ids`] returns.
    pub open spec fn component_spec(&self, table: Map<u64, Structure>, seeds: Set<StructureId>) -> Set<
        StructureId,
    > {
        if self.roots_of(seeds).len() == 0 || self.linked_in_table(table, seeds).len() == 0 {
            self.roots_of(seeds)
        } else {
            self.linked_in_table(table, seeds)
        }
    }
}

/// The structure may be pushed: nothing anchored to the scene and full freedom.
pub open spec fn can_push(s: Structure) -> bool {
    s.scene_touching@ == Set::<Cell>::empty() && s.freedom == StructureFreedom::All
}

/// All members of the listed structures of the table.
pub open spec fn union_positions(table: Map<u64, Structure>, ids: Set<StructureId>) -> Set<Cell> {
    Set::new(
        |p: Cell|
            exists|id: StructureId|
                #![trigger ids.contains(id)]
                ids.contains(id) && table.contains_key(id.0) && table[id.0].positions@.contains(p),
    )
}

impl StructureState {
    /// Union of the members of every structure linked to the seeds, when all of them
    /// may be pushed by `offset`; none when one may not, or when the union is empty.
    pub fn linked_pushable_ids(&self, links: &SuctionLinks, seed_ids: &[StructureId], offset: Cell) -> (r:
        Option<CellSet>)
        requires
            self.wf(),
            links.wf(),
        ensures
            ({
                let c = links.component_spec(self.table(), seed_ids@.to_set());
                let blocked = exists|id: StructureId| #![trigger c.contains(id)]
                    c.contains(id) && (!self.table().contains_key(id.0) || !can_push(self.table()[id.0]));
                &&& r is None <==> (blocked || union_positions(self.table(), c).is_empty())
                &&& r matches Some(cs) ==> cs.wf() && cs@ == union_positions(self.table(), c)
            }),
    {
        let component = links.component_ids(self, seed_ids);
        let ghost c = links.component_spec(self.table(), seed_ids@.to_set());
        proof {
            self.lemma_wf_facts();
        }
        let mut positions = CellSet::new();
        let mut i: usize = 0;
        while i < component.len()
            invariant
                self.wf(),
                component@.no_duplicates(),
                component@.to_set() == c,
                c == links.component_spec(self.table(), seed_ids@.to_set()),
                i <= component@.len(),
                positions.wf(),
                forall|j: int| 0 <= j < i ==> self.table().contains_key((#[trigger] component@[j]).0) && can_push(self.table()[component@[j].0]),
                positions@ == union_positions(self.table(), component@.take(i as int).to_set()),
            decreases component@.len() - i,
        {
            let id = component[i];
            let structure = match self.structure_by_id(id) {
                Some(s) => s,
                None => {
                    assert(links.component_spec(self.table(), seed_ids@.to_set()).contains(id));
                    return None;
                },
            };
            proof {
                self.lemma_wf_facts();
                assert(entry_ok(id.0, self.table()[id.0], self.last_id(), self.index()));
            }
            if !structure.is_pushable() || !structure.freedom.can_translate(offset) {
                assert(links.component_spec(self.table(), seed_ids@.to_set()).contains(id));
                return None;
            }
            positions.extend(&structure.positions);
            proof {
                let t0 = component@.take(i as int).to_set();
                component@.take(i as int).lemma_push_to_set_commute(id);
                assert(component@.take(i + 1) =~= component@.take(i as int).push(id));
                assert(positions@ =~= union_positions(self.table(), t0.insert(id))) by {
                    assert forall|p: Cell| positions@.contains(p) <==> union_positions(self.table(), t0.insert(id)).contains(p) by {
                        if union_positions(self.table(), t0.insert(id)).contains(p) {
                            let x = choose|x: StructureId| #![trigger t0.insert(id).contains(x)] t0.insert(id).contains(x) && self.table().contains_key(x.0) && self.table()[x.0].positions@.contains(p);
                            if x != id {
                                assert(t0.contains(x));
                            }
                        }
                        if union_positions(self.table(), t0).contains(p) {
                            let x = choose|x: StructureId| #![trigger t0.contains(x)] t0.contains(x) && self.table().contains_key(x.0) && self.table()[x.0].positions@.contains(p);
                            assert(t0.insert(id).contains(x));
                        }
                        if structure.positions@.contains(p) {
                            assert(t0.insert(id).contains(id));
                        }
                    }
                }
            }
            i = i + 1;
        }
        assert(component@.take(i as int) =~= component@);
        proof {
            assert forall|id: StructureId| #![trigger c.contains(id)] c.contains(id) implies self.table().contains_key(id.0) && can_push(self.table()[id.0]) by {
                let j = choose|j: int| 0 <= j < component@.len() && component@[j] == id;
            }
        }
        if positions.is_empty() {
            return None;
        }
        Some(positions)
    }

    /// The pushable union linked to the structure at `pos`.
    pub fn linked_pushable_at(&self, links: &SuctionLinks, pos: Cell, offset: Cell) -> (r: Option<CellSet>)
        requires
            self.wf(),
            links.wf(),
        ensures
            !self.index().contains_key(pos) ==> r is None,
            self.index().contains_key(pos) ==> ({
                let c = links.component_spec(self.table(), set![self.index()[pos]]);
                let blocked = exists|id: StructureId| #![trigger c.contains(id)]
                    c.contains(id) && (!self.table().contains_key(id.0) || !can_push(self.table()[id.0]));
                &&& r is None <==> (blocked || union_positions(self.table(), c).is_empty())
                &&& r matches Some(cs) ==> cs.wf() && cs@ == union_positions(self.table(), c)
            }),
    {
        let seed_id = match self.id_at(pos) {
            Some(id) => id,
            None => return None,
        };
        let seeds = [seed_id];
        assert(seeds@.to_set() =~= set![seed_id]) by {
            assert(seeds@ =~= seq![seed_id]);
            assert(seeds@[0] == seed_id);
            assert(seeds@.contains(seed_id));
        }
        self.linked_pushable_ids(links, &seeds, offset)
    }

    /// Pusher subset expanded through suction links: the subset itself is kept as is,
    /// and the whole members of every other linked structure are added; none when the
    /// subset touches no structure or a linked structure outside it may not be pushed.
    pub fn linked_expand_pusher_subset(&self, links: &SuctionLinks, subset: &CellSet, offset: Cell) -> (r:
        Option<CellSet>)
        requires
            self.wf(),
            links.wf(),
            subset.wf(),
        ensures
            ({
                let sids = ids_of_cells(self.index(), subset@);
                let c = links.component_spec(self.table(), sids);
                let blocked = exists|id: StructureId| #![trigger c.contains(id)]
                    c.contains(id) && (!self.table().contains_key(id.0) || (!sids.contains(id) && !can_push(self.table()[id.0])));
                &&& r is None <==> (sids.is_empty() || blocked)
                &&& r matches Some(cs) ==> cs.wf() && cs@ == subset@.union(union_positions(self.table(), c.difference(sids)))
            }),
    {
        let ghost sids = ids_of_cells(self.index(), subset@);
        let cells = subset.to_vec();
        proof {
            subset.lemma_elems();
        }
        let mut subset_ids: Vec<StructureId> = Vec::new();
        let mut i: usize = 0;
        while i < cells.len()
            invariant
                self.wf(),
                cells@ == subset.elems(),
                subset@ == cells@.to_set(),
                i <= cells@.len(),
                subset_ids@.no_duplicates(),
                subset_ids@.to_set() == ids_of_cells(self.index(), cells@.take(i as int).to_set()),
            decreases cells@.len() - i,
        {
            let ghost before = subset_ids@;
            let ghost t0 = cells@.take(i as int).to_set();
            match self.id_at(cells[i]) {
                Some(id) => {
                    if !vec_contains(&subset_ids, id) {
                        subset_ids.push(id);
                        proof { before.lemma_push_to_set_commute(id); }
                    } else {
                        assert(before.to_set().insert(id) =~= before.to_set());
                    }
                    proof {
                        cells@.take(i as int).lemma_push_to_set_commute(cells@[i as int]);
                        assert(cells@.take(i + 1) =~= cells@.take(i as int).push(cells@[i as int]));
                        assert(ids_of_cells(self.index(), t0.insert(cells@[i as int])) =~= ids_of_cells(self.index(), t0).insert(id)) by {
                            assert forall|x: StructureId| ids_of_cells(self.index(), t0.insert(cells@[i as int])).contains(x) implies ids_of_cells(self.index(), t0).insert(id).contains(x) by {
                                let p = choose|p: Cell| t0.insert(cells@[i as int]).contains(p) && self.index().contains_key(p) && self.index()[p] == x;
                                if p != cells@[i as int] {
                                    assert(t0.contains(p));
                                }
                            }
                            assert forall|x: StructureId| ids_of_cells(self.index(), t0).insert(id).contains(x) implies ids_of_cells(self.index(), t0.insert(cells@[i as int])).contains(x) by {
                                if x == id {
                                    assert(t0.insert(cells@[i as int]).contains(cells@[i as int]));
                                } else {
                                    let p = choose|p: Cell| t0.contains(p) && self.index().contains_key(p) && self.index()[p] == x;
                                    assert(t0.insert(cells@[i as int]).contains(p));
                                }
                            }
                        }
                    }
                },
                None => {
                    proof {
                        cells@.take(i as int).lemma_push_to_set_commute(cells@[i as int]);
                        assert(cells@.take(i + 1) =~= cells@.take(i as int).push(cells@[i as int]));
                        assert(ids_of_cells(self.index(), t0.insert(cells@[i as int])) =~= ids_of_cells(self.index(), t0)) by {
                            assert forall|x: StructureId| ids_of_cells(self.index(), t0.insert(cells@[i as int])).contains(x) implies ids_of_cells(self.index(), t0).contains(x) by {
                                let p = choose|p: Cell| t0.insert(cells@[i as int]).contains(p) && self.index().contains_key(p) && self.index()[p] == x;
                                if p != cells@[i as int] {
                                    assert(t0.contains(p));
                                }
                            }
                            assert forall|x: StructureId| ids_of_cells(self.index(), t0).contains(x) implies ids_of_cells(self.index(), t0.insert(cells@[i as int])).contains(x) by {
                                let p = choose|p: Cell| t0.contains(p) && self.index().contains_key(p) && self.index()[p] == x;
                                assert(t0.insert(cells@[i as int]).contains(p));
                            }
                        }
                    }
                },
            }
            i = i + 1;
        }
        assert(cells@.take(i as int) =~= cells@);
        assert(subset_ids@.to_set() == sids);
        if subset_ids.len() == 0 {
            assert(sids =~= Set::<StructureId>::empty()) by {
                assert forall|x: StructureId| !sids.contains(x) by {
                    if sids.contains(x) {
                        assert(subset_ids@.to_set().contains(x));
                    }
                }
            }
            return None;
        }
        assert(!sids.is_empty()) by {
            assert(sids.contains(subset_ids@[0]));
        }
        let component = links.component_ids(self, subset_ids.as_slice());
        let ghost c = links.component_spec(self.table(), sids);
        proof {
            self.lemma_wf_facts();
        }
        let mut positions = subset.clone();
        let mut j: usize = 0;
        while j < component.len()
            invariant
                self.wf(),
                component@.no_duplicates(),
                component@.to_set() == c,
                subset_ids@.to_set() == sids,
                c == links.component_spec(self.table(), sids),
                sids == ids_of_cells(self.index(), subset@),
                j <= component@.len(),
                positions.wf(),
                forall|k: int| 0 <= k < j ==> self.table().contains_key((#[trigger] component@[k]).0) && (sids.contains(component@[k]) || can_push(self.table()[component@[k].0])),
                positions@ == subset@.union(union_positions(self.table(), component@.take(j as int).to_set().difference(sids))),
            decreases component@.len() - j,
        {
            let id = component[j];
            let ghost t0 = component@.take(j as int).to_set();
            proof {
                component@.take(j as int).lemma_push_to_set_commute(id);
                assert(component@.take(j + 1) =~= component@.take(j as int).push(id));
            }
            let structure = match self.structure_by_id(id) {
                Some(s) => s,
                None => {
                    assert(links.component_spec(self.table(), sids).contains(id));
                    assert(links.component_spec(self.table(), ids_of_cells(self.index(), subset@)).contains(id));
                    return None;
                },
            };
            proof {
                self.lemma_wf_facts();
                assert(entry_ok(id.0, self.table()[id.0], self.last_id(), self.index()));
            }
            if vec_contains(&subset_ids, id) {
                proof {
                    assert(t0.insert(id).difference(sids) =~= t0.difference(sids));
                }
            } else {
                if !structure.is_pushable() || !structure.freedom.can_translate(offset) {
                    assert(!sids.contains(id));
                    assert(links.component_spec(self.table(), ids_of_cells(self.index(), subset@)).contains(id));
                    return None;
                }
                let ghost before = positions@;
                positions.extend(&structure.positions);
                proof {
                    let d0 = t0.difference(sids);
                    assert(t0.insert(id).difference(sids) =~= d0.insert(id));
                    assert(union_positions(self.table(), d0.insert(id)) =~= union_positions(self.table(), d0).union(structure.positions@)) by {
                        assert forall|p: Cell| union_positions(self.table(), d0.insert(id)).contains(p) <==> union_positions(self.table(), d0).union(structure.positions@).contains(p) by {
                            if union_positions(self.table(), d0.insert(id)).contains(p) {
                                let x = choose|x: StructureId| #![trigger d0.insert(id).contains(x)] d0.insert(id).contains(x) && self.table().contains_key(x.0) && self.table()[x.0].positions@.contains(p);
                                if x != id {
                                    assert(d0.contains(x));
                                }
                            }
                            if union_positions(self.table(), d0).contains(p) {
                                let x = choose|x: StructureId| #![trigger d0.contains(x)] d0.contains(x) && self.table().contains_key(x.0) && self.table()[x.0].positions@.contains(p);
                                assert(d0.insert(id).contains(x));
                            }
                            if structure.positions@.contains(p) {
                                assert(d0.insert(id).contains(id));
                            }
                        }
                    }
                }
            }
            j = j + 1;
        }
        assert(component@.take(j as int) =~= component@);
        proof {
            assert forall|id: StructureId| #![trigger c.contains(id)] c.contains(id) implies self.table().contains_key(id.0) && (sids.contains(id) || can_push(self.table()[id.0])) by {
                let k = choose|k: int| 0 <= k < component@.len() && component@[k] == id;
            }
        }
        Some(positions)
    }

    /// Whether the link group of the structure at `seed_pos` holds a factory structure.
    pub fn linked_contains_factory(&self, links: &SuctionLinks, seed_pos: Cell) -> (r: bool)
        requires
            self.wf(),
            links.wf(),
        ensures
            r == (self.index().contains_key(seed_pos) && exists|id: StructureId|
                #![trigger links.component_spec(self.table(), set![self.index()[seed_pos]]).contains(id)]
                links.component_spec(self.table(), set![self.index()[seed_pos]]).contains(id)
                    && self.table().contains_key(id.0) && self.table()[id.0].kind == StructureKind::Factory),
    {
        let seed_id = match self.id_at(seed_pos) {
            Some(id) => id,
            None => return false,
        };
        let seeds = [seed_id];
        assert(seeds@.to_set() =~= set![seed_id]) by {
            assert(seeds@ =~= seq![seed_id]);
            assert(seeds@[0] == seed_id);
            assert(seeds@.contains(seed_id));
        }
        let component = links.component_ids(self, &seeds);
        let ghost c = links.component_spec(self.table(), set![seed_id]);
        let mut i: usize = 0;
        while i < component.len()
            invariant
                component@.to_set() == c,
                c == links.component_spec(self.table(), set![self.index()[seed_pos]]),
                self.index().contains_key(seed_pos),
                i <= component@.len(),
                forall|k: int| 0 <= k < i ==> !(self.table().contains_key((#[trigger] component@[k]).0) && self.table()[component@[k].0].kind == StructureKind::Factory),
            decreases component@.len() - i,
        {
            match self.structure_by_id(component[i]) {
                Some(s) => {
                    if s.kind == StructureKind::Factory {
                        assert(self.table().contains_key(component@[i as int].0));
                        assert(self.table()[component@[i as int].0].kind == StructureKind::Factory);
                        assert(links.component_spec(self.table(), set![self.index()[seed_pos]]).contains(component@[i as int]));
                        return true;
                    }
                },
                None => {},
            }
            i = i + 1;
        }
        assert forall|id: StructureId| c.contains(id) implies !(self.table().contains_key(id.0) && self.table()[id.0].kind == StructureKind::Factory) by {
            let k = choose|k: int| 0 <= k < component@.len() && component@[k] == id;
        }
        false
    }
}

fn vec_contains(v: &Vec<StructureId>, x: StructureId) -> (r: bool)
    ensures
        r == v@.contains(x),
{
    let mut i: usize = 0;
    while i < v.len()
        invariant
            i <= v@.len(),
            forall|j: int| 0 <= j < i ==> v@[j] != x,
        decreases v@.len() - i,
    {
        if v[i] == x {
            return true;
        }
        i = i + 1;
    }
    false
}

/// Union of all links never separates two linked structures, and linking is an equivalence.
pub proof fn lemma_linked_equivalence(s: &SuctionLinks, a: StructureId, b: StructureId, c: StructureId)
    requires
        s.wf(),
    ensures
        s.linked(a, a),
        s.linked(a, b) ==> s.linked(b, a),
        s.linked(a, b) && s.linked(b, c) ==> s.linked(a, c),
        s.linked(a, s.rep(a)),
        s.rep(s.rep(a)) == s.rep(a),
{
    assert(is_root_in(s.parent@, (s.root@)(a.0)));
}

/// Finding the representative of a representative gives it back: `find` is idempotent
/// on every well-formed link state (fresh, or after any number of unions).
pub proof fn lemma_find_idempotent(s: &SuctionLinks, a: StructureId)
    requires
        s.wf(),
    ensures
        s.rep(s.rep(a)) == s.rep(a),
{
    assert(is_root_in(s.parent@, (s.root@)(a.0)));
}

/// A powered suction cup as the link rebuild sees it.
#[derive(Clone, Copy, Debug, PartialEq, Eq, Structural)]
pub struct SuctionCup {
    pub pos: Cell,
    pub facing: Facing,
    /// A factory or material block stands in front of the cup.
    pub front_sticky: bool,
}

/// The two structures a cup links: its own and the one in front, when both exist,
/// differ, and the front block is a factory or material block.
pub open spec fn cup_link(index: Map<Cell, StructureId>, cup: SuctionCup) -> Option<(StructureId, StructureId)> {
    let front = cup.pos.plus(cup.facing.forward_spec());
    if cup.front_sticky && index.contains_key(cup.pos) && index.contains_key(front) && index[cup.pos]
        != index[front] {
        Some((index[cup.pos], index[front]))
    } else {
        None
    }
}

/// `x` and `y` are joined by the links of the cups (the equivalence they generate).
pub open spec fn joined_by(cups: Seq<SuctionCup>, index: Map<Cell, StructureId>, x: StructureId, y: StructureId) -> bool
    decreases cups.len(),
{
    if cups.len() == 0 {
        x == y
    } else {
        let prev = cups.drop_last();
        match cup_link(index, cups.last()) {
            Some((a, b)) => joined_by(prev, index, x, y) || (joined_by(prev, index, x, a) && joined_by(prev, index, y, b))
                || (joined_by(prev, index, x, b) && joined_by(prev, index, y, a)),
            None => joined_by(prev, index, x, y),
        }
    }
}

impl SuctionLinks {
    /// Links rebuilt from the powered suction cups: each cup links its structure with
    /// the structure in front of it.
    pub fn rebuild(structures: &StructureState, cups: &[SuctionCup]) -> (s: SuctionLinks)
        requires
            structures.wf(),
            forall|i: int| 0 <= i < cups@.len() ==> (#[trigger] cups@[i]).pos.add_fits(cups@[i].facing.forward_spec()),
        ensures
            s.wf(),
            forall|x: StructureId, y: StructureId| #[trigger] s.linked(x, y) <==> joined_by(cups@, structures.index(), x, y),
    {
        let mut links = SuctionLinks::new();
        let mut i: usize = 0;
        while i < cups.len()
            invariant
                structures.wf(),
                forall|j: int| 0 <= j < cups@.len() ==> (#[trigger] cups@[j]).pos.add_fits(cups@[j].facing.forward_spec()),
                i <= cups@.len(),
                links.wf(),
                forall|x: StructureId, y: StructureId| #[trigger] links.linked(x, y) <==> joined_by(
                    cups@.take(i as int),
                    structures.index(),
                    x,
                    y,
                ),
            decreases cups@.len() - i,
        {
            let cup = cups[i];
            proof {
                assert(cups@.take(i + 1).drop_last() =~= cups@.take(i as int));
                assert(cups@.take(i + 1).last() == cup);
            }
            let front = cup.pos.add(cup.facing.forward_ivec3());
            if cup.front_sticky {
                match (structures.id_at(cup.pos), structures.id_at(front)) {
                    (Some(self_id), Some(front_id)) => {
                        if self_id != front_id {
                            links.union(self_id, front_id);
                        }
                    },
                    _ => {},
                }
            }
            i = i + 1;
        }
        proof {
            assert(cups@.take(i as int) =~= cups@);
        }
        links
    }
}

} // verus!
