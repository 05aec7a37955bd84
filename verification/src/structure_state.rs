//! The structure table: which structure owns each cell, and per-structure data.
use vstd::prelude::*;

use std::collections::{HashMap, HashSet};

use crate::cell::Cell;
use crate::cellmap::{CellMap, CellSet};
use crate::factory::{
    allowed_ok, closed_under_steps, connected_factory_subset, factory_reach, far_from_limits,
    lemma_closed_add, lemma_reach_inside, lemma_reach_outside, lemma_reach_start, scene_touching_cells,
    touches_scene_at, FactoryLink,
};
use crate::signals::{cells_sorted, insert_sorted_cell};
use crate::deform::{DeformGraph, DeformPusher};
use crate::deform_graph::{
    assign_heads, blocks_far, deform_links, factory_view, graph_link, heads_fresh, ids_unique, link_of,
    pusher_bodies, pushers_of, pushes_unit, had_head, prev_head, DeformBlock,
};
use crate::deform_groups::{deform_groups_of, graph_ok, groups_of};
use crate::ids::BlockId;
use crate::ids::StructureId;
use crate::structure::{
    StoredAcceptorStructure,
    AcceptorStructure, DeformGroup, FactoryActivity, GridBounds, Structure, StructureFreedom,
    StructureKind, is_bounds_of,
};

verus! {

/// The table entry `s` stored under key `k` is consistent with the cell index.
pub open spec fn entry_ok(k: u64, s: Structure, next_id: u64, index: Map<Cell, StructureId>) -> bool {
    &&& s.id.0 == k
    &&& k != 0
    &&& k <= next_id
    &&& s.positions.wf()
    &&& s.scene_touching.wf()
    &&& forall|i: int| 0 <= i < s.head_of@.len() ==> (#[trigger] s.head_of@[i]).0 != s.head_of@[i].1
    &&& forall|p: Cell| #[trigger]
        s.positions@.contains(p) ==> index.contains_key(p) && index[p] == s.id
    &&& match s.bounds {
        Some(b) => !s.positions@.is_empty() && is_bounds_of(b, s.positions@),
        None => s.positions@.is_empty(),
    }
}

/// Structures of the table owning some of the cells.
pub open spec fn ids_of_cells(index: Map<Cell, StructureId>, cells: Set<Cell>) -> Set<StructureId> {
    Set::new(|id: StructureId| exists|p: Cell| cells.contains(p) && index.contains_key(p) && index[p] == id)
}

/// Where a cell ends up when the cells of `moving` translate by `offset`.
pub open spec fn shifted(p: Cell, moving: Set<Cell>, offset: Cell) -> Cell {
    if moving.contains(p) {
        p.plus(offset)
    } else {
        p
    }
}

/// Image of a cell set when the cells of `moving` translate by `offset`.
pub open spec fn shift_set(s: Set<Cell>, moving: Set<Cell>, offset: Cell) -> Set<Cell> {
    s.map(|p: Cell| shifted(p, moving, offset))
}

/// The keys of a map keyed by identities, each once.
pub fn keys_of<V>(m: &HashMap<u64, V>) -> (r: Vec<u64>)
    ensures
        r@.to_set() == m@.dom(),
        r@.no_duplicates(),
        r@.len() == m@.dom().len(),
{
    let mut r: Vec<u64> = Vec::new();
    for k in it: m.keys()
        invariant
            r@ == it.seq().unref().take(it.index()),
            it.seq().unref().to_set() == m@.dom(),
            it.seq().unref().no_duplicates(),
            it.seq().len() == m@.dom().len(),
            it.index() == it.seq().len() ==> r@ == it.seq().unref(),
    {
        r.push(*k);
        assert(r@ =~= it.seq().unref().take(it.index() + 1));
        assert(it.seq().unref().take(it.seq().len() as int) =~= it.seq().unref());
    }
    r
}

/// `after` is `before` with one more structure, `id`, over `positions`: its other data
/// as given (no deform groups, bounds those of the members), the cell index extended
/// with its members, everything else kept.
pub open spec fn registered(
    before: StructureState,
    after: StructureState,
    id: StructureId,
    kind: StructureKind,
    positions: Set<Cell>,
    activity: FactoryActivity,
    freedom: StructureFreedom,
    scene_touching: Set<Cell>,
) -> bool {
    &&& after.table().contains_key(id.0)
    &&& after.table()[id.0].id == id
    &&& after.table()[id.0].kind == kind
    &&& after.table()[id.0].positions@ == positions
    &&& after.table()[id.0].activity == activity
    &&& after.table()[id.0].freedom == freedom
    &&& after.table()[id.0].scene_touching@ == scene_touching
    &&& after.table()[id.0].deform_groups@.len() == 0
    &&& after.table()[id.0].head_of@.len() == 0
    &&& after.table()[id.0].gravity_support@.len() == 0
    &&& forall|k: u64| k != id.0 ==> #[trigger] after.table().contains_key(k) == before.table().contains_key(k)
    &&& forall|k: u64| k != id.0 && #[trigger] before.table().contains_key(k) ==> after.table()[k] == before.table()[k]
    &&& forall|p: Cell| #[trigger] after.index().contains_key(p) == (before.index().contains_key(p) || positions.contains(p))
    &&& forall|p: Cell| #[trigger] after.index().contains_key(p) ==> after.index()[p] == (if positions.contains(p) {
        id
    } else {
        before.index()[p]
    })
    &&& after.held() == before.held()
    &&& after.moving() == before.moving()
    &&& after.head_counter() == before.head_counter()
    &&& after.acceptors() == before.acceptors()
}

/// Structure table: connected factory and material structures and the cell index.
pub struct StructureState {
    structures: HashMap<u64, Structure>,
    structure_by_pos: CellMap<StructureId>,
    next_structure_id: u64,
    acceptor_structures: Vec<AcceptorStructure>,
    /// Blocks (including logical heads) already holding a move this turn.
    held_blocks: HashSet<u64>,
    /// Structures already holding a whole-structure translation this turn.
    moving_structures: HashSet<u64>,
    /// Next identity for a logical pusher head.
    next_head_id: u64,
}

impl StructureState {
    pub closed spec fn wf(&self) -> bool {
        &&& self.structure_by_pos.wf()
        &&& forall|k: u64| #[trigger]
            self.structures@.contains_key(k) ==> entry_ok(
                k,
                self.structures@[k],
                self.next_structure_id,
                self.structure_by_pos@,
            )
        &&& forall|p: Cell| #[trigger]
            self.structure_by_pos@.contains_key(p) ==> {
                let id = self.structure_by_pos@[p];
                &&& self.structures@.contains_key(id.0)
                &&& self.structures@[id.0].positions@.contains(p)
            }
    }

    /// Structures by identity.
    pub closed spec fn table(&self) -> Map<u64, Structure> {
        self.structures@
    }

    /// The structure owning each indexed cell.
    pub closed spec fn index(&self) -> Map<Cell, StructureId> {
        self.structure_by_pos@
    }

    /// Blocks holding a move this turn.
    pub closed spec fn held(&self) -> Set<u64> {
        self.held_blocks@
    }

    /// Structures holding a translation this turn.
    pub closed spec fn moving(&self) -> Set<u64> {
        self.moving_structures@
    }

    /// Highest identity handed out so far.
    pub closed spec fn last_id(&self) -> u64 {
        self.next_structure_id
    }

    /// The next identity for a logical pusher head.
    pub closed spec fn head_counter(&self) -> u64 {
        self.next_head_id
    }

    /// The acceptor structures with their counters.
    pub closed spec fn acceptors(&self) -> Seq<AcceptorStructure> {
        self.acceptor_structures@
    }

    /// The structure owning `pos`, if any.
    pub open spec fn structure_at(&self, pos: Cell) -> Option<Structure> {
        if self.index().contains_key(pos) && self.table().contains_key(self.index()[pos].0) {
            Some(self.table()[self.index()[pos].0])
        } else {
            None
        }
    }

    pub proof fn lemma_wf_facts(&self)
        requires
            self.wf(),
        ensures
            forall|p: Cell| #[trigger]
                self.index().contains_key(p) ==> self.table().contains_key(self.index()[p].0)
                    && self.table()[self.index()[p].0].positions@.contains(p)
                    && self.table()[self.index()[p].0].id == self.index()[p],
            forall|k: u64| #[trigger]
                self.table().contains_key(k) ==> entry_ok(
                    k,
                    self.table()[k],
                    self.last_id(),
                    self.index(),
                ),
    {
        assert forall|p: Cell| #[trigger] self.index().contains_key(p) implies self.table().contains_key(
            self.index()[p].0,
        ) && self.table()[self.index()[p].0].positions@.contains(p) && self.table()[self.index()[
            p
        ].0].id == self.index()[p] by {
            let k = self.index()[p].0;
            assert(entry_ok(k, self.structures@[k], self.next_structure_id, self.structure_by_pos@));
        }
    }

    pub fn new() -> (s: StructureState)
        ensures
            s.wf(),
            s.table() == Map::<u64, Structure>::empty(),
            s.index() == Map::<Cell, StructureId>::empty(),
            s.last_id() == 0,
            s.held() == Set::<u64>::empty(),
            s.moving() == Set::<u64>::empty(),
            s.acceptors() == Seq::<AcceptorStructure>::empty(),
            s.head_counter() == 0,
    {
        StructureState {
            structures: HashMap::new(),
            structure_by_pos: CellMap::new(),
            next_structure_id: 0,
            acceptor_structures: Vec::new(),
            held_blocks: HashSet::new(),
            moving_structures: HashSet::new(),
            next_head_id: 0,
        }
    }

    /// Forgets every structure and restarts identity allocation.
    pub fn clear(&mut self)
        ensures
            final(self).wf(),
            final(self).table() == Map::<u64, Structure>::empty(),
            final(self).index() == Map::<Cell, StructureId>::empty(),
            final(self).last_id() == 0,
            final(self).held() == Set::<u64>::empty(),
            final(self).moving() == Set::<u64>::empty(),
    {
        *self = StructureState::new();
    }

    /// Clears the per-turn move holds, keeping the structures.
    pub fn clear_turn_marks(&mut self)
        ensures
            final(self).table() == old(self).table(),
            final(self).index() == old(self).index(),
            final(self).last_id() == old(self).last_id(),
            final(self).wf() == old(self).wf(),
            final(self).held() == Set::<u64>::empty(),
            final(self).moving() == Set::<u64>::empty(),
            final(self).head_counter() == old(self).head_counter(),
            final(self).acceptors() == old(self).acceptors(),
    {
        self.held_blocks.clear();
        self.moving_structures.clear();
    }

    /// Whether no cell belongs to any structure.
    pub fn is_empty(&self) -> (r: bool)
        requires
            self.wf(),
        ensures
            r == (self.index() == Map::<Cell, StructureId>::empty()),
    {
        self.structure_by_pos.is_empty()
    }

    /// Registers a new structure over `positions` under a fresh identity
    /// (one identity per connected component found by a rebuild).
    pub fn add_structure(
        &mut self,
        kind: StructureKind,
        positions: CellSet,
        activity: FactoryActivity,
        freedom: StructureFreedom,
        scene_touching: CellSet,
    ) -> (id: StructureId)
        requires
            old(self).wf(),
            positions.wf(),
            scene_touching.wf(),
            old(self).last_id() < u64::MAX,
            forall|p: Cell| positions@.contains(p) ==> !old(self).index().contains_key(p),
        ensures
            final(self).wf(),
            id.0 == old(self).last_id() + 1,
            final(self).last_id() == id.0,
            !old(self).table().contains_key(id.0),
            registered(*old(self), *final(self), id, kind, positions@, activity, freedom, scene_touching@),
    {
        proof {
            self.lemma_wf_facts();
        }
        let id = StructureId(self.next_structure_id + 1);
        assert(!old(self).structures@.contains_key(id.0)) by {
            if old(self).structures@.contains_key(id.0) {
                assert(entry_ok(id.0, old(self).structures@[id.0], old(self).next_structure_id, old(self).structure_by_pos@));
            }
        }
        self.next_structure_id = self.next_structure_id + 1;
        proof {
            assert forall|k: u64| #[trigger] self.structures@.contains_key(k) implies entry_ok(
                k,
                self.structures@[k],
                self.next_structure_id,
                self.structure_by_pos@,
            ) by {
                assert(entry_ok(k, old(self).structures@[k], old(self).next_structure_id, old(self).structure_by_pos@));
            }
        }
        let ghost mid = *self;
        self.register_structure(id, kind, positions, activity, freedom, scene_touching);
        proof {
            assert(mid.table() == old(self).table());
            assert(mid.index() == old(self).index());
            assert(mid.held() == old(self).held());
            assert(mid.moving() == old(self).moving());
            assert(mid.head_counter() == old(self).head_counter());
            assert(mid.acceptors() == old(self).acceptors());
        }
        id
    }

    /// Registers a new structure over `positions` under the unused identity `id`.
    pub(crate) fn register_structure(
        &mut self,
        id: StructureId,
        kind: StructureKind,
        positions: CellSet,
        activity: FactoryActivity,
        freedom: StructureFreedom,
        scene_touching: CellSet,
    )
        requires
            old(self).wf(),
            positions.wf(),
            scene_touching.wf(),
            id.0 != 0,
            id.0 <= old(self).last_id(),
            !old(self).table().contains_key(id.0),
            forall|p: Cell| positions@.contains(p) ==> !old(self).index().contains_key(p),
        ensures
            final(self).wf(),
            final(self).last_id() == old(self).last_id(),
            registered(*old(self), *final(self), id, kind, positions@, activity, freedom, scene_touching@),
    {
        proof {
            self.lemma_wf_facts();
        }
        let cells = positions.to_vec();
        proof {
            positions.lemma_elems();
        }
        let mut i: usize = 0;
        while i < cells.len()
            invariant
                cells@ == positions.elems(),
                positions@ == positions.elems().to_set(),
                positions.elems().no_duplicates(),
                i <= cells@.len(),
                self.structure_by_pos.wf(),
                self.structures@ == old(self).structures@,
                self.next_structure_id == old(self).next_structure_id,
                self.held_blocks@ == old(self).held_blocks@,
                self.moving_structures@ == old(self).moving_structures@,
                self.next_head_id == old(self).next_head_id,
                self.acceptor_structures@ == old(self).acceptor_structures@,
                self.structure_by_pos@ == old(self).structure_by_pos@.union_prefer_right(
                    Map::new(|p: Cell| cells@.take(i as int).contains(p), |p: Cell| id),
                ),
            decreases cells@.len() - i,
        {
            self.structure_by_pos.insert(cells[i], id);
            proof {
                assert(cells@.take(i + 1) =~= cells@.take(i as int).push(cells@[i as int]));
                assert forall|p: Cell| cells@.take(i + 1).contains(p) <==> (cells@.take(i as int).contains(p) || p == cells@[i as int]) by {
                    if cells@.take(i + 1).contains(p) {
                        let j = choose|j: int| 0 <= j < i + 1 && #[trigger] cells@.take(i + 1)[j] == p;
                        if j < i {
                            assert(cells@.take(i as int)[j] == p);
                        }
                    }
                    if cells@.take(i as int).contains(p) {
                        let j = choose|j: int| 0 <= j < i && #[trigger] cells@.take(i as int)[j] == p;
                        assert(cells@.take(i + 1)[j] == p);
                    }
                    if p == cells@[i as int] {
                        assert(cells@.take(i + 1)[i as int] == p);
                    }
                }
                assert(self.structure_by_pos@ =~= old(self).structure_by_pos@.union_prefer_right(
                    Map::new(|p: Cell| cells@.take(i + 1).contains(p), |p: Cell| id),
                ));
            }
            i = i + 1;
        }
        assert(cells@.take(i as int) =~= cells@);
        assert(forall|p: Cell| #[trigger] cells@.contains(p) <==> positions@.contains(p));
        let bounds = GridBounds::from_positions(&positions);
        let structure = Structure {
            id,
            kind,
            positions,
            bounds,
            activity,
            freedom,
            deform_groups: Vec::new(),
            head_of: Vec::new(),
            scene_touching,
            gravity_support: Vec::new(),
        };
        self.structures.insert(id.0, structure);
        proof {
            assert forall|k: u64| #[trigger] self.structures@.contains_key(k) implies entry_ok(
                k,
                self.structures@[k],
                self.next_structure_id,
                self.structure_by_pos@,
            ) by {
                if k != id.0 {
                    assert(old(self).structures@.contains_key(k));
                    let s = old(self).structures@[k];
                    assert(entry_ok(k, s, old(self).next_structure_id, old(self).structure_by_pos@));
                    assert forall|p: Cell| #[trigger] s.positions@.contains(p) implies self.structure_by_pos@.contains_key(p) && self.structure_by_pos@[p] == s.id by {
                        assert(old(self).structure_by_pos@.contains_key(p));
                        assert(!positions@.contains(p));
                    }
                }
            }
            assert forall|p: Cell| #[trigger] self.structure_by_pos@.contains_key(p) implies {
                let sid = self.structure_by_pos@[p];
                &&& self.structures@.contains_key(sid.0)
                &&& self.structures@[sid.0].positions@.contains(p)
            } by {
                if !positions@.contains(p) {
                    assert(old(self).structure_by_pos@.contains_key(p));
                    let sid = old(self).structure_by_pos@[p];
                    assert(old(self).structures@.contains_key(sid.0));
                    assert(sid.0 != id.0);
                }
            }
        }
    }

    /// Identities of all structures, each once.
    pub fn structure_ids(&self) -> (r: Vec<StructureId>)
        ensures
            r@.no_duplicates(),
            forall|id: StructureId| r@.contains(id) <==> self.table().contains_key(id.0),
            r@.len() == self.table().dom().len(),
    {
        let raw = keys_of(&self.structures);
        let mut r: Vec<StructureId> = Vec::new();
        let mut i: usize = 0;
        while i < raw.len()
            invariant
                i <= raw@.len(),
                r@ == raw@.take(i as int).map_values(|x: u64| StructureId(x)),
            decreases raw@.len() - i,
        {
            r.push(StructureId(raw[i]));
            i = i + 1;
            assert(r@ =~= raw@.take(i as int).map_values(|x: u64| StructureId(x)));
        }
        assert(raw@.take(i as int) =~= raw@);
        let ghost raw = raw@;
        proof {
            assert forall|a: int, b: int| 0 <= a < r@.len() && 0 <= b < r@.len() && a != b implies r@[a] != r@[b] by {
                assert(raw[a] != raw[b]);
            }
            assert forall|id: StructureId| r@.contains(id) <==> self.structures@.contains_key(id.0) by {
                if r@.contains(id) {
                    let j = choose|j: int| 0 <= j < r@.len() && r@[j] == id;
                    assert(raw[j] == id.0);
                    assert(raw.to_set().contains(id.0));
                }
                if self.structures@.contains_key(id.0) {
                    assert(raw.to_set().contains(id.0));
                    let j = choose|j: int| 0 <= j < raw.len() && raw[j] == id.0;
                    assert(r@[j] == id);
                }
            }
        }
        r
    }

    fn structure(&self, pos: Cell) -> (r: Option<&Structure>)
        requires
            self.wf(),
        ensures
            r == (match self.structure_at(pos) { Some(s) => Some(&s), None => None::<&Structure> }),
            r matches Some(s) ==> s.positions.wf() && s.scene_touching.wf() && s.positions@.contains(pos),
    {
        proof {
            self.lemma_wf_facts();
        }
        match self.structure_by_pos.get(pos) {
            Some(id) => self.structures.get(&id.0),
            None => None,
        }
    }

    /// The structure with the given identity.
    pub fn get(&self, id: StructureId) -> (r: Option<&Structure>)
        ensures
            r == (if self.table().contains_key(id.0) { Some(&self.table()[id.0]) } else { None::<&Structure> }),
    {
        self.structures.get(&id.0)
    }

    /// The structure with the given identity.
    pub fn structure_by_id(&self, id: StructureId) -> (r: Option<&Structure>)
        ensures
            r == (if self.table().contains_key(id.0) { Some(&self.table()[id.0]) } else { None::<&Structure> }),
    {
        self.structures.get(&id.0)
    }

    /// Identity of the structure owning `pos`.
    pub fn id_at(&self, pos: Cell) -> (r: Option<StructureId>)
        requires
            self.wf(),
        ensures
            r == (if self.index().contains_key(pos) { Some(self.index()[pos]) } else { None::<StructureId> }),
    {
        self.structure_by_pos.get(pos)
    }

    /// Identity of the structure owning `pos`.
    pub fn structure_id_at(&self, pos: Cell) -> (r: Option<StructureId>)
        requires
            self.wf(),
        ensures
            r == (if self.index().contains_key(pos) { Some(self.index()[pos]) } else { None::<StructureId> }),
    {
        self.structure_by_pos.get(pos)
    }

    pub fn activity_at(&self, pos: Cell) -> (r: Option<FactoryActivity>)
        requires
            self.wf(),
        ensures
            r == (match self.structure_at(pos) { Some(s) => Some(s.activity), None => None::<FactoryActivity> }),
    {
        match self.structure(pos) {
            Some(s) => Some(s.activity),
            None => None,
        }
    }

    pub fn freedom_at(&self, pos: Cell) -> (r: Option<StructureFreedom>)
        requires
            self.wf(),
        ensures
            r == (match self.structure_at(pos) { Some(s) => Some(s.freedom), None => None::<StructureFreedom> }),
    {
        match self.structure(pos) {
            Some(s) => Some(s.freedom),
            None => None,
        }
    }

    pub fn kind_at(&self, pos: Cell) -> (r: Option<StructureKind>)
        requires
            self.wf(),
        ensures
            r == (match self.structure_at(pos) { Some(s) => Some(s.kind), None => None::<StructureKind> }),
    {
        match self.structure(pos) {
            Some(s) => Some(s.kind),
            None => None,
        }
    }

    /// Whether the structure owning `pos` also owns `candidate`.
    pub fn structure_contains(&self, pos: Cell, candidate: Cell) -> (r: bool)
        requires
            self.wf(),
        ensures
            r == (match self.structure_at(pos) { Some(s) => s.positions@.contains(candidate), None => false }),
    {
        match self.structure(pos) {
            Some(s) => s.positions.contains(candidate),
            None => false,
        }
    }

    /// Members of the structure with the given identity.
    pub fn structure_positions(&self, id: StructureId) -> (r: Option<&CellSet>)
        ensures
            r == (if self.table().contains_key(id.0) { Some(&self.table()[id.0].positions) } else { None::<&CellSet> }),
    {
        match self.structures.get(&id.0) {
            Some(s) => Some(&s.positions),
            None => None,
        }
    }

    /// Members of the structure at `pos` when it may be pushed by `offset`:
    /// it has no scene-anchored member and full freedom.
    pub fn pushable_structure_positions_at(&self, pos: Cell, offset: Cell) -> (r: Option<&CellSet>)
        requires
            self.wf(),
        ensures
            r == (match self.structure_at(pos) {
                Some(s) => if s.scene_touching@ == Set::<Cell>::empty() && s.freedom == StructureFreedom::All {
                    Some(&s.positions)
                } else {
                    None::<&CellSet>
                },
                None => None::<&CellSet>,
            }),
    {
        let structure = match self.structure(pos) {
            Some(s) => s,
            None => return None,
        };
        if !structure.is_pushable() || !structure.freedom.can_translate(offset) {
            return None;
        }
        Some(&structure.positions)
    }

    /// Copy of the members of the structure at `pos` when it may be pushed by `offset`.
    pub fn pushable_structure_at(&self, pos: Cell, offset: Cell) -> (r: Option<CellSet>)
        requires
            self.wf(),
        ensures
            r is Some <==> (match self.structure_at(pos) {
                Some(s) => s.scene_touching@ == Set::<Cell>::empty() && s.freedom == StructureFreedom::All,
                None => false,
            }),
            r matches Some(c) ==> c.wf() && c@ == self.structure_at(pos).unwrap().positions@,
    {
        match self.pushable_structure_positions_at(pos, offset) {
            Some(p) => Some(p.clone()),
            None => None,
        }
    }

    /// Same as [`Self::pushable_structure_at`].
    pub fn active_structure_at(&self, pos: Cell, offset: Cell) -> (r: Option<CellSet>)
        requires
            self.wf(),
        ensures
            r is Some <==> (match self.structure_at(pos) {
                Some(s) => s.scene_touching@ == Set::<Cell>::empty() && s.freedom == StructureFreedom::All,
                None => false,
            }),
            r matches Some(c) ==> c.wf() && c@ == self.structure_at(pos).unwrap().positions@,
    {
        self.pushable_structure_at(pos, offset)
    }

    /// The active, translatable structure at `pos` with its members.
    pub fn falling_structure_at(&self, pos: Cell, offset: Cell) -> (r: Option<(StructureId, CellSet)>)
        requires
            self.wf(),
        ensures
            r is Some <==> (match self.structure_at(pos) {
                Some(s) => s.activity == FactoryActivity::Active && s.freedom == StructureFreedom::All,
                None => false,
            }),
            r matches Some(v) ==> v.0 == self.index()[pos] && v.1.wf() && v.1@ == self.structure_at(pos).unwrap().positions@,
    {
        proof {
            self.lemma_wf_facts();
        }
        let id = match self.structure_by_pos.get(pos) {
            Some(id) => id,
            None => return None,
        };
        let structure = match self.structures.get(&id.0) {
            Some(s) => s,
            None => return None,
        };
        if structure.activity != FactoryActivity::Active || !structure.freedom.can_translate(offset) {
            return None;
        }
        Some((id, structure.positions.clone()))
    }

    /// Members of the structure at `pos` when it is active and not fixed.
    pub fn movable_structure_at(&self, pos: Cell) -> (r: Option<CellSet>)
        requires
            self.wf(),
        ensures
            r is Some <==> (match self.structure_at(pos) {
                Some(s) => s.activity == FactoryActivity::Active && s.freedom != StructureFreedom::Fixed,
                None => false,
            }),
            r matches Some(c) ==> c.wf() && c@ == self.structure_at(pos).unwrap().positions@,
    {
        let structure = match self.structure(pos) {
            Some(s) => s,
            None => return None,
        };
        if structure.activity != FactoryActivity::Active || structure.freedom == StructureFreedom::Fixed {
            return None;
        }
        Some(structure.positions.clone())
    }
}

/// Image of a cell set under a translation of the cells of `moving`.
pub fn shift_cells(s: &CellSet, moving: &CellSet, offset: Cell) -> (r: CellSet)
    requires
        s.wf(),
        forall|p: Cell| s@.contains(p) && moving@.contains(p) ==> p.add_fits(offset),
    ensures
        r.wf(),
        r@ == shift_set(s@, moving@, offset),
{
    let cells = s.to_vec();
    proof {
        s.lemma_elems();
    }
    let mut out = CellSet::new();
    let mut i: usize = 0;
    while i < cells.len()
        invariant
            cells@ == s.elems(),
            s@ == s.elems().to_set(),
            forall|p: Cell| s@.contains(p) && moving@.contains(p) ==> p.add_fits(offset),
            i <= cells@.len(),
            out.wf(),
            out@ == shift_set(cells@.take(i as int).to_set(), moving@, offset),
        decreases cells@.len() - i,
    {
        let p = cells[i];
        assert(s@.contains(p));
        let q = if moving.contains(p) { p.add(offset) } else { p };
        out.insert(q);
        proof {
            let t0 = cells@.take(i as int).to_set();
            cells@.take(i as int).lemma_push_to_set_commute(p);
            assert(cells@.take(i + 1) =~= cells@.take(i as int).push(p));
            assert(shift_set(t0.insert(p), moving@, offset) =~= shift_set(t0, moving@, offset).insert(q)) by {
                assert forall|c: Cell| shift_set(t0.insert(p), moving@, offset).contains(c) implies shift_set(t0, moving@, offset).insert(q).contains(c) by {
                    let x = choose|x: Cell| t0.insert(p).contains(x) && shifted(x, moving@, offset) == c;
                    if x != p {
                        assert(t0.contains(x));
                    }
                }
                assert forall|c: Cell| shift_set(t0, moving@, offset).insert(q).contains(c) implies shift_set(t0.insert(p), moving@, offset).contains(c) by {
                    if c == q {
                        assert(t0.insert(p).contains(p));
                    } else {
                        let x = choose|x: Cell| t0.contains(x) && shifted(x, moving@, offset) == c;
                        assert(t0.insert(p).contains(x));
                    }
                }
            }
        }
        i = i + 1;
    }
    assert(cells@.take(i as int) =~= cells@);
    out
}

impl StructureState {
    /// Cells a structure holds after translating the cells of `moving`: a structure
    /// owning some of them has its members moved, any other keeps its members.
    pub open spec fn final_cells(&self, k: u64, moving: Set<Cell>, offset: Cell) -> Set<Cell> {
        if ids_of_cells(self.index(), moving).contains(StructureId(k)) {
            shift_set(self.table()[k].positions@, moving, offset)
        } else {
            self.table()[k].positions@
        }
    }

    /// The translation keeps the structures apart and every moved cell representable.
    pub open spec fn translate_ok(&self, moving: Set<Cell>, offset: Cell) -> bool {
        &&& forall|p: Cell| #[trigger] moving.contains(p) ==> p.add_fits(offset)
        &&& forall|k1: u64, k2: u64, p: Cell|
            #![trigger self.final_cells(k1, moving, offset).contains(p), self.final_cells(k2, moving, offset).contains(p)]
            self.table().contains_key(k1) && self.table().contains_key(k2) && k1 != k2
                && self.final_cells(k1, moving, offset).contains(p) ==> !self.final_cells(k2, moving, offset).contains(p)
    }

    /// Identities of the structures owning some of the cells, each once.
    pub fn ids_at_cells(&self, cells: &CellSet) -> (r: Vec<StructureId>)
        requires
            self.wf(),
            cells.wf(),
        ensures
            r@.no_duplicates(),
            r@.to_set() == ids_of_cells(self.index(), cells@),
    {
        let v = cells.to_vec();
        proof {
            cells.lemma_elems();
        }
        let mut out: Vec<StructureId> = Vec::new();
        let mut i: usize = 0;
        while i < v.len()
            invariant
                self.wf(),
                v@ == cells.elems(),
                cells@ == v@.to_set(),
                i <= v@.len(),
                out@.no_duplicates(),
                out@.to_set() == ids_of_cells(self.index(), v@.take(i as int).to_set()),
            decreases v@.len() - i,
        {
            let ghost before = out@;
            let ghost t0 = v@.take(i as int).to_set();
            let c = v[i];
            proof {
                v@.take(i as int).lemma_push_to_set_commute(c);
                assert(v@.take(i + 1) =~= v@.take(i as int).push(c));
            }
            match self.id_at(c) {
                Some(id) => {
                    if !contains_id(&out, id) {
                        out.push(id);
                        proof {
                            before.lemma_push_to_set_commute(id);
                            assert(out@.no_duplicates()) by {
                                assert forall|a: int, b: int| 0 <= a < out@.len() && 0 <= b < out@.len() && a != b implies out@[a] != out@[b] by {
                                    if a < before.len() && b < before.len() {
                                        assert(out@[a] == before[a] && out@[b] == before[b]);
                                    } else if a < before.len() {
                                        assert(out@[a] == before[a]);
                                        assert(before.contains(before[a]));
                                    } else if b < before.len() {
                                        assert(out@[b] == before[b]);
                                        assert(before.contains(before[b]));
                                    }
                                }
                            }
                        }
                    } else {
                        assert(before.to_set().insert(id) =~= before.to_set());
                    }
                    proof {
                        assert(ids_of_cells(self.index(), t0.insert(c)) =~= ids_of_cells(self.index(), t0).insert(id)) by {
                            assert forall|x: StructureId| ids_of_cells(self.index(), t0.insert(c)).contains(x) implies ids_of_cells(self.index(), t0).insert(id).contains(x) by {
                                let p = choose|p: Cell| t0.insert(c).contains(p) && self.index().contains_key(p) && self.index()[p] == x;
                                if p != c {
                                    assert(t0.contains(p));
                                }
                            }
                            assert forall|x: StructureId| ids_of_cells(self.index(), t0).insert(id).contains(x) implies ids_of_cells(self.index(), t0.insert(c)).contains(x) by {
                                if x == id {
                                    assert(t0.insert(c).contains(c));
                                } else {
                                    let p = choose|p: Cell| t0.contains(p) && self.index().contains_key(p) && self.index()[p] == x;
                                    assert(t0.insert(c).contains(p));
                                }
                            }
                        }
                    }
                },
                None => {
                    proof {
                        assert(ids_of_cells(self.index(), t0.insert(c)) =~= ids_of_cells(self.index(), t0)) by {
                            assert forall|x: StructureId| ids_of_cells(self.index(), t0.insert(c)).contains(x) implies ids_of_cells(self.index(), t0).contains(x) by {
                                let p = choose|p: Cell| t0.insert(c).contains(p) && self.index().contains_key(p) && self.index()[p] == x;
                                if p != c {
                                    assert(t0.contains(p));
                                }
                            }
                            assert forall|x: StructureId| ids_of_cells(self.index(), t0).contains(x) implies ids_of_cells(self.index(), t0.insert(c)).contains(x) by {
                                let p = choose|p: Cell| t0.contains(p) && self.index().contains_key(p) && self.index()[p] == x;
                                assert(t0.insert(c).contains(p));
                            }
                        }
                    }
                },
            }
            i = i + 1;
        }
        assert(v@.take(i as int) =~= v@);
        out
    }
}

/// The index without the cells owned by any of `ids`.
pub open spec fn without_owners(index: Map<Cell, StructureId>, ids: Set<StructureId>) -> Map<Cell, StructureId> {
    Map::new(|p: Cell| index.contains_key(p) && !ids.contains(index[p]), |p: Cell| index[p])
}

impl StructureState {
    /// Drops from the cell index every cell owned by one of `ids`.
    fn unindex(&mut self, ids: &Vec<StructureId>)
        requires
            old(self).wf(),
            forall|j: int| 0 <= j < ids@.len() ==> old(self).table().contains_key(#[trigger] ids@[j].0),
        ensures
            final(self).structures@ == old(self).structures@,
            final(self).next_structure_id == old(self).next_structure_id,
            final(self).held_blocks@ == old(self).held_blocks@,
            final(self).moving_structures@ == old(self).moving_structures@,
            final(self).next_head_id == old(self).next_head_id,
            final(self).acceptor_structures@ == old(self).acceptor_structures@,
            final(self).structure_by_pos.wf(),
            final(self).structure_by_pos@ == without_owners(old(self).structure_by_pos@, ids@.to_set()),
    {
        proof {
            self.lemma_wf_facts();
        }
        let ghost idx0 = self.structure_by_pos@;
        proof {
            assert forall|p: Cell| #[trigger] idx0.contains_key(p)
                implies self.structures@.contains_key(idx0[p].0) && self.structures@[idx0[p].0].positions@.contains(p) by {
            }
            assert forall|k: u64, p: Cell| self.structures@.contains_key(k) && #[trigger] self.structures@[k].positions@.contains(p)
                implies idx0.contains_key(p) && idx0[p].0 == k by {
                assert(entry_ok(k, self.structures@[k], self.next_structure_id, idx0));
            }
            assert(without_owners(idx0, ids@.take(0).to_set()) =~= idx0);
        }
        let mut i: usize = 0;
        while i < ids.len()
            invariant
                i <= ids@.len(),
                forall|j: int| 0 <= j < ids@.len() ==> self.structures@.contains_key(#[trigger] ids@[j].0),
                self.structures@ == old(self).structures@,
                self.next_structure_id == old(self).next_structure_id,
                self.held_blocks@ == old(self).held_blocks@,
                self.next_head_id == old(self).next_head_id,
                self.acceptor_structures@ == old(self).acceptor_structures@,
                self.moving_structures@ == old(self).moving_structures@,
                idx0 == old(self).structure_by_pos@,
                self.structure_by_pos.wf(),
                self.structure_by_pos@ == without_owners(idx0, ids@.take(i as int).to_set()),
                forall|k: u64| #[trigger] self.structures@.contains_key(k) ==> self.structures@[k].positions.wf(),
                forall|k: u64, p: Cell| self.structures@.contains_key(k) && #[trigger] self.structures@[k].positions@.contains(p)
                    ==> idx0.contains_key(p) && idx0[p].0 == k,
                forall|p: Cell| #[trigger] idx0.contains_key(p)
                    ==> self.structures@.contains_key(idx0[p].0) && self.structures@[idx0[p].0].positions@.contains(p),
            decreases ids@.len() - i,
        {
            let id = ids[i];
            assert(self.structures@.contains_key(ids@[i as int].0));
            let cells = match self.structures.get(&id.0) {
                Some(s) => s.positions.to_vec(),
                None => Vec::new(),
            };
            let ghost owned = self.structures@[id.0].positions;
            proof {
                owned.lemma_elems();
            }
            let ghost base = without_owners(idx0, ids@.take(i as int).to_set());
            let mut j: usize = 0;
            while j < cells.len()
                invariant
                    j <= cells@.len(),
                    cells@ == owned.elems(),
                    self.structures@ == old(self).structures@,
                    self.next_structure_id == old(self).next_structure_id,
                    self.held_blocks@ == old(self).held_blocks@,
                    self.moving_structures@ == old(self).moving_structures@,
                    self.next_head_id == old(self).next_head_id,
                    self.acceptor_structures@ == old(self).acceptor_structures@,
                    self.structure_by_pos.wf(),
                    self.structure_by_pos@ == Map::new(
                        |p: Cell| base.contains_key(p) && !cells@.take(j as int).contains(p),
                        |p: Cell| base[p],
                    ),
                decreases cells@.len() - j,
            {
                let ghost before = self.structure_by_pos@;
                self.structure_by_pos.remove(cells[j]);
                proof {
                    assert forall|p: Cell| cells@.take(j + 1).contains(p) <==> (cells@.take(j as int).contains(p) || p == cells@[j as int]) by {
                        if cells@.take(j + 1).contains(p) {
                            let t = choose|t: int| 0 <= t < j + 1 && #[trigger] cells@.take(j + 1)[t] == p;
                            if t < j {
                                assert(cells@.take(j as int)[t] == p);
                            }
                        }
                        if cells@.take(j as int).contains(p) {
                            let t = choose|t: int| 0 <= t < j && #[trigger] cells@.take(j as int)[t] == p;
                            assert(cells@.take(j + 1)[t] == p);
                        }
                        if p == cells@[j as int] {
                            assert(cells@.take(j + 1)[j as int] == p);
                        }
                    }
                    assert(self.structure_by_pos@ =~= Map::new(
                        |p: Cell| base.contains_key(p) && !cells@.take(j + 1).contains(p),
                        |p: Cell| base[p],
                    ));
                }
                j = j + 1;
            }
            proof {
                assert(cells@.take(j as int) =~= cells@);
                ids@.take(i as int).lemma_push_to_set_commute(id);
                assert(ids@.take(i + 1) =~= ids@.take(i as int).push(id));
                assert forall|p: Cell| #[trigger] cells@.contains(p) <==> (idx0.contains_key(p) && idx0[p] == id) by {
                    if idx0.contains_key(p) && idx0[p] == id {
                        assert(idx0[p].0 == id.0);
                        assert(owned@.contains(p));
                    }
                    if cells@.contains(p) {
                        assert(owned@.contains(p));
                        assert(idx0[p].0 == id.0);
                    }
                }
                assert(self.structure_by_pos@ =~= without_owners(idx0, ids@.take(i + 1).to_set()));
            }
            i = i + 1;
        }
        assert(ids@.take(i as int) =~= ids@);
    }
}

/// A structure owning moved cells after the translation: members and scene contacts
/// carried along, bounding box recomputed, everything else kept.
/// The gravity contacts with their members among `moving` carried by `offset`.
pub open spec fn shift_contacts(c: Seq<(Cell, Cell)>, moving: Set<Cell>, offset: Cell) -> Seq<(Cell, Cell)> {
    c.map_values(|x: (Cell, Cell)| (shifted(x.0, moving, offset), x.1))
}

fn shifted_contacts(c: &Vec<(Cell, Cell)>, moving: &CellSet, offset: Cell) -> (r: Vec<(Cell, Cell)>)
    requires
        forall|p: Cell| #[trigger] moving@.contains(p) ==> p.add_fits(offset),
    ensures
        r@ == shift_contacts(c@, moving@, offset),
{
    let mut r: Vec<(Cell, Cell)> = Vec::new();
    let mut i: usize = 0;
    while i < c.len()
        invariant
            i <= c@.len(),
            forall|p: Cell| #[trigger] moving@.contains(p) ==> p.add_fits(offset),
            r@ == shift_contacts(c@.take(i as int), moving@, offset),
        decreases c@.len() - i,
    {
        let (m, d) = c[i];
        let m2 = if moving.contains(m) {
            m.add(offset)
        } else {
            m
        };
        r.push((m2, d));
        proof {
            assert(c@.take(i + 1) =~= c@.take(i as int).push(c@[i as int]));
            assert(r@ =~= shift_contacts(c@.take(i + 1), moving@, offset));
        }
        i = i + 1;
    }
    proof {
        assert(c@.take(i as int) =~= c@);
    }
    r
}

pub open spec fn moved_structure(before: Structure, after: Structure, moving: Set<Cell>, offset: Cell) -> bool {
    &&& after.id == before.id
    &&& after.kind == before.kind
    &&& after.activity == before.activity
    &&& after.freedom == before.freedom
    &&& after.deform_groups == before.deform_groups
    &&& after.head_of == before.head_of
    &&& after.positions.wf()
    &&& after.scene_touching.wf()
    &&& after.gravity_support@ == shift_contacts(before.gravity_support@, moving, offset)
    &&& after.positions@ == shift_set(before.positions@, moving, offset)
    &&& after.scene_touching@ == shift_set(before.scene_touching@, moving, offset)
    &&& match after.bounds {
        Some(b) => !after.positions@.is_empty() && is_bounds_of(b, after.positions@),
        None => after.positions@.is_empty(),
    }
}

impl StructureState {
    /// Carries the structures `ids` (those owning moved cells in the snapshot `s0`)
    /// along and indexes their new cells.
    #[verifier::rlimit(50)]
    fn reindex_shifted(
        &mut self,
        ids: &Vec<StructureId>,
        moving: &CellSet,
        offset: Cell,
        Ghost(s0): Ghost<StructureState>,
    )
        requires
            s0.wf(),
            moving.wf(),
            s0.translate_ok(moving@, offset),
            ids@.no_duplicates(),
            ids@.to_set() == ids_of_cells(s0.index(), moving@),
            old(self).structures@ == s0.structures@,
            old(self).next_structure_id == s0.next_structure_id,
            old(self).structure_by_pos.wf(),
            old(self).structure_by_pos@ == without_owners(s0.structure_by_pos@, ids@.to_set()),
        ensures
            final(self).wf(),
            final(self).next_structure_id == s0.next_structure_id,
            final(self).held_blocks@ == old(self).held_blocks@,
            final(self).moving_structures@ == old(self).moving_structures@,
            forall|k: u64| #[trigger] final(self).table().contains_key(k) == s0.table().contains_key(k),
            forall|k: u64| #[trigger] s0.table().contains_key(k) ==> if ids_of_cells(s0.index(), moving@).contains(StructureId(k)) {
                moved_structure(s0.table()[k], final(self).table()[k], moving@, offset)
            } else {
                final(self).table()[k] == s0.table()[k]
            },
    {
        let ghost touched = ids@.to_set();
        let ghost idx2 = self.structure_by_pos@;
        proof {
            s0.lemma_wf_facts();
            assert forall|j: int| 0 <= j < ids@.len() implies s0.table().contains_key(#[trigger] ids@[j].0) by {
                assert(touched.contains(ids@[j]));
                let p = choose|p: Cell| moving@.contains(p) && s0.index().contains_key(p) && s0.index()[p] == ids@[j];
            }
        }
        let mut i: usize = 0;
        while i < ids.len()
            invariant
                i <= ids@.len(),
                s0.wf(),
                moving.wf(),
                s0.translate_ok(moving@, offset),
                ids@.no_duplicates(),
                touched == ids@.to_set(),
                touched == ids_of_cells(s0.index(), moving@),
                idx2 == without_owners(s0.structure_by_pos@, touched),
                forall|j: int| 0 <= j < ids@.len() ==> s0.table().contains_key(#[trigger] ids@[j].0),
                self.next_structure_id == s0.next_structure_id,
                self.held_blocks@ == old(self).held_blocks@,
                self.moving_structures@ == old(self).moving_structures@,
                self.structure_by_pos.wf(),
                forall|k: u64| #[trigger] self.structures@.contains_key(k) == s0.table().contains_key(k),
                forall|k: u64| #[trigger] s0.table().contains_key(k) ==> if ids@.take(i as int).contains(StructureId(k)) {
                    moved_structure(s0.table()[k], self.structures@[k], moving@, offset)
                } else {
                    self.structures@[k] == s0.table()[k]
                },
                forall|p: Cell| #[trigger] self.structure_by_pos@.contains_key(p) <==> (idx2.contains_key(p) || exists|j: int|
                    0 <= j < i && #[trigger] s0.final_cells(ids@[j].0, moving@, offset).contains(p)),
                forall|p: Cell| #[trigger] idx2.contains_key(p) ==> self.structure_by_pos@[p] == idx2[p],
                forall|j: int, p: Cell| 0 <= j < i && #[trigger] s0.final_cells(ids@[j].0, moving@, offset).contains(p)
                    ==> self.structure_by_pos@[p] == ids@[j],
            decreases ids@.len() - i,
        {
            let id = ids[i];
            let ghost k = id.0;
            proof {
                s0.lemma_wf_facts();
                assert(touched.contains(id));
                assert(StructureId(k) == id);
                assert(s0.table().contains_key(k));
                assert(!ids@.take(i as int).contains(id)) by {
                    if ids@.take(i as int).contains(id) {
                        let t = choose|t: int| 0 <= t < i && ids@.take(i as int)[t] == id;
                        assert(ids@[t] == ids@[i as int]);
                    }
                }
                assert(entry_ok(k, s0.table()[k], s0.last_id(), s0.index()));
            }
            let s = self.structures.remove(&id.0).unwrap();
            assert(s == s0.table()[k]);
            let positions = shift_cells(&s.positions, moving, offset);
            let scene_touching = shift_cells(&s.scene_touching, moving, offset);
            let bounds = GridBounds::from_positions(&positions);
            let cells = positions.to_vec();
            proof {
                positions.lemma_elems();
                assert(s0.final_cells(k, moving@, offset) == positions@);
            }
            let ghost before = self.structure_by_pos@;
            let ghost table_now = self.structures@;
            let mut t: usize = 0;
            while t < cells.len()
                invariant
                    t <= cells@.len(),
                    cells@ == positions.elems(),
                    self.structure_by_pos.wf(),
                    self.structure_by_pos@ == before.union_prefer_right(
                        Map::new(|p: Cell| cells@.take(t as int).contains(p), |p: Cell| id),
                    ),
                    self.structures@ == table_now,
                    self.next_structure_id == s0.next_structure_id,
                    self.held_blocks@ == old(self).held_blocks@,
                    self.moving_structures@ == old(self).moving_structures@,
                decreases cells@.len() - t,
            {
                self.structure_by_pos.insert(cells[t], id);
                proof {
                    assert forall|p: Cell| cells@.take(t + 1).contains(p) <==> (cells@.take(t as int).contains(p) || p == cells@[t as int]) by {
                        if cells@.take(t + 1).contains(p) {
                            let u = choose|u: int| 0 <= u < t + 1 && #[trigger] cells@.take(t + 1)[u] == p;
                            if u < t {
                                assert(cells@.take(t as int)[u] == p);
                            }
                        }
                        if cells@.take(t as int).contains(p) {
                            let u = choose|u: int| 0 <= u < t && #[trigger] cells@.take(t as int)[u] == p;
                            assert(cells@.take(t + 1)[u] == p);
                        }
                        if p == cells@[t as int] {
                            assert(cells@.take(t + 1)[t as int] == p);
                        }
                    }
                    assert(self.structure_by_pos@ =~= before.union_prefer_right(
                        Map::new(|p: Cell| cells@.take(t + 1).contains(p), |p: Cell| id),
                    ));
                }
                t = t + 1;
            }
            proof {
                assert(cells@.take(t as int) =~= cells@);
                assert forall|p: Cell| #[trigger] cells@.contains(p) <==> positions@.contains(p) by {}
            }
            let gravity_support = shifted_contacts(&s.gravity_support, moving, offset);
            let moved = Structure {
                id: s.id,
                kind: s.kind,
                positions,
                bounds,
                activity: s.activity,
                freedom: s.freedom,
                deform_groups: s.deform_groups,
                head_of: s.head_of,
                scene_touching,
                gravity_support,
            };
            let ghost prev_table = table_now.insert(k, s0.table()[k]);
            self.structures.insert(id.0, moved);
            proof {
                assert(ids@.take(i + 1) =~= ids@.take(i as int).push(id));
                assert forall|k2: u64| #[trigger] s0.table().contains_key(k2) implies if ids@.take(i + 1).contains(StructureId(k2)) {
                    moved_structure(s0.table()[k2], self.structures@[k2], moving@, offset)
                } else {
                    self.structures@[k2] == s0.table()[k2]
                } by {
                    if k2 != k {
                        assert(StructureId(k2) != id);
                        assert(ids@.take(i + 1).contains(StructureId(k2)) == ids@.take(i as int).contains(StructureId(k2)));
                    } else {
                        assert(ids@.take(i + 1)[i as int] == id);
                    }
                }
                // the new cells of `id` are owned by no untouched structure
                assert forall|p: Cell| #[trigger] idx2.contains_key(p) implies !positions@.contains(p) by {
                    let k1 = idx2[p].0;
                    assert(s0.index().contains_key(p));
                    assert(s0.index()[p] == idx2[p]);
                    assert(!touched.contains(idx2[p]));
                    assert(StructureId(k1) == idx2[p]);
                    assert(s0.table().contains_key(k1));
                    assert(s0.final_cells(k1, moving@, offset) == s0.table()[k1].positions@);
                    assert(s0.final_cells(k1, moving@, offset).contains(p));
                    assert(k1 != k);
                    if positions@.contains(p) {
                        assert(s0.final_cells(k, moving@, offset).contains(p));
                    }
                }
                // nor by a structure moved earlier
                assert forall|j: int, p: Cell| 0 <= j < i && #[trigger] s0.final_cells(ids@[j].0, moving@, offset).contains(p)
                    implies !positions@.contains(p) by {
                    assert(ids@[j] != ids@[i as int]);
                    assert(ids@[j].0 != k);
                    if positions@.contains(p) {
                        assert(s0.final_cells(k, moving@, offset).contains(p));
                    }
                }
                assert forall|p: Cell| #[trigger] self.structure_by_pos@.contains_key(p) <==> (idx2.contains_key(p) || exists|j: int|
                    0 <= j < i + 1 && #[trigger] s0.final_cells(ids@[j].0, moving@, offset).contains(p)) by {
                    if positions@.contains(p) {
                        assert(s0.final_cells(ids@[i as int].0, moving@, offset).contains(p));
                    }
                    if exists|j: int| 0 <= j < i + 1 && #[trigger] s0.final_cells(ids@[j].0, moving@, offset).contains(p) {
                        let j = choose|j: int| 0 <= j < i + 1 && #[trigger] s0.final_cells(ids@[j].0, moving@, offset).contains(p);
                        if j == i {
                            assert(positions@.contains(p));
                        }
                    }
                }
                assert forall|j: int, p: Cell| 0 <= j < i + 1 && #[trigger] s0.final_cells(ids@[j].0, moving@, offset).contains(p)
                    implies self.structure_by_pos@[p] == ids@[j] by {
                    if j == i {
                        assert(positions@.contains(p));
                    }
                }
            }
            i = i + 1;
        }
        proof {
            assert(ids@.take(i as int) =~= ids@);
            s0.lemma_wf_facts();
            assert forall|k: u64| #[trigger] self.structures@.contains_key(k) implies entry_ok(
                k,
                self.structures@[k],
                self.next_structure_id,
                self.structure_by_pos@,
            ) by {
                let s = self.structures@[k];
                let b = s0.table()[k];
                assert(entry_ok(k, b, s0.last_id(), s0.index()));
                assert(b.id == StructureId(k));
                if touched.contains(StructureId(k)) {
                    assert(ids@.contains(StructureId(k)));
                    let j = choose|j: int| 0 <= j < ids@.len() && ids@[j] == StructureId(k);
                    assert forall|p: Cell| #[trigger] s.positions@.contains(p) implies self.structure_by_pos@.contains_key(p)
                        && self.structure_by_pos@[p] == s.id by {
                        assert(s0.final_cells(ids@[j].0, moving@, offset).contains(p));
                    }
                } else {
                    assert forall|p: Cell| #[trigger] s.positions@.contains(p) implies self.structure_by_pos@.contains_key(p)
                        && self.structure_by_pos@[p] == s.id by {
                        assert(b.positions@.contains(p));
                        assert(s0.index().contains_key(p) && s0.index()[p] == b.id);
                        assert(idx2.contains_key(p));
                    }
                }
            }
            assert forall|p: Cell| #[trigger] self.structure_by_pos@.contains_key(p) implies {
                let sid = self.structure_by_pos@[p];
                &&& self.structures@.contains_key(sid.0)
                &&& self.structures@[sid.0].positions@.contains(p)
            } by {
                if idx2.contains_key(p) {
                    let o = idx2[p];
                    assert(s0.index().contains_key(p) && s0.index()[p] == o);
                    assert(!touched.contains(o));
                    assert(StructureId(o.0) == o);
                    assert(s0.table().contains_key(o.0));
                } else {
                    let j = choose|j: int| 0 <= j < ids@.len() && #[trigger] s0.final_cells(ids@[j].0, moving@, offset).contains(p);
                    assert(self.structure_by_pos@[p] == ids@[j]);
                    assert(touched.contains(ids@[j]));
                    assert(StructureId(ids@[j].0) == ids@[j]);
                }
            }
        }
    }
}

/// `after` is `before` with the cells `moving` translated by `offset`: every structure
/// owning one of them moved (see [`moved_structure`]), the others unchanged.
pub open spec fn translated(before: StructureState, after: StructureState, moving: Set<Cell>, offset: Cell) -> bool {
    &&& after.wf()
    &&& after.last_id() == before.last_id()
    &&& after.held() == before.held()
    &&& after.moving() == before.moving()
    &&& forall|k: u64| #[trigger] after.table().contains_key(k) == before.table().contains_key(k)
    &&& forall|k: u64| #[trigger] before.table().contains_key(k) ==> if ids_of_cells(before.index(), moving).contains(StructureId(k)) {
        moved_structure(before.table()[k], after.table()[k], moving, offset)
    } else {
        after.table()[k] == before.table()[k]
    }
}

impl StructureState {
    /// Commits a translation of the cells `positions` by `offset` to the table: every
    /// structure owning one of them has its members and scene contacts carried along
    /// and its bounds recomputed, and the cell index follows; the others are untouched.
    pub fn translate(&mut self, positions: &CellSet, offset: Cell)
        requires
            old(self).wf(),
            positions.wf(),
            old(self).translate_ok(positions@, offset),
        ensures
            translated(*old(self), *final(self), positions@, offset),
    {
        let ids = self.ids_at_cells(positions);
        let ghost s0: StructureState = *self;
        proof {
            self.lemma_wf_facts();
            assert forall|j: int| 0 <= j < ids@.len() implies self.table().contains_key(#[trigger] ids@[j].0) by {
                assert(ids@.to_set().contains(ids@[j]));
                let p = choose|p: Cell| positions@.contains(p) && self.index().contains_key(p) && self.index()[p] == ids@[j];
            }
        }
        self.unindex(&ids);
        self.reindex_shifted(&ids, positions, offset, Ghost(s0));
    }
}

impl StructureState {
    /// The cells of `old_positions` belong to one structure at most, that structure has no
    /// member outside them, and `new_positions` takes no cell of another structure.
    pub open spec fn replace_ok(&self, old_positions: Set<Cell>, new_positions: Set<Cell>) -> bool {
        &&& forall|p: Cell, q: Cell|
            #![trigger old_positions.contains(p), old_positions.contains(q)]
            old_positions.contains(p) && old_positions.contains(q) && self.index().contains_key(p)
                && self.index().contains_key(q) ==> self.index()[p] == self.index()[q]
        &&& forall|p: Cell, c: Cell|
            #![trigger old_positions.contains(p), old_positions.contains(c)]
            old_positions.contains(p) && self.index().contains_key(p) && self.table().contains_key(
                self.index()[p].0,
            ) && self.table()[self.index()[p].0].positions@.contains(c) ==> old_positions.contains(c)
        &&& forall|c: Cell| #[trigger]
            new_positions.contains(c) && self.index().contains_key(c) ==> old_positions.contains(c)
    }

    /// Gives the structure owning the cells `old_positions` the members `new_positions`
    /// (bounds recomputed, cell index updated); nothing changes when none of the cells
    /// is owned.
    #[verifier::rlimit(30)]
    pub fn replace_structure_positions(&mut self, old_positions: &CellSet, new_positions: CellSet)
        requires
            old(self).wf(),
            old_positions.wf(),
            new_positions.wf(),
            old(self).replace_ok(old_positions@, new_positions@),
        ensures
            final(self).wf(),
            final(self).last_id() == old(self).last_id(),
            final(self).held() == old(self).held(),
            final(self).moving() == old(self).moving(),
            (forall|p: Cell| old_positions@.contains(p) ==> !old(self).index().contains_key(p)) ==> final(self).table()
                == old(self).table() && final(self).index() == old(self).index(),
            forall|p: Cell| #[trigger] old_positions@.contains(p) && old(self).index().contains_key(p) ==> {
                let k = old(self).index()[p].0;
                let before = old(self).table()[k];
                let after = final(self).table()[k];
                &&& final(self).table().dom() == old(self).table().dom()
                &&& forall|k2: u64| k2 != k && #[trigger] old(self).table().contains_key(k2) ==> final(self).table()[k2]
                    == old(self).table()[k2]
                &&& after.positions@ == new_positions@
                &&& after.id == before.id
                &&& after.kind == before.kind
                &&& after.activity == before.activity
                &&& after.freedom == before.freedom
                &&& after.deform_groups == before.deform_groups
                &&& after.head_of == before.head_of
                &&& after.scene_touching == before.scene_touching
                &&& after.gravity_support@.len() == 0
            },
    {
        proof {
            self.lemma_wf_facts();
            old_positions.lemma_elems();
        }
        let cells = old_positions.to_vec();
        let mut found: Option<StructureId> = None;
        let mut i: usize = 0;
        while i < cells.len()
            invariant
                i <= cells@.len(),
                cells@ == old_positions.elems(),
                old_positions@ == cells@.to_set(),
                self.wf(),
                found matches Some(id) ==> exists|p: Cell| old_positions@.contains(p) && self.index().contains_key(p) && self.index()[p] == id,
                found is None ==> forall|j: int| 0 <= j < i ==> !self.index().contains_key(#[trigger] cells@[j]),
            decreases cells@.len() - i,
        {
            if found.is_none() {
                match self.id_at(cells[i]) {
                    Some(id) => {
                        assert(cells@.contains(cells@[i as int]));
                        assert(old_positions@.contains(cells@[i as int]));
                        found = Some(id);
                    },
                    None => {},
                }
            }
            i = i + 1;
        }
        let id = match found {
            Some(id) => id,
            None => {
                proof {
                    assert forall|p: Cell| old_positions@.contains(p) implies !self.index().contains_key(p) by {
                        assert(cells@.contains(p));
                        let j = choose|j: int| 0 <= j < cells@.len() && cells@[j] == p;
                    }
                }
                return;
            },
        };
        let ghost k = id.0;
        let ghost s0: StructureState = *self;
        proof {
            let p0 = choose|p: Cell| old_positions@.contains(p) && self.index().contains_key(p) && self.index()[p] == id;
            assert(self.table().contains_key(k));
            assert forall|p: Cell| #[trigger] old_positions@.contains(p) && self.index().contains_key(p) implies self.index()[p] == id by {
                assert(old_positions@.contains(p0));
            }
        }
        let mut single: Vec<StructureId> = Vec::new();
        single.push(id);
        proof {
            assert(single@ =~= seq![id]);
            assert(single@.to_set() =~= set![id]) by {
                assert(single@.to_set().contains(single@[0]));
            }
        }
        self.unindex(&single);
        let mut s = self.structures.remove(&id.0).unwrap();
        assert(s == s0.table()[k]);
        let bounds = GridBounds::from_positions(&new_positions);
        let new_cells = new_positions.to_vec();
        proof {
            new_positions.lemma_elems();
        }
        let ghost before = self.structure_by_pos@;
        let ghost table_now = self.structures@;
        let mut t: usize = 0;
        while t < new_cells.len()
            invariant
                t <= new_cells@.len(),
                new_cells@ == new_positions.elems(),
                self.structure_by_pos.wf(),
                self.structure_by_pos@ == before.union_prefer_right(
                    Map::new(|p: Cell| new_cells@.take(t as int).contains(p), |p: Cell| id),
                ),
                self.structures@ == table_now,
                self.next_structure_id == s0.next_structure_id,
                self.held_blocks@ == s0.held_blocks@,
                self.moving_structures@ == s0.moving_structures@,
            decreases new_cells@.len() - t,
        {
            self.structure_by_pos.insert(new_cells[t], id);
            proof {
                assert forall|p: Cell| new_cells@.take(t + 1).contains(p) <==> (new_cells@.take(t as int).contains(p) || p == new_cells@[t as int]) by {
                    if new_cells@.take(t + 1).contains(p) {
                        let u = choose|u: int| 0 <= u < t + 1 && #[trigger] new_cells@.take(t + 1)[u] == p;
                        if u < t {
                            assert(new_cells@.take(t as int)[u] == p);
                        }
                    }
                    if new_cells@.take(t as int).contains(p) {
                        let u = choose|u: int| 0 <= u < t && #[trigger] new_cells@.take(t as int)[u] == p;
                        assert(new_cells@.take(t + 1)[u] == p);
                    }
                    if p == new_cells@[t as int] {
                        assert(new_cells@.take(t + 1)[t as int] == p);
                    }
                }
                assert(self.structure_by_pos@ =~= before.union_prefer_right(
                    Map::new(|p: Cell| new_cells@.take(t + 1).contains(p), |p: Cell| id),
                ));
            }
            t = t + 1;
        }
        proof {
            assert(new_cells@.take(t as int) =~= new_cells@);
            assert forall|p: Cell| #[trigger] new_cells@.contains(p) <==> new_positions@.contains(p) by {}
        }
        s.bounds = bounds;
        s.positions = new_positions;
        s.gravity_support = Vec::new();
        self.structures.insert(id.0, s);
        proof {
            let idx0 = s0.index();
            assert forall|k2: u64| #[trigger] self.structures@.contains_key(k2) implies entry_ok(
                k2,
                self.structures@[k2],
                self.next_structure_id,
                self.structure_by_pos@,
            ) by {
                let b = s0.table()[k2];
                assert(entry_ok(k2, b, s0.last_id(), idx0));
                if k2 != k {
                    assert forall|p: Cell| #[trigger] b.positions@.contains(p) implies self.structure_by_pos@.contains_key(p)
                        && self.structure_by_pos@[p] == b.id by {
                        assert(idx0.contains_key(p) && idx0[p] == b.id);
                        assert(b.id.0 == k2);
                        assert(!set![id].contains(idx0[p]));
                        if new_positions@.contains(p) {
                            assert(old_positions@.contains(p));
                        }
                    }
                }
            }
            assert forall|p: Cell| #[trigger] self.structure_by_pos@.contains_key(p) implies {
                let sid = self.structure_by_pos@[p];
                &&& self.structures@.contains_key(sid.0)
                &&& self.structures@[sid.0].positions@.contains(p)
            } by {
                if !new_positions@.contains(p) {
                    assert(before.contains_key(p));
                    assert(idx0.contains_key(p) && idx0[p] != id);
                    assert(idx0[p].0 != k);
                }
            }
            assert forall|p: Cell| #[trigger] old_positions@.contains(p) && s0.index().contains_key(p) implies s0.index()[p].0 == k by {}
        }
    }
}

/// Height at which gravity orders a structure: the lowest level of its bounding box,
/// that is the lowest member's height (zero for a structure with no member).
pub open spec fn gravity_key(s: Structure) -> int {
    match s.bounds {
        Some(b) => b.min.y as int,
        None => 0,
    }
}

/// In a well-formed table the gravity key of a structure with members is the height
/// of its lowest member.
pub proof fn lemma_gravity_key_is_lowest(st: &StructureState, k: u64)
    requires
        st.wf(),
        st.table().contains_key(k),
        !st.table()[k].positions@.is_empty(),
    ensures
        forall|p: Cell| #[trigger] st.table()[k].positions@.contains(p) ==> gravity_key(st.table()[k]) <= p.y,
        exists|p: Cell| #[trigger] st.table()[k].positions@.contains(p) && p.y == gravity_key(st.table()[k]),
{
    st.lemma_wf_facts();
    assert(entry_ok(k, st.table()[k], st.last_id(), st.index()));
}

/// Keys in nondecreasing order.
pub open spec fn keys_sorted(k: Seq<i32>) -> bool {
    forall|a: int, b: int| 0 <= a < b < k.len() ==> k[a] <= k[b]
}

proof fn lemma_sorted_insert(k: Seq<i32>, j: int, x: i32)
    requires
        keys_sorted(k),
        0 <= j <= k.len(),
        forall|a: int| 0 <= a < j ==> k[a] <= x,
        forall|a: int| j <= a < k.len() ==> x < k[a],
    ensures
        keys_sorted(k.insert(j, x)),
{
    k.insert_ensures(j, x);
    let n = k.insert(j, x);
    assert forall|a: int, b: int| 0 <= a < b < n.len() implies n[a] <= n[b] by {
        if a < j {
            if b < j {
            } else if b == j {
            } else {
                assert(n[b] == k[b - 1]);
            }
        } else if a == j {
            assert(n[b] == k[b - 1]);
        } else {
            assert(n[a] == k[a - 1]);
            assert(n[b] == k[b - 1]);
        }
    }
}

impl StructureState {
    /// The active structures, lowest first (ties in no particular order).
    pub fn gravity_structure_ids(&self) -> (r: Vec<StructureId>)
        requires
            self.wf(),
        ensures
            r@.no_duplicates(),
            forall|id: StructureId| #[trigger] r@.contains(id) <==> (self.table().contains_key(id.0)
                && self.table()[id.0].activity == FactoryActivity::Active),
            forall|a: int, b: int| 0 <= a < b < r@.len() ==> gravity_key(self.table()[r@[a].0]) <= gravity_key(
                self.table()[r@[b].0],
            ),
    {
        let raw = keys_of(&self.structures);
        let mut out: Vec<StructureId> = Vec::new();
        let mut keys: Vec<i32> = Vec::new();
        let mut i: usize = 0;
        while i < raw.len()
            invariant
                i <= raw@.len(),
                raw@.to_set() == self.table().dom(),
                raw@.no_duplicates(),
                keys@.len() == out@.len(),
                forall|a: int| 0 <= a < out@.len() ==> self.table().contains_key(#[trigger] out@[a].0),
                forall|a: int| 0 <= a < out@.len() ==> keys@[a] == gravity_key(self.table()[#[trigger] out@[a].0]),
                keys_sorted(keys@),
                out@.no_duplicates(),
                forall|id: StructureId| #[trigger] out@.contains(id) <==> (raw@.take(i as int).contains(id.0)
                    && self.table().contains_key(id.0) && self.table()[id.0].activity == FactoryActivity::Active),
            decreases raw@.len() - i,
        {
            let k = raw[i];
            proof {
                assert(raw@.to_set().contains(k));
                assert(raw@.take(i + 1) =~= raw@.take(i as int).push(k));
                assert(!raw@.take(i as int).contains(k)) by {
                    if raw@.take(i as int).contains(k) {
                        let t = choose|t: int| 0 <= t < i && raw@.take(i as int)[t] == k;
                        assert(raw@[t] == raw@[i as int]);
                    }
                }
            }
            let s = self.structures.get(&k).unwrap();
            if s.activity == FactoryActivity::Active {
                let key: i32 = match s.bounds {
                    Some(b) => b.min.y,
                    None => 0,
                };
                let mut j: usize = out.len();
                while j > 0 && keys[j - 1] > key
                    invariant
                        j <= keys@.len(),
                        forall|a: int| j <= a < keys@.len() ==> key < keys@[a],
                    decreases j,
                {
                    j = j - 1;
                }
                let id = StructureId(k);
                let ghost old_out = out@;
                let ghost old_keys = keys@;
                proof {
                    assert forall|a: int| 0 <= a < j implies old_keys[a] <= key by {
                        assert(old_keys[a] <= old_keys[j - 1]);
                    }
                    lemma_sorted_insert(old_keys, j as int, key);
                    old_out.insert_ensures(j as int, id);
                    old_keys.insert_ensures(j as int, key);
                    assert(!old_out.contains(id));
                }
                out.insert(j, id);
                keys.insert(j, key);
                proof {
                    assert forall|a: int| 0 <= a < out@.len() implies self.table().contains_key(#[trigger] out@[a].0)
                        && keys@[a] == gravity_key(self.table()[out@[a].0]) by {
                        if a > j {
                            assert(out@[a] == old_out[a - 1]);
                            assert(keys@[a] == old_keys[a - 1]);
                        }
                    }
                    assert(out@.no_duplicates()) by {
                        assert forall|a: int, b: int| 0 <= a < out@.len() && 0 <= b < out@.len() && a != b implies out@[a] != out@[b] by {
                            let oa = if a < j { a } else { a - 1 };
                            let ob = if b < j { b } else { b - 1 };
                            if a == j {
                                assert(old_out.contains(old_out[ob]));
                            } else if b == j {
                                assert(old_out.contains(old_out[oa]));
                            } else {
                                assert(out@[a] == old_out[oa]);
                                assert(out@[b] == old_out[ob]);
                            }
                        }
                    }
                    assert forall|x: StructureId| #[trigger] out@.contains(x) <==> (old_out.contains(x) || x == id) by {
                        if out@.contains(x) {
                            let a = choose|a: int| 0 <= a < out@.len() && out@[a] == x;
                            if a < j {
                                assert(old_out[a] == x);
                            } else if a > j {
                                assert(old_out[a - 1] == x);
                            }
                        }
                        if old_out.contains(x) {
                            let a = choose|a: int| 0 <= a < old_out.len() && old_out[a] == x;
                            if a < j {
                                assert(out@[a] == x);
                            } else {
                                assert(out@[a + 1] == x);
                            }
                        }
                        if x == id {
                            assert(out@[j as int] == x);
                        }
                    }
                }
            }
            proof {
                assert forall|x: StructureId| #[trigger] out@.contains(x) <==> (raw@.take(i + 1).contains(x.0)
                    && self.table().contains_key(x.0) && self.table()[x.0].activity == FactoryActivity::Active) by {
                    assert(raw@.take(i + 1).contains(x.0) <==> (raw@.take(i as int).contains(x.0) || x.0 == k)) by {
                        if raw@.take(i + 1).contains(x.0) {
                            let t = choose|t: int| 0 <= t < i + 1 && #[trigger] raw@.take(i + 1)[t] == x.0;
                            if t < i {
                                assert(raw@.take(i as int)[t] == x.0);
                            }
                        }
                        if raw@.take(i as int).contains(x.0) {
                            let t = choose|t: int| 0 <= t < i && #[trigger] raw@.take(i as int)[t] == x.0;
                            assert(raw@.take(i + 1)[t] == x.0);
                        }
                        if x.0 == k {
                            assert(raw@.take(i + 1)[i as int] == x.0);
                        }
                    }
                    if x.0 == k {
                        assert(x == StructureId(k));
                    }
                }
            }
            i = i + 1;
        }
        proof {
            assert(raw@.take(i as int) =~= raw@);
            assert forall|a: int, b: int| 0 <= a < b < out@.len() implies gravity_key(self.table()[out@[a].0]) <= gravity_key(
                self.table()[out@[b].0],
            ) by {
                assert(keys@[a] <= keys@[b]);
            }
            assert forall|id: StructureId| #[trigger] out@.contains(id) <==> (self.table().contains_key(id.0)
                && self.table()[id.0].activity == FactoryActivity::Active) by {
                if self.table().contains_key(id.0) {
                    assert(raw@.to_set().contains(id.0));
                }
            }
        }
        out
    }
}

fn contains_id(v: &Vec<StructureId>, x: StructureId) -> (r: bool)
    ensures
        r == v@.contains(x),
{
    let mut i: usize = 0;
    while i < v.len()
        invariant
            i <= v@.len(),
            forall|j: int| 0 <= j < i ==> v@[j] != x,
        decreases v@.len() - i,
    {
        if v[i] == x {
            return true;
        }
        i = i + 1;
    }
    false
}

/// A cell moved by `offset` and back is where it started.
proof fn lemma_plus_back(p: Cell, offset: Cell)
    requires
        p.add_fits(offset),
        offset.neg_fits(),
    ensures
        p.plus(offset).plus(offset.negated()) == p,
{
}

/// Moving the cells `moving` by `offset` and then their images back leaves a set as it
/// was, provided no cell of it that stays is where a moved cell lands.
pub proof fn lemma_shift_back(s: Set<Cell>, moving: Set<Cell>, offset: Cell)
    requires
        forall|p: Cell| #[trigger] moving.contains(p) ==> p.add_fits(offset),
        offset.neg_fits(),
        forall|x: Cell, p: Cell| #![trigger s.contains(x), moving.contains(p)]
            s.contains(x) && !moving.contains(x) && moving.contains(p) ==> x != p.plus(offset),
    ensures
        shift_set(shift_set(s, moving, offset), shift_set(moving, moving, offset), offset.negated()) == s,
{
    let moved = shift_set(moving, moving, offset);
    let once = shift_set(s, moving, offset);
    let twice = shift_set(once, moved, offset.negated());
    assert forall|x: Cell| s.contains(x) implies twice.contains(x) by {
        let y = shifted(x, moving, offset);
        assert(once.contains(y));
        if moving.contains(x) {
            assert(moved.contains(x.plus(offset)));
            lemma_plus_back(x, offset);
            assert(shifted(y, moved, offset.negated()) == x);
        } else {
            if moved.contains(x) {
                let p = choose|p: Cell| moving.contains(p) && shifted(p, moving, offset) == x;
                assert(x == p.plus(offset));
            }
            assert(shifted(y, moved, offset.negated()) == x);
        }
    }
    assert forall|z: Cell| twice.contains(z) implies s.contains(z) by {
        let y = choose|y: Cell| once.contains(y) && shifted(y, moved, offset.negated()) == z;
        let x = choose|x: Cell| s.contains(x) && shifted(x, moving, offset) == y;
        if moving.contains(x) {
            assert(moved.contains(x.plus(offset)));
            lemma_plus_back(x, offset);
        } else {
            if moved.contains(x) {
                let p = choose|p: Cell| moving.contains(p) && shifted(p, moving, offset) == x;
                assert(x == p.plus(offset));
            }
        }
    }
    assert(twice =~= s);
}

/// A cell set has one bounding box at most.
pub proof fn lemma_bounds_unique(b1: GridBounds, b2: GridBounds, s: Set<Cell>)
    requires
        is_bounds_of(b1, s),
        is_bounds_of(b2, s),
    ensures
        b1 == b2,
{
    let p1 = choose|p: Cell| s.contains(p) && p.x == b2.min.x;
    let p2 = choose|p: Cell| s.contains(p) && p.x == b1.min.x;
    let p3 = choose|p: Cell| s.contains(p) && p.y == b2.min.y;
    let p4 = choose|p: Cell| s.contains(p) && p.y == b1.min.y;
    let p5 = choose|p: Cell| s.contains(p) && p.z == b2.min.z;
    let p6 = choose|p: Cell| s.contains(p) && p.z == b1.min.z;
    let q1 = choose|p: Cell| s.contains(p) && p.x == b2.max.x;
    let q2 = choose|p: Cell| s.contains(p) && p.x == b1.max.x;
    let q3 = choose|p: Cell| s.contains(p) && p.y == b2.max.y;
    let q4 = choose|p: Cell| s.contains(p) && p.y == b1.max.y;
    let q5 = choose|p: Cell| s.contains(p) && p.z == b2.max.z;
    let q6 = choose|p: Cell| s.contains(p) && p.z == b1.max.z;
    assert(b1.min == b2.min);
    assert(b1.max == b2.max);
}

/// After a translation, the structure owning a moved cell owns its image.
proof fn lemma_owner_follows(s0: StructureState, s1: StructureState, moving: Set<Cell>, offset: Cell, p: Cell)
    requires
        s0.wf(),
        s0.translate_ok(moving, offset),
        translated(s0, s1, moving, offset),
        moving.contains(p),
        s0.index().contains_key(p),
    ensures
        ids_of_cells(s0.index(), moving).contains(s0.index()[p]),
        s1.index().contains_key(p.plus(offset)),
        s1.index()[p.plus(offset)] == s0.index()[p],
{
    s0.lemma_wf_facts();
    s1.lemma_wf_facts();
    let id = s0.index()[p];
    let k = id.0;
    assert(ids_of_cells(s0.index(), moving).contains(id));
    assert(StructureId(k) == id);
    assert(s0.table().contains_key(k));
    assert(moved_structure(s0.table()[k], s1.table()[k], moving, offset));
    assert(s0.table()[k].positions@.contains(p));
    assert(shifted(p, moving, offset) == p.plus(offset));
    assert(s1.table()[k].positions@.contains(p.plus(offset)));
    assert(s1.table().contains_key(k));
    assert(entry_ok(k, s1.table()[k], s1.last_id(), s1.index()));
}

/// The structures owning the images of the moved cells are those that owned the
/// moved cells, when every moved cell was owned.
proof fn lemma_same_owners(s0: StructureState, s1: StructureState, moving: Set<Cell>, offset: Cell)
    requires
        s0.wf(),
        s0.translate_ok(moving, offset),
        translated(s0, s1, moving, offset),
        forall|p: Cell| #[trigger] moving.contains(p) ==> s0.index().contains_key(p),
    ensures
        ids_of_cells(s0.index(), moving) == ids_of_cells(s1.index(), shift_set(moving, moving, offset)),
{
    let moved = shift_set(moving, moving, offset);
    let t0 = ids_of_cells(s0.index(), moving);
    let t1 = ids_of_cells(s1.index(), moved);
    assert forall|id: StructureId| t0.contains(id) <==> t1.contains(id) by {
        if t0.contains(id) {
            let p = choose|p: Cell| moving.contains(p) && s0.index().contains_key(p) && s0.index()[p] == id;
            assert(shifted(p, moving, offset) == p.plus(offset));
            assert(moved.contains(p.plus(offset)));
            lemma_owner_follows(s0, s1, moving, offset, p);
        }
        if t1.contains(id) {
            let q = choose|q: Cell| moved.contains(q) && s1.index().contains_key(q) && s1.index()[q] == id;
            let p = choose|p: Cell| moving.contains(p) && shifted(p, moving, offset) == q;
            assert(q == p.plus(offset));
            lemma_owner_follows(s0, s1, moving, offset, p);
        }
    }
    assert(t0 =~= t1);
}

/// Undoing a translation: when every moved cell was owned by a structure and no member
/// or scene contact that stays is where a moved cell lands, translating the moved
/// cells back by the opposite offset gives every structure back its members, scene
/// contacts and bounds, with its other data untouched.
#[verifier::spinoff_prover]
#[verifier::rlimit(60)]
pub proof fn lemma_translate_round_trip(
    s0: StructureState,
    s1: StructureState,
    s2: StructureState,
    moving: Set<Cell>,
    offset: Cell,
)
    requires
        s0.wf(),
        s0.translate_ok(moving, offset),
        offset.neg_fits(),
        translated(s0, s1, moving, offset),
        translated(s1, s2, shift_set(moving, moving, offset), offset.negated()),
        forall|p: Cell| #[trigger] moving.contains(p) ==> s0.index().contains_key(p),
        forall|k: u64, x: Cell, p: Cell|
            #![trigger s0.table()[k].positions@.contains(x), moving.contains(p)]
            #![trigger s0.table()[k].scene_touching@.contains(x), moving.contains(p)]
            s0.table().contains_key(k) && (s0.table()[k].positions@.contains(x)
                || s0.table()[k].scene_touching@.contains(x)) && !moving.contains(x) && moving.contains(p) ==> x
                != p.plus(offset),
    ensures
        forall|k: u64| #[trigger] s2.table().contains_key(k) == s0.table().contains_key(k),
        forall|k: u64| #[trigger] s0.table().contains_key(k) ==> {
            let a = s0.table()[k];
            let b = s2.table()[k];
            &&& b.id == a.id
            &&& b.kind == a.kind
            &&& b.activity == a.activity
            &&& b.freedom == a.freedom
            &&& b.deform_groups == a.deform_groups
            &&& b.head_of == a.head_of
            &&& b.positions@ == a.positions@
            &&& b.scene_touching@ == a.scene_touching@
            &&& b.bounds == a.bounds
        },
{
    lemma_same_owners(s0, s1, moving, offset);
    assert forall|k: u64| #[trigger] s0.table().contains_key(k) implies {
        let a = s0.table()[k];
        let b = s2.table()[k];
        &&& b.id == a.id
        &&& b.kind == a.kind
        &&& b.activity == a.activity
        &&& b.freedom == a.freedom
        &&& b.deform_groups == a.deform_groups
        &&& b.head_of == a.head_of
        &&& b.positions@ == a.positions@
        &&& b.scene_touching@ == a.scene_touching@
        &&& b.bounds == a.bounds
    } by {
        let moved = shift_set(moving, moving, offset);
        assert(s1.table().contains_key(k));
        if ids_of_cells(s0.index(), moving).contains(StructureId(k)) {
            assert(ids_of_cells(s1.index(), moved).contains(StructureId(k)));
            s0.lemma_entry(k);
            lemma_round_trip_one(s0.table()[k], s1.table()[k], s2.table()[k], moving, offset);
        } else {
            assert(!ids_of_cells(s1.index(), moved).contains(StructureId(k)));
        }
    }
}

proof fn lemma_round_trip_one(a: Structure, m: Structure, b: Structure, moving: Set<Cell>, offset: Cell)
    requires
        forall|p: Cell| #[trigger] moving.contains(p) ==> p.add_fits(offset),
        offset.neg_fits(),
        moved_structure(a, m, moving, offset),
        moved_structure(m, b, shift_set(moving, moving, offset), offset.negated()),
        match a.bounds {
            Some(bb) => !a.positions@.is_empty() && is_bounds_of(bb, a.positions@),
            None => a.positions@.is_empty(),
        },
        forall|x: Cell, p: Cell|
            #![trigger a.positions@.contains(x), moving.contains(p)]
            #![trigger a.scene_touching@.contains(x), moving.contains(p)]
            (a.positions@.contains(x) || a.scene_touching@.contains(x)) && !moving.contains(x) && moving.contains(p)
                ==> x != p.plus(offset),
    ensures
        b.id == a.id,
        b.kind == a.kind,
        b.activity == a.activity,
        b.freedom == a.freedom,
        b.deform_groups == a.deform_groups,
        b.head_of == a.head_of,
        b.positions@ == a.positions@,
        b.scene_touching@ == a.scene_touching@,
        b.bounds == a.bounds,
{
    lemma_shift_back(a.positions@, moving, offset);
    lemma_shift_back(a.scene_touching@, moving, offset);
    match (a.bounds, b.bounds) {
        (Some(x), Some(y)) => {
            lemma_bounds_unique(x, y, a.positions@);
        },
        _ => {},
    }
}

impl StructureState {
    /// The table entry of a structure of a well-formed table is consistent.
    pub proof fn lemma_entry(&self, k: u64)
        requires
            self.wf(),
            self.table().contains_key(k),
        ensures
            entry_ok(k, self.table()[k], self.last_id(), self.index()),
    {
    }

    /// A well-formed table indexes finitely many cells.
    pub proof fn lemma_index_finite(&self)
        requires
            self.wf(),
        ensures
            self.index().dom().finite(),
    {
        self.structure_by_pos.lemma_view_finite();
    }
}

/// `after` is `before` with only its factory structures, and their cells, kept.
pub open spec fn factory_retained(before: StructureState, after: StructureState) -> bool {
    &&& after.wf()
    &&& after.last_id() == before.last_id()
    &&& after.held() == before.held()
    &&& after.moving() == before.moving()
    &&& after.head_counter() == before.head_counter()
    &&& after.acceptors() == before.acceptors()
    &&& forall|k: u64| #[trigger] after.table().contains_key(k) == (before.table().contains_key(k)
        && before.table()[k].kind == StructureKind::Factory)
    &&& forall|k: u64| #[trigger] after.table().contains_key(k) ==> after.table()[k] == before.table()[k]
    &&& forall|p: Cell| #[trigger] after.index().contains_key(p) == (before.index().contains_key(p)
        && before.table()[before.index()[p].0].kind == StructureKind::Factory)
    &&& forall|p: Cell| #[trigger] after.index().contains_key(p) ==> after.index()[p] == before.index()[p]
}

/// The cells owned by factory structures.
pub open spec fn factory_cells(st: StructureState) -> Set<Cell> {
    Set::new(|p: Cell| st.index().contains_key(p) && st.table()[st.index()[p].0].kind == StructureKind::Factory)
}

impl StructureState {
    /// Drops every structure that is not a factory structure, with its cells.
    pub fn retain_factory_only(&mut self)
        requires
            old(self).wf(),
        ensures
            final(self).wf(),
            final(self).last_id() == old(self).last_id(),
            final(self).held() == old(self).held(),
            final(self).moving() == old(self).moving(),
            final(self).head_counter() == old(self).head_counter(),
            final(self).acceptors() == old(self).acceptors(),
            forall|k: u64| #[trigger] final(self).table().contains_key(k) == (old(self).table().contains_key(k)
                && old(self).table()[k].kind == StructureKind::Factory),
            forall|k: u64| #[trigger] final(self).table().contains_key(k) ==> final(self).table()[k] == old(self).table()[k],
            forall|p: Cell| #[trigger] final(self).index().contains_key(p) == (old(self).index().contains_key(p)
                && old(self).table()[old(self).index()[p].0].kind == StructureKind::Factory),
            forall|p: Cell| #[trigger] final(self).index().contains_key(p) ==> final(self).index()[p] == old(self).index()[p],
    {
        proof {
            self.lemma_wf_facts();
        }
        let all = self.structure_ids();
        let mut drop: Vec<StructureId> = Vec::new();
        let mut i: usize = 0;
        while i < all.len()
            invariant
                i <= all@.len(),
                forall|id: StructureId| all@.contains(id) <==> self.table().contains_key(id.0),
                forall|id: StructureId| #[trigger] drop@.contains(id) <==> (all@.take(i as int).contains(id)
                    && self.table()[id.0].kind != StructureKind::Factory),
                forall|j: int| 0 <= j < drop@.len() ==> self.table().contains_key(#[trigger] drop@[j].0),
            decreases all@.len() - i,
        {
            let id = all[i];
            proof {
                assert(all@.contains(all@[i as int]));
            }
            let keep = match self.get(id) {
                Some(s) => s.kind == StructureKind::Factory,
                None => true,
            };
            let ghost d_before = drop@;
            assert(keep == (self.table()[id.0].kind == StructureKind::Factory));
            if !keep {
                let ghost d0 = drop@;
                drop.push(id);
                proof {
                    assert forall|x: StructureId| #[trigger] drop@.contains(x) <==> (d0.contains(x) || x == id) by {
                        if drop@.contains(x) {
                            let t = choose|t: int| 0 <= t < drop@.len() && drop@[t] == x;
                            if t < d0.len() {
                                assert(d0[t] == x);
                            }
                        }
                        if d0.contains(x) {
                            let t = choose|t: int| 0 <= t < d0.len() && d0[t] == x;
                            assert(drop@[t] == x);
                        }
                        if x == id {
                            assert(drop@[d0.len() as int] == x);
                        }
                    }
                }
            }
            proof {
                assert forall|x: StructureId| #[trigger] drop@.contains(x) <==> (all@.take(i + 1).contains(x)
                    && self.table()[x.0].kind != StructureKind::Factory) by {
                    if keep {
                        assert(drop@ == d_before);
                        if x == id {
                            assert(!d_before.contains(x));
                        }
                    } else {
                        assert(drop@.contains(x) <==> (d_before.contains(x) || x == id));
                    }
                    assert(all@.take(i + 1).contains(x) <==> (all@.take(i as int).contains(x) || x == id)) by {
                        if all@.take(i + 1).contains(x) {
                            let t = choose|t: int| 0 <= t < i + 1 && #[trigger] all@.take(i + 1)[t] == x;
                            if t < i {
                                assert(all@.take(i as int)[t] == x);
                            }
                        }
                        if all@.take(i as int).contains(x) {
                            let t = choose|t: int| 0 <= t < i && #[trigger] all@.take(i as int)[t] == x;
                            assert(all@.take(i + 1)[t] == x);
                        }
                        if x == id {
                            assert(all@.take(i + 1)[i as int] == x);
                        }
                    }
                }
            }
            i = i + 1;
        }
        proof {
            assert(all@.take(i as int) =~= all@);
        }
        let ghost idx0 = self.structure_by_pos@;
        let ghost tab0 = self.structures@;
        self.unindex(&drop);
        let mut j: usize = 0;
        while j < drop.len()
            invariant
                j <= drop@.len(),
                self.structure_by_pos.wf(),
                self.structure_by_pos@ == without_owners(idx0, drop@.to_set()),
                self.next_structure_id == old(self).next_structure_id,
                self.held_blocks@ == old(self).held_blocks@,
                self.next_head_id == old(self).next_head_id,
                self.acceptor_structures@ == old(self).acceptor_structures@,
                self.moving_structures@ == old(self).moving_structures@,
                forall|k: u64| #[trigger] self.structures@.contains_key(k) == (tab0.contains_key(k)
                    && !drop@.take(j as int).contains(StructureId(k))),
                forall|k: u64| #[trigger] self.structures@.contains_key(k) ==> self.structures@[k] == tab0[k],
            decreases drop@.len() - j,
        {
            let id = drop[j];
            self.structures.remove(&id.0);
            proof {
                assert forall|k: u64| #[trigger] self.structures@.contains_key(k) == (tab0.contains_key(k)
                    && !drop@.take(j + 1).contains(StructureId(k))) by {
                    assert(drop@.take(j + 1) =~= drop@.take(j as int).push(id));
                    if drop@.take(j + 1).contains(StructureId(k)) && !drop@.take(j as int).contains(StructureId(k)) {
                        let t = choose|t: int| 0 <= t < j + 1 && #[trigger] drop@.take(j + 1)[t] == StructureId(k);
                        if t < j {
                            assert(drop@.take(j as int)[t] == StructureId(k));
                        }
                    }
                    if drop@.take(j as int).contains(StructureId(k)) {
                        let t = choose|t: int| 0 <= t < j && #[trigger] drop@.take(j as int)[t] == StructureId(k);
                        assert(drop@.take(j + 1)[t] == StructureId(k));
                    }
                    if k == id.0 {
                        assert(StructureId(k) == id);
                        assert(drop@.take(j + 1)[j as int] == id);
                    }
                }
            }
            j = j + 1;
        }
        proof {
            assert(drop@.take(j as int) =~= drop@);
            assert forall|k: u64| #[trigger] self.structures@.contains_key(k) == (tab0.contains_key(k)
                && tab0[k].kind == StructureKind::Factory) by {
                if tab0.contains_key(k) {
                    assert(drop@.contains(StructureId(k)) <==> tab0[k].kind != StructureKind::Factory);
                }
            }
            assert forall|k: u64| #[trigger] self.structures@.contains_key(k) implies entry_ok(
                k,
                self.structures@[k],
                self.next_structure_id,
                self.structure_by_pos@,
            ) by {
                let st = tab0[k];
                assert(entry_ok(k, st, old(self).next_structure_id, idx0));
                assert forall|p: Cell| #[trigger] st.positions@.contains(p) implies self.structure_by_pos@.contains_key(p)
                    && self.structure_by_pos@[p] == st.id by {
                    assert(idx0[p] == st.id);
                    assert(st.id == StructureId(k));
                    assert(!drop@.to_set().contains(st.id));
                }
            }
            assert forall|p: Cell| #[trigger] self.structure_by_pos@.contains_key(p) implies {
                let sid = self.structure_by_pos@[p];
                &&& self.structures@.contains_key(sid.0)
                &&& self.structures@[sid.0].positions@.contains(p)
            } by {
                old(self).lemma_wf_facts();
                let sid = idx0[p];
                assert(!drop@.to_set().contains(sid));
                assert(drop@.to_set().contains(sid) == drop@.contains(sid));
                assert(!drop@.contains(sid));
                assert(tab0.contains_key(sid.0));
                assert(tab0[sid.0].positions@.contains(p));
                assert(StructureId(sid.0) == sid);
                assert(all@.contains(sid));
                assert(tab0[sid.0].kind == StructureKind::Factory);
                assert(self.structures@.contains_key(sid.0));
                assert(StructureId(sid.0) == sid);
                assert(!drop@.contains(StructureId(sid.0)));
            }
            assert forall|p: Cell| #[trigger] self.structure_by_pos@.contains_key(p) == (idx0.contains_key(p)
                && tab0[idx0[p].0].kind == StructureKind::Factory) by {
                if idx0.contains_key(p) {
                    let sid = idx0[p];
                    assert(tab0.contains_key(sid.0));
                    assert(StructureId(sid.0) == sid);
                    assert(drop@.to_set().contains(sid) == drop@.contains(sid));
                }
            }
        }
    }
}

} // verus!

verus! {

/// `after` is the entry `before` refreshed from the scene: it keeps its members and
/// records those touching the scene; touching the scene makes it inactive and fixed,
/// not touching it active and free.
pub open spec fn scene_refreshed(before: Structure, after: Structure, v: Map<Cell, FactoryLink>, scene: Set<Cell>) -> bool {
    let touching = before.positions@.filter(|c: Cell| touches_scene_at(v, scene, c));
    &&& after.id == before.id
    &&& after.kind == before.kind
    &&& after.positions == before.positions
    &&& after.bounds == before.bounds
    &&& after.deform_groups == before.deform_groups
    &&& after.head_of == before.head_of
    &&& after.gravity_support == before.gravity_support
    &&& after.scene_touching@ == touching
    &&& after.activity == (if touching.is_empty() {
        FactoryActivity::Active
    } else {
        FactoryActivity::Inactive
    })
    &&& after.freedom == (if touching.is_empty() {
        StructureFreedom::All
    } else {
        StructureFreedom::Fixed
    })
}

impl StructureState {
    /// Refreshes the factory structures among `ids` from the scene (see
    /// `scene_refreshed`); other structures, and identities with no structure, are left
    /// as they are.  Nothing spreads from one structure to another.
    pub fn refresh_factory_activity_from_scene(
        &mut self,
        view: &CellMap<FactoryLink>,
        scene: &CellSet,
        ids: &Vec<StructureId>,
    )
        requires
            old(self).wf(),
            view.wf(),
            scene.wf(),
            forall|p: Cell| #[trigger] old(self).index().contains_key(p) ==> far_from_limits(p),
        ensures
            final(self).wf(),
            final(self).index() == old(self).index(),
            final(self).last_id() == old(self).last_id(),
            final(self).held() == old(self).held(),
            final(self).moving() == old(self).moving(),
            final(self).table().dom() == old(self).table().dom(),
            final(self).head_counter() == old(self).head_counter(),
            final(self).acceptors() == old(self).acceptors(),
            forall|k: u64| #[trigger] old(self).table().contains_key(k) ==> if ids@.contains(StructureId(k))
                && old(self).table()[k].kind == StructureKind::Factory {
                scene_refreshed(old(self).table()[k], final(self).table()[k], view@, scene@)
            } else {
                final(self).table()[k] == old(self).table()[k]
            },
    {
        proof {
            self.lemma_wf_facts();
        }
        let ghost s0 = *self;
        let mut i: usize = 0;
        while i < ids.len()
            invariant
                i <= ids@.len(),
                s0.wf(),
                forall|p: Cell| #[trigger] s0.index().contains_key(p) ==> far_from_limits(p),
                view.wf(),
                scene.wf(),
                self.wf(),
                self.structure_by_pos@ == s0.structure_by_pos@,
                self.next_structure_id == s0.next_structure_id,
                self.held_blocks@ == s0.held_blocks@,
                self.moving_structures@ == s0.moving_structures@,
                self.next_head_id == s0.next_head_id,
                self.acceptor_structures@ == s0.acceptor_structures@,
                self.structures@.dom() == s0.structures@.dom(),
                forall|k: u64| #[trigger] s0.structures@.contains_key(k) ==> if ids@.take(i as int).contains(StructureId(k))
                    && s0.structures@[k].kind == StructureKind::Factory {
                    scene_refreshed(s0.structures@[k], self.structures@[k], view@, scene@)
                } else {
                    self.structures@[k] == s0.structures@[k]
                },
            decreases ids@.len() - i,
        {
            let id = ids[i];
            let ghost t0 = self.structures@;
            proof {
                assert forall|k: u64| ids@.take(i + 1).contains(StructureId(k)) <==> (ids@.take(i as int).contains(StructureId(k))
                    || StructureId(k) == id) by {
                    if ids@.take(i + 1).contains(StructureId(k)) {
                        let u = choose|u: int| 0 <= u < i + 1 && #[trigger] ids@.take(i + 1)[u] == StructureId(k);
                        if u < i {
                            assert(ids@.take(i as int)[u] == StructureId(k));
                        }
                    }
                    if ids@.take(i as int).contains(StructureId(k)) {
                        let u = choose|u: int| 0 <= u < i && #[trigger] ids@.take(i as int)[u] == StructureId(k);
                        assert(ids@.take(i + 1)[u] == StructureId(k));
                    }
                    if StructureId(k) == id {
                        assert(ids@.take(i + 1)[i as int] == StructureId(k));
                    }
                }
            }
            if self.structures.contains_key(&id.0) {
                let s = self.structures.remove(&id.0).unwrap();
                assert(s == t0[id.0]);
                proof {
                    assert(entry_ok(id.0, s0.structures@[id.0], s0.next_structure_id, s0.structure_by_pos@));
                }
                if s.kind == StructureKind::Factory {
                    proof {
                        assert(s.positions == s0.structures@[id.0].positions);
                        let s_old = s0.structures@[id.0];
                        assert(entry_ok(id.0, s_old, s0.next_structure_id, s0.structure_by_pos@));
                        assert forall|c: Cell| #[trigger] s.positions@.contains(c) implies far_from_limits(c) by {
                            assert(s_old.positions@.contains(c));
                            assert(s0.structure_by_pos@.contains_key(c));
                            assert(s0.index().contains_key(c));
                        }
                    }
                    let touching = scene_touching_cells(view, scene, &s.positions);
                    let none = touching.is_empty();
                    let activity = if none {
                        FactoryActivity::Active
                    } else {
                        FactoryActivity::Inactive
                    };
                    let freedom = if none {
                        StructureFreedom::All
                    } else {
                        StructureFreedom::Fixed
                    };
                    let refreshed = Structure {
                        id: s.id,
                        kind: s.kind,
                        positions: s.positions,
                        bounds: s.bounds,
                        activity,
                        freedom,
                        deform_groups: s.deform_groups,
                        head_of: s.head_of,
                        scene_touching: touching,
                        gravity_support: s.gravity_support,
                    };
                    self.structures.insert(id.0, refreshed);
                } else {
                    self.structures.insert(id.0, s);
                }
                proof {
                    assert(self.structures@.dom() =~= s0.structures@.dom());
                    assert forall|k: u64| #[trigger] self.structures@.contains_key(k) implies entry_ok(
                        k,
                        self.structures@[k],
                        self.next_structure_id,
                        self.structure_by_pos@,
                    ) by {
                        assert(entry_ok(k, s0.structures@[k], s0.next_structure_id, s0.structure_by_pos@));
                    }
                }
            }
            i = i + 1;
        }
        proof {
            assert(ids@.take(i as int) =~= ids@);
        }
    }
}

} // verus!

verus! {

/// A factory structure freshly grown from one of its members: active, free, touching
/// no recorded scene cell, its members the factory component of an allowed cell.
pub open spec fn grown_factory(s: Structure, v: Map<Cell, FactoryLink>, allowed: Set<Cell>) -> bool {
    &&& s.kind == StructureKind::Factory
    &&& s.activity == FactoryActivity::Active
    &&& s.freedom == StructureFreedom::All
    &&& s.scene_touching@.is_empty()
    &&& s.deform_groups@.len() == 0
    &&& s.head_of@.len() == 0
    &&& s.gravity_support@.len() == 0
    &&& exists|c: Cell| allowed.contains(c) && #[trigger] factory_reach(v, allowed, None, c) == s.positions@
}

/// `c` is one of `starts`, a factory cell, and owned by no structure of `dom`.
pub open spec fn fresh_start(allowed: Set<Cell>, dom: Set<Cell>, starts: Seq<Cell>, c: Cell) -> bool {
    starts.contains(c) && allowed.contains(c) && !dom.contains(c)
}

fn vec_has_cell(v: &Vec<Cell>, c: Cell) -> (r: bool)
    ensures
        r == v@.contains(c),
{
    let mut i: usize = 0;
    while i < v.len()
        invariant
            i <= v@.len(),
            forall|j: int| 0 <= j < i ==> v@[j] != c,
        decreases v@.len() - i,
    {
        if v[i] == c {
            assert(v@[i as int] == c);
            return true;
        }
        i = i + 1;
    }
    false
}

impl StructureState {
    /// The factory cells among `starts` that no structure owns, each once, in
    /// (x, y, z) order.
    fn fresh_factory_starts(&self, factory: &CellSet, starts: &Vec<Cell>) -> (r: Vec<Cell>)
        requires
            self.wf(),
        ensures
            cells_sorted(r@),
            r@.len() <= starts@.len(),
            forall|c: Cell| #[trigger] r@.contains(c) <==> fresh_start(factory@, self.index().dom(), starts@, c),
    {
        let mut order: Vec<Cell> = Vec::new();
        let mut j: usize = 0;
        while j < starts.len()
            invariant
                self.wf(),
                j <= starts@.len(),
                order@.len() <= j,
                cells_sorted(order@),
                forall|c: Cell| #[trigger] order@.contains(c) <==> (starts@.take(j as int).contains(c)
                    && factory@.contains(c) && !self.index().dom().contains(c)),
            decreases starts@.len() - j,
        {
            let c = starts[j];
            proof {
                assert forall|x: Cell| starts@.take(j + 1).contains(x) <==> (starts@.take(j as int).contains(x) || x == c) by {
                    if starts@.take(j + 1).contains(x) {
                        let u = choose|u: int| 0 <= u < j + 1 && #[trigger] starts@.take(j + 1)[u] == x;
                        if u < j {
                            assert(starts@.take(j as int)[u] == x);
                        }
                    }
                    if starts@.take(j as int).contains(x) {
                        let u = choose|u: int| 0 <= u < j && #[trigger] starts@.take(j as int)[u] == x;
                        assert(starts@.take(j + 1)[u] == x);
                    }
                    if x == c {
                        assert(starts@.take(j + 1)[j as int] == x);
                    }
                }
            }
            if factory.contains(c) && !self.structure_by_pos.contains_key(c) && !vec_has_cell(&order, c) {
                let ghost o0 = order@;
                insert_sorted_cell(&mut order, c);
                proof {
                    assert forall|x: Cell| #[trigger] order@.contains(x) <==> (o0.contains(x) || x == c) by {
                        assert(order@.to_set().contains(x) == order@.contains(x));
                        assert(o0.to_set().contains(x) == o0.contains(x));
                    }
                    assert(order@.len() == o0.len() + 1) by {
                        assert(o0.no_duplicates()) by {
                            assert forall|a: int, b: int| 0 <= a < o0.len() && 0 <= b < o0.len() && a != b implies o0[a] != o0[b] by {
                                if a < b {
                                    assert(crate::signals::cell_lt(o0[a], o0[b]));
                                } else {
                                    assert(crate::signals::cell_lt(o0[b], o0[a]));
                                }
                            }
                        }
                        assert(order@.no_duplicates()) by {
                            assert forall|a: int, b: int| 0 <= a < order@.len() && 0 <= b < order@.len() && a != b implies order@[a] != order@[b] by {
                                if a < b {
                                    assert(crate::signals::cell_lt(order@[a], order@[b]));
                                } else {
                                    assert(crate::signals::cell_lt(order@[b], order@[a]));
                                }
                            }
                        }
                        o0.unique_seq_to_set();
                        order@.unique_seq_to_set();
                        assert(order@.to_set() =~= o0.to_set().insert(c));
                    }
                }
            }
            j = j + 1;
        }
        proof {
            assert(starts@.take(j as int) =~= starts@);
        }
        order
    }
}


impl StructureState {
    /// Grows a factory structure (active, free) from each factory cell of `starts` that
    /// no structure owns yet, taking the starts in (x, y, z) order and skipping those
    /// that an earlier one has taken in; each new structure gets the next identity.
    /// The cells already owned must form whole factory components, which the table
    /// keeps: what is added is whole components too.
    #[verifier::spinoff_prover]
    #[verifier::rlimit(60)]
    pub fn append_connected_factory_structures(
        &mut self,
        view: &CellMap<FactoryLink>,
        factory: &CellSet,
        starts: &Vec<Cell>,
    )
        requires
            old(self).wf(),
            view.wf(),
            factory.wf(),
            allowed_ok(view@, factory@),
            closed_under_steps(view@, factory@, old(self).index().dom()),
            old(self).last_id() + starts@.len() <= u64::MAX,
        ensures
            final(self).wf(),
            final(self).held() == old(self).held(),
            final(self).moving() == old(self).moving(),
            old(self).last_id() <= final(self).last_id(),
            forall|k: u64| #[trigger] old(self).table().contains_key(k) ==> final(self).table().contains_key(k)
                && final(self).table()[k] == old(self).table()[k],
            forall|k: u64| #[trigger] final(self).table().contains_key(k) && !old(self).table().contains_key(k)
                ==> old(self).last_id() < k <= final(self).last_id() && grown_factory(final(self).table()[k], view@, factory@),
            forall|p: Cell| #[trigger] final(self).index().contains_key(p) <==> (old(self).index().contains_key(p) || exists|c: Cell|
                fresh_start(factory@, old(self).index().dom(), starts@, c) && #[trigger] factory_reach(view@, factory@, None, c).contains(p)),
            forall|p: Cell| #[trigger] old(self).index().contains_key(p) ==> final(self).index()[p] == old(self).index()[p],
            closed_under_steps(view@, factory@, final(self).index().dom()),
            final(self).head_counter() == old(self).head_counter(),
            final(self).acceptors() == old(self).acceptors(),
            final(self).last_id() <= old(self).last_id() + starts@.len(),
    {
        let order = self.fresh_factory_starts(factory, starts);
        let ghost s0 = *self;
        let ghost d0 = s0.index().dom();
        let mut i: usize = 0;
        while i < order.len()
            invariant
                view.wf(),
                factory.wf(),
                allowed_ok(view@, factory@),
                self.wf(),
                i <= order@.len(),
                forall|c: Cell| #[trigger] order@.contains(c) <==> fresh_start(factory@, d0, starts@, c),
                order@.len() <= starts@.len(),
                s0.last_id() + starts@.len() <= u64::MAX,
                s0.last_id() <= self.last_id() <= s0.last_id() + i,
                self.held() == s0.held(),
                self.moving() == s0.moving(),
                self.head_counter() == s0.head_counter(),
                self.acceptors() == s0.acceptors(),
                d0 == s0.index().dom(),
                forall|k: u64| #[trigger] s0.table().contains_key(k) ==> self.table().contains_key(k) && self.table()[k] == s0.table()[k],
                forall|k: u64| #[trigger] self.table().contains_key(k) && !s0.table().contains_key(k)
                    ==> s0.last_id() < k <= self.last_id() && grown_factory(self.table()[k], view@, factory@),
                forall|p: Cell| #[trigger] self.index().contains_key(p) <==> (d0.contains(p) || exists|t: int|
                    0 <= t < i && #[trigger] factory_reach(view@, factory@, None, order@[t]).contains(p)),
                forall|p: Cell| #[trigger] s0.index().contains_key(p) ==> self.index()[p] == s0.index()[p],
                closed_under_steps(view@, factory@, self.index().dom()),
            decreases order@.len() - i,
        {
            let start = order[i];
            proof {
                assert(order@.contains(start));
                assert(factory@.contains(start));
            }
            let ghost before = *self;
            if !self.structure_by_pos.contains_key(start) {
                proof {
                    lemma_reach_outside(view@, factory@, before.index().dom(), start);
                    lemma_closed_add(view@, factory@, before.index().dom(), start);
                    lemma_reach_start(view@, factory@, None, start);
                }
                let positions = connected_factory_subset(view, factory, start, None);
                let id = self.add_structure(
                    StructureKind::Factory,
                    positions,
                    FactoryActivity::Active,
                    StructureFreedom::All,
                    CellSet::new(),
                );
                proof {
                    let r = factory_reach(view@, factory@, None, start);
                    assert(self.index().dom() =~= before.index().dom().union(r));
                    assert(grown_factory(self.table()[id.0], view@, factory@)) by {
                        assert(factory_reach(view@, factory@, None, start) == self.table()[id.0].positions@);
                    }
                    assert forall|k: u64| #[trigger] self.table().contains_key(k) && !s0.table().contains_key(k)
                        implies s0.last_id() < k <= self.last_id() && grown_factory(self.table()[k], view@, factory@) by {
                        if k != id.0 {
                            assert(before.table().contains_key(k));
                        }
                    }
                    assert forall|k: u64| #[trigger] s0.table().contains_key(k) implies self.table().contains_key(k)
                        && self.table()[k] == s0.table()[k] by {
                        assert(before.table().contains_key(k));
                    }
                    assert forall|p: Cell| #[trigger] self.index().contains_key(p) <==> (d0.contains(p) || exists|t: int|
                        0 <= t < i + 1 && #[trigger] factory_reach(view@, factory@, None, order@[t]).contains(p)) by {
                        if r.contains(p) {
                            assert(factory_reach(view@, factory@, None, order@[i as int]).contains(p));
                        }
                        if exists|t: int| 0 <= t < i + 1 && #[trigger] factory_reach(view@, factory@, None, order@[t]).contains(p) {
                            let t = choose|t: int| 0 <= t < i + 1 && #[trigger] factory_reach(view@, factory@, None, order@[t]).contains(p);
                            if t < i {
                                assert(before.index().contains_key(p));
                            }
                        }
                        if exists|t: int| 0 <= t < i && #[trigger] factory_reach(view@, factory@, None, order@[t]).contains(p) {
                            let t = choose|t: int| 0 <= t < i && #[trigger] factory_reach(view@, factory@, None, order@[t]).contains(p);
                            assert(0 <= t < i + 1);
                        }
                    }
                    assert forall|p: Cell| #[trigger] s0.index().contains_key(p) implies self.index()[p] == s0.index()[p] by {
                        assert(before.index().contains_key(p));
                        assert(!r.contains(p));
                    }
                }
            } else {
                proof {
                    assert(before.index().dom().contains(start));
                    lemma_reach_inside(view@, factory@, before.index().dom(), start);
                    assert forall|p: Cell| #[trigger] self.index().contains_key(p) <==> (d0.contains(p) || exists|t: int|
                        0 <= t < i + 1 && #[trigger] factory_reach(view@, factory@, None, order@[t]).contains(p)) by {
                        if exists|t: int| 0 <= t < i + 1 && #[trigger] factory_reach(view@, factory@, None, order@[t]).contains(p) {
                            let t = choose|t: int| 0 <= t < i + 1 && #[trigger] factory_reach(view@, factory@, None, order@[t]).contains(p);
                            if t == i {
                                assert(before.index().dom().contains(p));
                            }
                        }
                        if exists|t: int| 0 <= t < i && #[trigger] factory_reach(view@, factory@, None, order@[t]).contains(p) {
                            let t = choose|t: int| 0 <= t < i && #[trigger] factory_reach(view@, factory@, None, order@[t]).contains(p);
                            assert(0 <= t < i + 1);
                        }
                    }
                }
            }
            i = i + 1;
        }
        proof {
            assert forall|p: Cell| #[trigger] self.index().contains_key(p) <==> (s0.index().contains_key(p) || exists|c: Cell|
                fresh_start(factory@, d0, starts@, c) && #[trigger] factory_reach(view@, factory@, None, c).contains(p)) by {
                if exists|t: int| 0 <= t < i && #[trigger] factory_reach(view@, factory@, None, order@[t]).contains(p) {
                    let t = choose|t: int| 0 <= t < i && #[trigger] factory_reach(view@, factory@, None, order@[t]).contains(p);
                    assert(order@.contains(order@[t]));
                    assert(fresh_start(factory@, d0, starts@, order@[t]));
                }
                if exists|c: Cell| fresh_start(factory@, d0, starts@, c) && #[trigger] factory_reach(view@, factory@, None, c).contains(p) {
                    let c = choose|c: Cell| fresh_start(factory@, d0, starts@, c) && #[trigger] factory_reach(view@, factory@, None, c).contains(p);
                    assert(order@.contains(c));
                    let t = choose|t: int| 0 <= t < order@.len() && order@[t] == c;
                    assert(factory_reach(view@, factory@, None, order@[t]).contains(p));
                }
            }
        }
    }
}


/// `after` is `before` with the given activity and freedom, everything else kept.
pub open spec fn with_activity(before: Structure, after: Structure, activity: FactoryActivity, freedom: StructureFreedom) -> bool {
    &&& after.id == before.id
    &&& after.kind == before.kind
    &&& after.positions == before.positions
    &&& after.bounds == before.bounds
    &&& after.deform_groups == before.deform_groups
    &&& after.head_of == before.head_of
    &&& after.gravity_support == before.gravity_support
    &&& after.scene_touching == before.scene_touching
    &&& after.activity == activity
    &&& after.freedom == freedom
}

impl StructureState {
    /// Sets the activity and freedom of the structure `id`, keeping everything else.
    pub(crate) fn set_activity(&mut self, id: StructureId, activity: FactoryActivity, freedom: StructureFreedom)
        requires
            old(self).wf(),
            old(self).table().contains_key(id.0),
        ensures
            final(self).wf(),
            final(self).index() == old(self).index(),
            final(self).last_id() == old(self).last_id(),
            final(self).held() == old(self).held(),
            final(self).moving() == old(self).moving(),
            final(self).table().dom() == old(self).table().dom(),
            forall|k: u64| k != id.0 && #[trigger] old(self).table().contains_key(k) ==> final(self).table()[k] == old(self).table()[k],
            with_activity(old(self).table()[id.0], final(self).table()[id.0], activity, freedom),
            final(self).head_counter() == old(self).head_counter(),
            final(self).acceptors() == old(self).acceptors(),
    {
        proof {
            self.lemma_wf_facts();
        }
        let ghost s0 = *self;
        let mut s = self.structures.remove(&id.0).unwrap();
        s.activity = activity;
        s.freedom = freedom;
        self.structures.insert(id.0, s);
        proof {
            assert(self.structures@.dom() =~= s0.structures@.dom());
            assert forall|k: u64| #[trigger] self.structures@.contains_key(k) implies entry_ok(
                k,
                self.structures@[k],
                self.next_structure_id,
                self.structure_by_pos@,
            ) by {
                assert(entry_ok(k, s0.structures@[k], s0.next_structure_id, s0.structure_by_pos@));
            }
        }
    }
}


/// `after` is `before` with the gravity supports `support`, everything else kept.
pub open spec fn with_support(before: Structure, after: Structure, support: Seq<(Cell, Cell)>) -> bool {
    &&& after.id == before.id
    &&& after.kind == before.kind
    &&& after.positions == before.positions
    &&& after.bounds == before.bounds
    &&& after.activity == before.activity
    &&& after.freedom == before.freedom
    &&& after.deform_groups == before.deform_groups
    &&& after.head_of == before.head_of
    &&& after.scene_touching == before.scene_touching
    &&& after.gravity_support@ == support
}

impl StructureState {
    /// Replaces the recorded gravity supports of the structure `id`.
    pub(crate) fn set_gravity_support(&mut self, id: StructureId, support: Vec<(Cell, Cell)>)
        requires
            old(self).wf(),
            old(self).table().contains_key(id.0),
        ensures
            final(self).wf(),
            final(self).index() == old(self).index(),
            final(self).last_id() == old(self).last_id(),
            final(self).held() == old(self).held(),
            final(self).moving() == old(self).moving(),
            final(self).table().dom() == old(self).table().dom(),
            forall|k: u64| k != id.0 && #[trigger] old(self).table().contains_key(k) ==> final(self).table()[k] == old(self).table()[k],
            with_support(old(self).table()[id.0], final(self).table()[id.0], support@),
            final(self).head_counter() == old(self).head_counter(),
            final(self).acceptors() == old(self).acceptors(),
    {
        proof {
            self.lemma_wf_facts();
        }
        let ghost s0 = *self;
        let mut s = self.structures.remove(&id.0).unwrap();
        s.gravity_support = support;
        self.structures.insert(id.0, s);
        proof {
            assert(self.structures@.dom() =~= s0.structures@.dom());
            assert forall|k: u64| #[trigger] self.structures@.contains_key(k) implies entry_ok(
                k,
                self.structures@[k],
                self.next_structure_id,
                self.structure_by_pos@,
            ) by {
                assert(entry_ok(k, s0.structures@[k], s0.next_structure_id, s0.structure_by_pos@));
            }
        }
    }
}

impl StructureState {
    /// Grows factory structures over every factory cell that no structure owns yet
    /// (see `append_connected_factory_structures`).
    pub fn append_factory_structures(&mut self, view: &CellMap<FactoryLink>, factory: &CellSet)
        requires
            old(self).wf(),
            view.wf(),
            factory.wf(),
            allowed_ok(view@, factory@),
            closed_under_steps(view@, factory@, old(self).index().dom()),
            old(self).last_id() + factory@.len() <= u64::MAX,
        ensures
            factory_grown(*old(self), *final(self), view@, factory@),
    {
        let starts = factory.to_vec();
        proof {
            factory.lemma_elems();
            factory.elems().unique_seq_to_set();
            assert forall|c: Cell| starts@.contains(c) <==> factory@.contains(c) by {
                assert(factory.elems().to_set().contains(c) == factory.elems().contains(c));
            }
            assert(starts@.len() == factory@.len());
        }
        self.append_connected_factory_structures(view, factory, &starts);
    }

    /// Refreshes every factory structure from the scene (see `scene_refreshed`).
    pub fn refresh_all_factory_activity_from_scene(&mut self, view: &CellMap<FactoryLink>, scene: &CellSet)
        requires
            old(self).wf(),
            view.wf(),
            scene.wf(),
            forall|p: Cell| #[trigger] old(self).index().contains_key(p) ==> far_from_limits(p),
        ensures
            all_refreshed(*old(self), *final(self), view@, scene@),
    {
        let ids = self.structure_ids();
        self.refresh_factory_activity_from_scene(view, scene, &ids);
    }
}


/// The head counter once synchronised with the world's next block identity: at least
/// that, and at least one.
pub open spec fn synced_counter(counter: u64, next_block_id: u64) -> u64 {
    let a = if counter < next_block_id {
        next_block_id
    } else {
        counter
    };
    if a < 1 {
        1
    } else {
        a
    }
}

/// `after` is the factory structure `before` with its deformation rebuilt from the
/// blocks `m`: the members that touch the scene recorded; its pushers, by body, each
/// keeping its former head or getting a fresh one (counter from `n0` to `n1`); and the
/// deformation groups of the graph of its blocks and pushers.
pub open spec fn deform_rebuilt(
    before: Structure,
    after: Structure,
    m: Map<Cell, DeformBlock>,
    scene: Set<Cell>,
    n0: u64,
    n1: u64,
) -> bool {
    let cells = before.positions@;
    &&& after.id == before.id
    &&& after.kind == before.kind
    &&& after.positions == before.positions
    &&& after.bounds == before.bounds
    &&& after.activity == before.activity
    &&& after.freedom == before.freedom
    &&& after.gravity_support == before.gravity_support
    &&& after.scene_touching@ == cells.filter(|c: Cell| touches_scene_at(m.map_values(|b: DeformBlock| link_of(b)), scene, c))
    &&& exists|ps: Seq<DeformPusher>| #[trigger] pushers_of(m, cells, ps) && heads_fresh(before.head_of@, ps, n0, n1)
        && after.head_of@ == ps.map_values(|p: DeformPusher| (BlockId(p.body), BlockId(p.head))) && exists|g: DeformGraph|
        g.pushers@ == ps && (forall|a: u64, b: u64| #[trigger] g.links@.contains((a, b)) <==> graph_link(m, cells, ps, a, b)) && groups_of(
        after.deform_groups@,
        &g,
    )
}

fn heads_list(ps: &Vec<DeformPusher>) -> (r: Vec<(BlockId, BlockId)>)
    ensures
        r@ == ps@.map_values(|p: DeformPusher| (BlockId(p.body), BlockId(p.head))),
{
    let mut r: Vec<(BlockId, BlockId)> = Vec::new();
    let mut i: usize = 0;
    while i < ps.len()
        invariant
            i <= ps@.len(),
            r@ == ps@.take(i as int).map_values(|p: DeformPusher| (BlockId(p.body), BlockId(p.head))),
        decreases ps@.len() - i,
    {
        r.push((BlockId(ps[i].body), BlockId(ps[i].head)));
        i = i + 1;
        assert(r@ =~= ps@.take(i as int).map_values(|p: DeformPusher| (BlockId(p.body), BlockId(p.head))));
    }
    assert(ps@.take(i as int) =~= ps@);
    r
}

impl StructureState {
    /// Rebuilds the deformation of the factory structure `id` from the blocks `m`: the
    /// head counter is first brought up to `next_block_id` (and to one); then, for a
    /// factory structure, see `deform_rebuilt`.  Anything else is kept.
    pub fn rebuild_deform_for(&mut self, m: &CellMap<DeformBlock>, scene: &CellSet, next_block_id: u64, id: StructureId)
        requires
            old(self).wf(),
            m.wf(),
            scene.wf(),
            blocks_far(m@),
            pushes_unit(m@),
            ids_unique(m@),
            forall|c: Cell| #[trigger] m@.contains_key(c) ==> m@[c].id.0 < next_block_id,
            forall|p: Cell| #[trigger] old(self).index().contains_key(p) ==> far_from_limits(p),
            old(self).table().contains_key(id.0) ==> synced_counter(old(self).head_counter(), next_block_id)
                + old(self).table()[id.0].positions@.len() <= u64::MAX,
        ensures
            final(self).wf(),
            final(self).index() == old(self).index(),
            final(self).last_id() == old(self).last_id(),
            final(self).held() == old(self).held(),
            final(self).moving() == old(self).moving(),
            final(self).table().dom() == old(self).table().dom(),
            forall|k: u64| k != id.0 && #[trigger] old(self).table().contains_key(k) ==> final(self).table()[k] == old(self).table()[k],
            if old(self).table().contains_key(id.0) && old(self).table()[id.0].kind == StructureKind::Factory {
                deform_rebuilt(
                    old(self).table()[id.0],
                    final(self).table()[id.0],
                    m@,
                    scene@,
                    synced_counter(old(self).head_counter(), next_block_id),
                    final(self).head_counter(),
                )
            } else {
                &&& final(self).table() == old(self).table()
                &&& final(self).head_counter() == synced_counter(old(self).head_counter(), next_block_id)
            },
            synced_counter(old(self).head_counter(), next_block_id) <= final(self).head_counter(),
            final(self).acceptors() == old(self).acceptors(),
            old(self).table().contains_key(id.0) ==> final(self).head_counter() <= synced_counter(old(self).head_counter(), next_block_id)
                + old(self).table()[id.0].positions@.len(),
    {
        proof {
            self.lemma_wf_facts();
        }
        let ghost s0 = *self;
        let mut counter = self.next_head_id;
        if counter < next_block_id {
            counter = next_block_id;
        }
        if counter < 1 {
            counter = 1;
        }
        self.next_head_id = counter;
        if !self.structures.contains_key(&id.0) {
            return;
        }
        let s = self.structures.remove(&id.0).unwrap();
        proof {
            assert(entry_ok(id.0, s, s0.next_structure_id, s0.structure_by_pos@));
        }
        if s.kind != StructureKind::Factory {
            self.structures.insert(id.0, s);
            proof {
                assert(self.structures@ =~= s0.structures@);
            }
            return;
        }
        proof {
            assert forall|c: Cell| #[trigger] s.positions@.contains(c) implies far_from_limits(c) by {
                assert(s0.structure_by_pos@.contains_key(c));
                assert(s0.index().contains_key(c));
            }
        }
        let view = factory_view(m);
        let touching = scene_touching_cells(&view, scene, &s.positions);
        let bodies = pusher_bodies(m, &s.positions);
        let ghost n0 = self.next_head_id;
        let ps = assign_heads(&bodies, &s.head_of, &mut self.next_head_id);
        proof {
            assert(pushers_of(m@, s.positions@, ps@)) by {
                assert forall|a: int, b: int| 0 <= a < b < ps@.len() implies ps@[a].body < ps@[b].body by {
                    assert(ps@[a].body == bodies@[a].body);
                    assert(ps@[b].body == bodies@[b].body);
                }
                assert forall|k: int| #![trigger ps@[k]] 0 <= k < ps@.len() implies crate::deform_graph::is_body_cell(m@, s.positions@, ps@[k].at)
                    && m@[ps@[k].at].id.0 == ps@[k].body && ps@[k].dir == m@[ps@[k].at].push->0 by {
                    assert(ps@[k].at == bodies@[k].at);
                    assert(ps@[k].body == bodies@[k].body);
                    assert(ps@[k].dir == bodies@[k].dir);
                }
                assert forall|c: Cell| #[trigger] crate::deform_graph::is_body_cell(m@, s.positions@, c) implies exists|k: int| #![trigger ps@[k]]
                    0 <= k < ps@.len() && ps@[k].at == c by {
                    let k = choose|k: int| #![trigger bodies@[k]] 0 <= k < bodies@.len() && bodies@[k].at == c;
                    assert(ps@[k].at == c);
                }
            }
            assert forall|k: int| 0 <= k < ps@.len() implies (#[trigger] ps@[k]).dir.is_unit_axis() && far_from_limits(ps@[k].at) by {
                assert(crate::deform_graph::is_body_cell(m@, s.positions@, ps@[k].at));
            }
        }
        let links = deform_links(m, &s.positions, &ps);
        let head_of = heads_list(&ps);
        let ghost pv = ps@;
        let g = DeformGraph { links, pushers: ps };
        proof {
            assert(g.pushers@ == pv);
            assert(graph_ok(&g)) by {
                assert forall|k: int| 0 <= k < pv.len() implies (#[trigger] pv[k]).head != pv[k].body && pv[k].dir.is_unit_axis() by {
                    assert(crate::deform_graph::is_body_cell(m@, s.positions@, pv[k].at));
                    if had_head(s.head_of@, pv[k].body) {
                        assert(prev_head(s.head_of@, pv[k].body, pv[k].head));
                        let i = choose|i: int| #![trigger s.head_of@[i]] 0 <= i < s.head_of@.len() && s.head_of@[i].0.0 == pv[k].body
                            && s.head_of@[i].1.0 == pv[k].head && forall|j: int| 0 <= j < i ==> (#[trigger] s.head_of@[j]).0.0 != pv[k].body;
                        assert(s.head_of@[i].0 != s.head_of@[i].1);
                    } else {
                        assert(m@.contains_key(pv[k].at));
                    }
                }
            }
        }
        let groups = deform_groups_of(&g);
        let rebuilt = Structure {
            id: s.id,
            kind: s.kind,
            positions: s.positions,
            bounds: s.bounds,
            activity: s.activity,
            freedom: s.freedom,
            deform_groups: groups,
            head_of,
            scene_touching: touching,
            gravity_support: s.gravity_support,
        };
        proof {
            assert(deform_rebuilt(s, rebuilt, m@, scene@, n0, self.next_head_id)) by {
                let cells = s.positions@;
                assert(view@ == m@.map_values(|b: DeformBlock| link_of(b)));
                assert(rebuilt.scene_touching@ == cells.filter(|c: Cell| touches_scene_at(m@.map_values(|b: DeformBlock| link_of(b)), scene@, c)));
                assert(pushers_of(m@, cells, pv));
                assert(heads_fresh(s.head_of@, pv, n0, self.next_head_id));
                assert(rebuilt.head_of@ == pv.map_values(|p: DeformPusher| (BlockId(p.body), BlockId(p.head))));
                assert(g.pushers@ == pv);
                assert(forall|a: u64, b: u64| #[trigger] g.links@.contains((a, b)) <==> graph_link(m@, cells, pv, a, b));
                assert(groups_of(rebuilt.deform_groups@, &g));
            }
            assert forall|i: int| 0 <= i < rebuilt.head_of@.len() implies (#[trigger] rebuilt.head_of@[i]).0 != rebuilt.head_of@[i].1 by {
                assert(g.pushers@[i].head != g.pushers@[i].body);
            }
        }
        self.structures.insert(id.0, rebuilt);
        proof {
            assert(self.structures@.dom() =~= s0.structures@.dom());
            assert forall|k: u64| #[trigger] self.structures@.contains_key(k) implies entry_ok(
                k,
                self.structures@[k],
                self.next_structure_id,
                self.structure_by_pos@,
            ) by {
                assert(entry_ok(k, s0.structures@[k], s0.next_structure_id, s0.structure_by_pos@));
            }
        }
    }
}


impl StructureState {
    /// Rebuilds the deformation of the factory structures among `ids` (see
    /// `rebuild_deform_for`); they draw their fresh heads from one counter, one after
    /// the other.
    pub(crate) fn rebuild_deform_for_ids(&mut self, m: &CellMap<DeformBlock>, scene: &CellSet, next_block_id: u64, ids: &Vec<StructureId>)
        requires
            old(self).wf(),
            m.wf(),
            scene.wf(),
            blocks_far(m@),
            pushes_unit(m@),
            ids_unique(m@),
            forall|c: Cell| #[trigger] m@.contains_key(c) ==> m@[c].id.0 < next_block_id,
            forall|p: Cell| #[trigger] old(self).index().contains_key(p) ==> far_from_limits(p),
            synced_counter(old(self).head_counter(), next_block_id) + old(self).index().dom().len() <= u64::MAX,
            ids@.no_duplicates(),
            forall|x: StructureId| #[trigger] ids@.contains(x) ==> old(self).table().contains_key(x.0),
        ensures
            some_deform_rebuilt(*old(self), *final(self), m@, scene@, next_block_id, ids@.to_set()),
    {
        proof {
            self.lemma_wf_facts();
        }
        let ghost s0 = *self;
        let ghost base = synced_counter(s0.head_counter(), next_block_id);
        let ghost mut done: Set<Cell> = Set::empty();
        let mut i: usize = 0;
        while i < ids.len()
            invariant
                s0.wf(),
                self.wf(),
                m.wf(),
                scene.wf(),
                blocks_far(m@),
                pushes_unit(m@),
                ids_unique(m@),
                forall|c: Cell| #[trigger] m@.contains_key(c) ==> m@[c].id.0 < next_block_id,
                forall|p: Cell| #[trigger] s0.index().contains_key(p) ==> far_from_limits(p),
                base == synced_counter(s0.head_counter(), next_block_id),
                base + s0.index().dom().len() <= u64::MAX,
                ids@.no_duplicates(),
                forall|x: StructureId| #[trigger] ids@.contains(x) ==> s0.table().contains_key(x.0),
                i <= ids@.len(),
                self.index() == s0.index(),
                self.last_id() == s0.last_id(),
                self.held() == s0.held(),
                self.moving() == s0.moving(),
                self.table().dom() == s0.table().dom(),
                s0.head_counter() <= self.head_counter(),
                self.acceptors() == s0.acceptors(),
                synced_counter(self.head_counter(), next_block_id) <= base + done.len(),
                done.finite(),
                forall|p: Cell| #[trigger] done.contains(p) ==> s0.index().contains_key(p) && ids@.take(i as int).contains(s0.index()[p]),
                forall|k: u64| #[trigger] s0.table().contains_key(k) ==> if ids@.take(i as int).contains(StructureId(k))
                    && s0.table()[k].kind == StructureKind::Factory {
                    exists|n0: u64, n1: u64| #[trigger] deform_rebuilt(s0.table()[k], self.table()[k], m@, scene@, n0, n1) && base <= n0 <= n1
                        <= self.head_counter()
                } else {
                    self.table()[k] == s0.table()[k]
                },
            decreases ids@.len() - i,
        {
            let id = ids[i];
            proof {
                assert(ids@.contains(id));
                assert(!ids@.take(i as int).contains(id)) by {
                    if ids@.take(i as int).contains(id) {
                        let u = choose|u: int| 0 <= u < i && #[trigger] ids@.take(i as int)[u] == id;
                        assert(ids@[u] == ids@[i as int]);
                    }
                }
                assert forall|x: StructureId| ids@.take(i + 1).contains(x) <==> (ids@.take(i as int).contains(x) || x == id) by {
                    if ids@.take(i + 1).contains(x) {
                        let u = choose|u: int| 0 <= u < i + 1 && #[trigger] ids@.take(i + 1)[u] == x;
                        if u < i {
                            assert(ids@.take(i as int)[u] == x);
                        }
                    }
                    if ids@.take(i as int).contains(x) {
                        let u = choose|u: int| 0 <= u < i && #[trigger] ids@.take(i as int)[u] == x;
                        assert(ids@.take(i + 1)[u] == x);
                    }
                    if x == id {
                        assert(ids@.take(i + 1)[i as int] == x);
                    }
                }
                assert(self.table()[id.0] == s0.table()[id.0]);
            }
            let is_factory = match self.get(id) {
                Some(s) => s.kind == StructureKind::Factory,
                None => false,
            };
            if is_factory {
                let ghost before = *self;
                let ghost pos = s0.table()[id.0].positions@;
                proof {
                    s0.lemma_entry(id.0);
                    s0.table()[id.0].positions.lemma_elems();
                    assert(pos.disjoint(done)) by {
                        assert forall|p: Cell| pos.contains(p) implies !done.contains(p) by {
                            assert(s0.index()[p] == id);
                        }
                    }
                    assert(pos.subset_of(s0.index().dom()));
                    assert(done.union(pos).subset_of(s0.index().dom()));
                    vstd::set_lib::lemma_set_disjoint_lens(done, pos);
                    s0.structure_by_pos.lemma_view_finite();
                    vstd::set_lib::lemma_len_subset(done.union(pos), s0.index().dom());
                    assert(synced_counter(before.head_counter(), next_block_id) + before.table()[id.0].positions@.len() <= u64::MAX);
                }
                self.rebuild_deform_for(m, scene, next_block_id, id);
                proof {
                    let n0 = synced_counter(before.head_counter(), next_block_id);
                    assert(deform_rebuilt(s0.table()[id.0], self.table()[id.0], m@, scene@, n0, self.head_counter()));
                    assert(base <= n0);
                    done = done.union(pos);
                    assert forall|k: u64| #[trigger] s0.table().contains_key(k) implies if ids@.take(i + 1).contains(StructureId(k))
                        && s0.table()[k].kind == StructureKind::Factory {
                        exists|n0: u64, n1: u64| #[trigger] deform_rebuilt(s0.table()[k], self.table()[k], m@, scene@, n0, n1) && base <= n0
                            <= n1 <= self.head_counter()
                    } else {
                        self.table()[k] == s0.table()[k]
                    } by {
                        if k != id.0 {
                            assert(self.table()[k] == before.table()[k]);
                            if ids@.take(i as int).contains(StructureId(k)) && s0.table()[k].kind == StructureKind::Factory {
                                let (a, b) = choose|a: u64, b: u64| #[trigger] deform_rebuilt(s0.table()[k], before.table()[k], m@, scene@, a, b)
                                    && base <= a <= b <= before.head_counter();
                                assert(deform_rebuilt(s0.table()[k], self.table()[k], m@, scene@, a, b));
                            }
                        } else {
                            assert(StructureId(k) == id);
                            assert(deform_rebuilt(s0.table()[k], self.table()[k], m@, scene@, n0, self.head_counter()));
                        }
                    }
                    assert forall|p: Cell| #[trigger] done.contains(p) implies s0.index().contains_key(p) && ids@.take(i + 1).contains(s0.index()[p]) by {
                        if pos.contains(p) {
                            assert(s0.index()[p] == id);
                        }
                    }
                }
            } else {
                proof {
                    assert forall|k: u64| #[trigger] s0.table().contains_key(k) implies if ids@.take(i + 1).contains(StructureId(k))
                        && s0.table()[k].kind == StructureKind::Factory {
                        exists|n0: u64, n1: u64| #[trigger] deform_rebuilt(s0.table()[k], self.table()[k], m@, scene@, n0, n1) && base <= n0
                            <= n1 <= self.head_counter()
                    } else {
                        self.table()[k] == s0.table()[k]
                    } by {
                        if k == id.0 {
                            assert(StructureId(k) == id);
                        }
                    }
                }
            }
            i = i + 1;
        }
        proof {
            assert(ids@.take(i as int) =~= ids@);
            assert forall|k: u64| #[trigger] s0.table().contains_key(k) implies if ids@.to_set().contains(StructureId(k))
                && s0.table()[k].kind == StructureKind::Factory {
                exists|n0: u64, n1: u64| #[trigger] deform_rebuilt(s0.table()[k], self.table()[k], m@, scene@, n0, n1) && base <= n0 <= n1
                    <= self.head_counter()
            } else {
                self.table()[k] == s0.table()[k]
            } by {
                assert(ids@.to_set().contains(StructureId(k)) == ids@.contains(StructureId(k)));
            }
        }
    }

    /// Rebuilds the deformation of every factory structure (see `all_deform_rebuilt`).
    pub fn rebuild_all_factory_deform(&mut self, m: &CellMap<DeformBlock>, scene: &CellSet, next_block_id: u64)
        requires
            old(self).wf(),
            m.wf(),
            scene.wf(),
            blocks_far(m@),
            pushes_unit(m@),
            ids_unique(m@),
            forall|c: Cell| #[trigger] m@.contains_key(c) ==> m@[c].id.0 < next_block_id,
            forall|p: Cell| #[trigger] old(self).index().contains_key(p) ==> far_from_limits(p),
            synced_counter(old(self).head_counter(), next_block_id) + old(self).index().dom().len() <= u64::MAX,
        ensures
            all_deform_rebuilt(*old(self), *final(self), m@, scene@, next_block_id),
    {
        let ids = self.structure_ids();
        self.rebuild_deform_for_ids(m, scene, next_block_id, &ids);
        proof {
            assert forall|k: u64| #[trigger] old(self).table().contains_key(k) implies ids@.to_set().contains(StructureId(k)) by {
                assert(ids@.contains(StructureId(k)));
            }
        }
    }
}


impl StructureState {
    /// The acceptor structures with their counters.
    pub fn acceptor_structures(&self) -> (r: &[AcceptorStructure])
        ensures
            r@ == self.acceptors(),
    {
        self.acceptor_structures.as_slice()
    }

    /// Counts one more acceptance for the acceptor structure at `index`, saturating;
    /// nothing happens for an index out of range.
    pub fn increment_acceptor_count(&mut self, index: usize)
        ensures
            final(self).table() == old(self).table(),
            final(self).index() == old(self).index(),
            final(self).last_id() == old(self).last_id(),
            final(self).head_counter() == old(self).head_counter(),
            final(self).held() == old(self).held(),
            final(self).moving() == old(self).moving(),
            final(self).wf() == old(self).wf(),
            final(self).acceptors().len() == old(self).acceptors().len(),
            forall|i: int| 0 <= i < old(self).acceptors().len() && i != index ==> #[trigger] final(self).acceptors()[i] == old(self).acceptors()[i],
            index < old(self).acceptors().len() ==> {
                let a = old(self).acceptors()[index as int];
                let b = final(self).acceptors()[index as int];
                &&& b.id == a.id
                &&& b.positions == a.positions
                &&& b.count == (if a.count == u32::MAX {
                    u32::MAX
                } else {
                    (a.count + 1) as u32
                })
            },
    {
        if index < self.acceptor_structures.len() {
            let mut a = self.acceptor_structures.remove(index);
            a.count = a.count.saturating_add(1);
            self.acceptor_structures.insert(index, a);
        }
    }

    /// Appends an acceptor structure, with a zero count, for each stored one, in order.
    #[verifier::spinoff_prover]
    pub fn append_acceptor_structures(&mut self, stored: &[StoredAcceptorStructure])
        ensures
            acceptors_appended(*old(self), *final(self), stored@),
    {
        let ghost n0 = self.acceptor_structures@.len();
        let ghost a0 = self.acceptor_structures@;
        let mut j: usize = 0;
        while j < stored.len()
            invariant
                j <= stored@.len(),
                self.structures@ == old(self).structures@,
                self.structure_by_pos@ == old(self).structure_by_pos@,
                self.structure_by_pos.wf() == old(self).structure_by_pos.wf(),
                self.next_structure_id == old(self).next_structure_id,
                self.next_head_id == old(self).next_head_id,
                self.held_blocks@ == old(self).held_blocks@,
                self.moving_structures@ == old(self).moving_structures@,
                n0 == old(self).acceptor_structures@.len(),
                a0 == old(self).acceptor_structures@,
                self.acceptor_structures@.len() == n0 + j,
                forall|i: int| 0 <= i < n0 ==> #[trigger] self.acceptor_structures@[i] == a0[i],
                forall|t: int| #![trigger stored@[t]] 0 <= t < j ==> {
                    let a = self.acceptor_structures@[n0 + t];
                    &&& a.id == stored@[t].id
                    &&& a.positions.wf()
                    &&& a.positions@ == stored@[t].positions@.to_set()
                    &&& a.count == 0
                },
            decreases stored@.len() - j,
        {
            let positions = CellSet::from_slice(stored[j].positions.as_slice());
            let ghost before = self.acceptor_structures@;
            self.acceptor_structures.push(AcceptorStructure { id: stored[j].id, positions, count: 0 });
            proof {
                assert forall|t: int| 0 <= t < j + 1 implies {
                    let a = self.acceptor_structures@[n0 + t];
                    &&& a.id == #[trigger] stored@[t].id
                    &&& a.positions.wf()
                    &&& a.positions@ == stored@[t].positions@.to_set()
                    &&& a.count == 0
                } by {
                    if t < j {
                        assert(self.acceptor_structures@[n0 + t] == before[n0 + t]);
                    } else {
                        assert(self.acceptor_structures@[n0 + t] == self.acceptor_structures@[before.len() as int]);
                    }
                }
                assert forall|i: int| 0 <= i < n0 implies #[trigger] self.acceptor_structures@[i] == a0[i] by {
                    assert(self.acceptor_structures@[i] == before[i]);
                }
            }
            j = j + 1;
        }
    }
}

/// `after` is `before` with a factory structure grown over every factory cell it did
/// not own (see `append_connected_factory_structures`).
pub open spec fn factory_grown(before: StructureState, after: StructureState, v: Map<Cell, FactoryLink>, factory: Set<Cell>) -> bool {
    &&& after.wf()
    &&& after.held() == before.held()
    &&& after.moving() == before.moving()
    &&& before.last_id() <= after.last_id()
    &&& forall|k: u64| #[trigger] before.table().contains_key(k) ==> after.table().contains_key(k)
        && after.table()[k] == before.table()[k]
    &&& forall|k: u64| #[trigger] after.table().contains_key(k) && !before.table().contains_key(k)
        ==> before.last_id() < k <= after.last_id() && grown_factory(after.table()[k], v, factory)
    &&& forall|p: Cell| #[trigger] after.index().contains_key(p) <==> (before.index().contains_key(p) || exists|c: Cell|
        factory.contains(c) && !before.index().contains_key(c) && #[trigger] factory_reach(v, factory, None, c).contains(p))
    &&& forall|p: Cell| #[trigger] before.index().contains_key(p) ==> after.index()[p] == before.index()[p]
    &&& closed_under_steps(v, factory, after.index().dom())
    &&& after.head_counter() == before.head_counter()
    &&& after.acceptors() == before.acceptors()
    &&& after.last_id() <= before.last_id() + factory.len()
}

/// `after` is `before` with every factory structure refreshed from the scene.
pub open spec fn all_refreshed(before: StructureState, after: StructureState, v: Map<Cell, FactoryLink>, scene: Set<Cell>) -> bool {
    &&& after.wf()
    &&& after.index() == before.index()
    &&& after.last_id() == before.last_id()
    &&& after.held() == before.held()
    &&& after.moving() == before.moving()
    &&& after.table().dom() == before.table().dom()
    &&& after.head_counter() == before.head_counter()
    &&& after.acceptors() == before.acceptors()
    &&& forall|k: u64| #[trigger] before.table().contains_key(k) ==> if before.table()[k].kind == StructureKind::Factory {
        scene_refreshed(before.table()[k], after.table()[k], v, scene)
    } else {
        after.table()[k] == before.table()[k]
    }
}

/// `after` is `before` with the deformation of the factory structures among `ids` rebuilt.
pub open spec fn some_deform_rebuilt(
    before: StructureState,
    after: StructureState,
    m: Map<Cell, DeformBlock>,
    scene: Set<Cell>,
    next_block_id: u64,
    ids: Set<StructureId>,
) -> bool {
    &&& after.wf()
    &&& after.index() == before.index()
    &&& after.last_id() == before.last_id()
    &&& after.held() == before.held()
    &&& after.moving() == before.moving()
    &&& after.table().dom() == before.table().dom()
    &&& before.head_counter() <= after.head_counter()
    &&& after.acceptors() == before.acceptors()
    &&& forall|k: u64| #[trigger] before.table().contains_key(k) ==> if ids.contains(StructureId(k)) && before.table()[k].kind
        == StructureKind::Factory {
        exists|n0: u64, n1: u64| #[trigger] deform_rebuilt(before.table()[k], after.table()[k], m, scene, n0, n1)
            && synced_counter(before.head_counter(), next_block_id) <= n0 <= n1 <= after.head_counter()
    } else {
        after.table()[k] == before.table()[k]
    }
}

/// `after` is `before` with the deformation of every factory structure rebuilt.
pub open spec fn all_deform_rebuilt(before: StructureState, after: StructureState, m: Map<Cell, DeformBlock>, scene: Set<Cell>, next_block_id: u64) -> bool {
    &&& after.wf()
    &&& after.index() == before.index()
    &&& after.last_id() == before.last_id()
    &&& after.held() == before.held()
    &&& after.moving() == before.moving()
    &&& after.table().dom() == before.table().dom()
    &&& before.head_counter() <= after.head_counter()
    &&& after.acceptors() == before.acceptors()
    &&& forall|k: u64| #[trigger] before.table().contains_key(k) ==> if before.table()[k].kind == StructureKind::Factory {
        exists|n0: u64, n1: u64| #[trigger] deform_rebuilt(before.table()[k], after.table()[k], m, scene, n0, n1)
            && synced_counter(before.head_counter(), next_block_id) <= n0 <= n1 <= after.head_counter()
    } else {
        after.table()[k] == before.table()[k]
    }
}

/// `after` is `before` with an acceptor structure appended for each stored one.
pub open spec fn acceptors_appended(before: StructureState, after: StructureState, stored: Seq<StoredAcceptorStructure>) -> bool {
    &&& after.table() == before.table()
    &&& after.index() == before.index()
    &&& after.last_id() == before.last_id()
    &&& after.head_counter() == before.head_counter()
    &&& after.held() == before.held()
    &&& after.moving() == before.moving()
    &&& after.wf() == before.wf()
    &&& after.acceptors().len() == before.acceptors().len() + stored.len()
    &&& forall|i: int| 0 <= i < before.acceptors().len() ==> #[trigger] after.acceptors()[i] == before.acceptors()[i]
    &&& forall|j: int| #![trigger stored[j]] 0 <= j < stored.len() ==> {
        let a = after.acceptors()[before.acceptors().len() + j];
        &&& a.id == stored[j].id
        &&& a.positions.wf()
        &&& a.positions@ == stored[j].positions@.to_set()
        &&& a.count == 0
    }
}


/// A table with no structure and no acceptor, no move held, and the given head counter.
pub open spec fn fresh_table(st: StructureState, head_counter: u64) -> bool {
    &&& st.wf()
    &&& st.table() == Map::<u64, Structure>::empty()
    &&& st.index() == Map::<Cell, StructureId>::empty()
    &&& st.last_id() == 0
    &&& st.held() == Set::<u64>::empty()
    &&& st.moving() == Set::<u64>::empty()
    &&& st.acceptors() == Seq::<AcceptorStructure>::empty()
    &&& st.head_counter() == head_counter
}

impl StructureState {
    /// Forgets everything but the head counter, which is brought up to the world's next
    /// block identity (and to one), so that no head identity is handed out twice.
    pub fn reset_for_rebuild(&mut self, next_block_id: u64)
        ensures
            fresh_table(*final(self), synced_counter(old(self).head_counter(), next_block_id)),
    {
        let mut counter = self.next_head_id;
        if counter < next_block_id {
            counter = next_block_id;
        }
        if counter < 1 {
            counter = 1;
        }
        *self = StructureState::new();
        self.next_head_id = counter;
    }
}


impl StructureState {
    /// Forgets the acceptor structures, keeping everything else.
    pub fn clear_acceptor_structures(&mut self)
        ensures
            final(self).table() == old(self).table(),
            final(self).index() == old(self).index(),
            final(self).last_id() == old(self).last_id(),
            final(self).head_counter() == old(self).head_counter(),
            final(self).held() == old(self).held(),
            final(self).moving() == old(self).moving(),
            final(self).wf() == old(self).wf(),
            final(self).acceptors() == Seq::<AcceptorStructure>::empty(),
    {
        self.acceptor_structures.clear();
    }

    /// Whether some structure is a factory structure.
    pub fn has_factory_structure(&self) -> (r: bool)
        ensures
            r == exists|k: u64| #[trigger] self.table().contains_key(k) && self.table()[k].kind == StructureKind::Factory,
    {
        let ids = self.structure_ids();
        let mut i: usize = 0;
        while i < ids.len()
            invariant
                i <= ids@.len(),
                forall|id: StructureId| ids@.contains(id) <==> self.table().contains_key(id.0),
                forall|j: int| 0 <= j < i ==> self.table()[(#[trigger] ids@[j]).0].kind != StructureKind::Factory,
            decreases ids@.len() - i,
        {
            let id = ids[i];
            proof {
                assert(ids@.contains(id));
            }
            let is_factory = match self.get(id) {
                Some(s) => s.kind == StructureKind::Factory,
                None => false,
            };
            if is_factory {
                return true;
            }
            i = i + 1;
        }
        proof {
            assert forall|k: u64| #[trigger] self.table().contains_key(k) implies self.table()[k].kind != StructureKind::Factory by {
                assert(ids@.contains(StructureId(k)));
                let j = choose|j: int| 0 <= j < ids@.len() && ids@[j] == StructureId(k);
            }
        }
        false
    }
}


/// Two listings of the pushers of the same cells agree on every body, cell and
/// direction.
proof fn lemma_pushers_unique(m: Map<Cell, DeformBlock>, cells: Set<Cell>, p: Seq<DeformPusher>, q: Seq<DeformPusher>)
    requires
        ids_unique(m),
        pushers_of(m, cells, p),
        pushers_of(m, cells, q),
    ensures
        p.len() == q.len(),
        forall|k: int| 0 <= k < p.len() ==> #[trigger] p[k].body == q[k].body && p[k].at == q[k].at && p[k].dir == q[k].dir,
{
    let pb = p.map_values(|x: DeformPusher| x.body);
    let qb = q.map_values(|x: DeformPusher| x.body);
    assert(crate::materials::ids_sorted(pb)) by {
        assert forall|a: int, b: int| 0 <= a < b < pb.len() implies pb[a] < pb[b] by {
            assert(p[a].body < p[b].body);
        }
    }
    assert(crate::materials::ids_sorted(qb)) by {
        assert forall|a: int, b: int| 0 <= a < b < qb.len() implies qb[a] < qb[b] by {
            assert(q[a].body < q[b].body);
        }
    }
    assert forall|x: u64| pb.contains(x) <==> qb.contains(x) by {
        if pb.contains(x) {
            let k = choose|k: int| 0 <= k < pb.len() && pb[k] == x;
            assert(crate::deform_graph::is_body_cell(m, cells, p[k].at));
            let j = choose|j: int| #![trigger q[j]] 0 <= j < q.len() && q[j].at == p[k].at;
            assert(qb[j] == x);
        }
        if qb.contains(x) {
            let k = choose|k: int| 0 <= k < qb.len() && qb[k] == x;
            assert(crate::deform_graph::is_body_cell(m, cells, q[k].at));
            let j = choose|j: int| #![trigger p[j]] 0 <= j < p.len() && p[j].at == q[k].at;
            assert(pb[j] == x);
        }
    }
    crate::materials::lemma_sorted_unique(pb, qb);
    assert forall|k: int| 0 <= k < p.len() implies #[trigger] p[k].body == q[k].body && p[k].at == q[k].at && p[k].dir == q[k].dir by {
        assert(pb[k] == qb[k]);
        assert(m.contains_key(p[k].at) && m.contains_key(q[k].at));
        if p[k].at != q[k].at {
            assert(m[p[k].at].id != m[q[k].at].id);
        }
    }
}

/// Rebuilding the deformation of a structure whose blocks did not change keeps the
/// head of every pusher.
pub proof fn lemma_rebuild_keeps_heads(
    s0: Structure,
    s1: Structure,
    s2: Structure,
    m: Map<Cell, DeformBlock>,
    scene: Set<Cell>,
    a0: u64,
    a1: u64,
    b0: u64,
    b1: u64,
)
    requires
        ids_unique(m),
        deform_rebuilt(s0, s1, m, scene, a0, a1),
        deform_rebuilt(s1, s2, m, scene, b0, b1),
    ensures
        s2.head_of@ == s1.head_of@,
{
    let cells = s0.positions@;
    let p1 = choose|ps: Seq<DeformPusher>| #[trigger] pushers_of(m, cells, ps) && heads_fresh(s0.head_of@, ps, a0, a1)
        && s1.head_of@ == ps.map_values(|p: DeformPusher| (BlockId(p.body), BlockId(p.head))) && exists|g: DeformGraph|
        g.pushers@ == ps && (forall|a: u64, b: u64| #[trigger] g.links@.contains((a, b)) <==> graph_link(m, cells, ps, a, b)) && groups_of(
        s1.deform_groups@,
        &g,
    );
    let p2 = choose|ps: Seq<DeformPusher>| #[trigger] pushers_of(m, cells, ps) && heads_fresh(s1.head_of@, ps, b0, b1)
        && s2.head_of@ == ps.map_values(|p: DeformPusher| (BlockId(p.body), BlockId(p.head))) && exists|g: DeformGraph|
        g.pushers@ == ps && (forall|a: u64, b: u64| #[trigger] g.links@.contains((a, b)) <==> graph_link(m, cells, ps, a, b)) && groups_of(
        s2.deform_groups@,
        &g,
    );
    lemma_pushers_unique(m, cells, p1, p2);
    let prev = s1.head_of@;
    assert forall|k: int| 0 <= k < p2.len() implies #[trigger] p2[k].head == p1[k].head by {
        let b = p2[k].body;
        assert(p1[k].body == b);
        assert(prev[k] == (BlockId(p1[k].body), BlockId(p1[k].head)));
        assert forall|j: int| 0 <= j < k implies (#[trigger] prev[j]).0.0 != b by {
            assert(prev[j].0.0 == p1[j].body);
            assert(p1[j].body < p1[k].body);
        }
        assert(prev_head(prev, b, p1[k].head));
        assert(had_head(prev, b));
        assert(prev_head(prev, b, p2[k].head));
        let i = choose|i: int| #![trigger prev[i]] 0 <= i < prev.len() && prev[i].0.0 == b && prev[i].1.0 == p2[k].head
            && forall|j: int| 0 <= j < i ==> (#[trigger] prev[j]).0.0 != b;
        if i < k {
            assert(prev[i].0.0 == p1[i].body);
            assert(p1[i].body < p1[k].body);
        } else if i > k {
            assert(prev[k].0.0 == b);
        }
    }
    assert(s2.head_of@ =~= s1.head_of@) by {
        assert forall|k: int| 0 <= k < s2.head_of@.len() implies s2.head_of@[k] == s1.head_of@[k] by {
            assert(p2[k].body == p1[k].body);
            assert(p2[k].head == p1[k].head);
        }
    }
}


impl StructureState {
    /// What a pusher at `pusher_pos` pushes whole when it pushes the block at
    /// `target_pos` by `offset`: the cells of the target's factory structure, when that
    /// is another structure than the pusher's, anchored to nothing and free to move.  A
    /// pusher's own structure deforms instead (`None`), and so does anything else.
    pub fn pusher_target_structure(&self, pusher_pos: Cell, target_pos: Cell, offset: Cell) -> (r: Option<CellSet>)
        requires
            self.wf(),
        ensures
            r is Some <==> (match (self.structure_at(target_pos), self.structure_at(pusher_pos)) {
                (Some(t), Some(a)) => t.kind == StructureKind::Factory && a.id != t.id && t.scene_touching@ == Set::<Cell>::empty()
                    && t.freedom == StructureFreedom::All,
                _ => false,
            }),
            r matches Some(c) ==> c.wf() && c@ == self.structure_at(target_pos)->0.positions@,
    {
        proof {
            self.lemma_wf_facts();
        }
        let target = match self.structure(target_pos) {
            Some(t) => t,
            None => return None,
        };
        if target.kind != StructureKind::Factory {
            return None;
        }
        let actor_id = match self.id_at(pusher_pos) {
            Some(id) => id,
            None => return None,
        };
        proof {
            assert(self.structure_at(pusher_pos)->0.id == actor_id);
        }
        if actor_id.0 != target.id.0 {
            if !target.is_pushable() || !target.freedom.can_translate(offset) {
                return None;
            }
            return Some(target.positions.clone());
        }
        None
    }
}


/// `after` is `before` without the structures `ids`: their entries and the cells they
/// owned are gone, everything else is kept.
pub open spec fn structures_removed(before: StructureState, after: StructureState, ids: Set<StructureId>) -> bool {
    &&& after.wf()
    &&& forall|k: u64| #[trigger] after.table().contains_key(k) == (before.table().contains_key(k) && !ids.contains(StructureId(k)))
    &&& forall|k: u64| #[trigger] after.table().contains_key(k) ==> after.table()[k] == before.table()[k]
    &&& after.index() == without_owners(before.index(), ids)
    &&& after.last_id() == before.last_id()
    &&& after.held() == before.held()
    &&& after.moving() == before.moving()
    &&& after.head_counter() == before.head_counter()
    &&& after.acceptors() == before.acceptors()
}

impl StructureState {
    /// Drops the structures `ids`, with their cells.
    pub(crate) fn remove_structures(&mut self, ids: &Vec<StructureId>)
        requires
            old(self).wf(),
            forall|j: int| 0 <= j < ids@.len() ==> old(self).table().contains_key(#[trigger] ids@[j].0),
        ensures
            structures_removed(*old(self), *final(self), ids@.to_set()),
    {
        proof {
            self.lemma_wf_facts();
        }
        let ghost idx0 = self.structure_by_pos@;
        let ghost tab0 = self.structures@;
        self.unindex(ids);
        let mut j: usize = 0;
        while j < ids.len()
            invariant
                j <= ids@.len(),
                self.structure_by_pos.wf(),
                self.structure_by_pos@ == without_owners(idx0, ids@.to_set()),
                self.next_structure_id == old(self).next_structure_id,
                self.held_blocks@ == old(self).held_blocks@,
                self.next_head_id == old(self).next_head_id,
                self.acceptor_structures@ == old(self).acceptor_structures@,
                self.moving_structures@ == old(self).moving_structures@,
                forall|k: u64| #[trigger] self.structures@.contains_key(k) == (tab0.contains_key(k) && !ids@.take(j as int).contains(StructureId(k))),
                forall|k: u64| #[trigger] self.structures@.contains_key(k) ==> self.structures@[k] == tab0[k],
            decreases ids@.len() - j,
        {
            let id = ids[j];
            self.structures.remove(&id.0);
            proof {
                assert forall|k: u64| #[trigger] self.structures@.contains_key(k) == (tab0.contains_key(k) && !ids@.take(j + 1).contains(StructureId(k))) by {
                    assert(ids@.take(j + 1) =~= ids@.take(j as int).push(id));
                    if ids@.take(j + 1).contains(StructureId(k)) && !ids@.take(j as int).contains(StructureId(k)) {
                        let t = choose|t: int| 0 <= t < j + 1 && #[trigger] ids@.take(j + 1)[t] == StructureId(k);
                        if t < j {
                            assert(ids@.take(j as int)[t] == StructureId(k));
                        }
                    }
                    if ids@.take(j as int).contains(StructureId(k)) {
                        let t = choose|t: int| 0 <= t < j && #[trigger] ids@.take(j as int)[t] == StructureId(k);
                        assert(ids@.take(j + 1)[t] == StructureId(k));
                    }
                    if k == id.0 {
                        assert(StructureId(k) == id);
                        assert(ids@.take(j + 1)[j as int] == id);
                    }
                }
            }
            j = j + 1;
        }
        proof {
            assert(ids@.take(j as int) =~= ids@);
            assert forall|k: u64| #[trigger] self.structures@.contains_key(k) implies entry_ok(
                k,
                self.structures@[k],
                self.next_structure_id,
                self.structure_by_pos@,
            ) by {
                let st = tab0[k];
                assert(entry_ok(k, st, old(self).next_structure_id, idx0));
                assert forall|p: Cell| #[trigger] st.positions@.contains(p) implies self.structure_by_pos@.contains_key(p)
                    && self.structure_by_pos@[p] == st.id by {
                    assert(idx0[p] == st.id);
                    assert(st.id == StructureId(k));
                    assert(ids@.to_set().contains(st.id) == ids@.contains(st.id));
                }
            }
            assert forall|p: Cell| #[trigger] self.structure_by_pos@.contains_key(p) implies {
                let sid = self.structure_by_pos@[p];
                &&& self.structures@.contains_key(sid.0)
                &&& self.structures@[sid.0].positions@.contains(p)
            } by {
                let sid = idx0[p];
                assert(idx0.contains_key(p));
                assert(ids@.to_set().contains(sid) == ids@.contains(sid));
                assert(!ids@.contains(sid));
                assert(tab0.contains_key(sid.0));
                assert(tab0[sid.0].positions@.contains(p));
                assert(StructureId(sid.0) == sid);
                assert(self.structures@.contains_key(sid.0));
            }
            assert forall|k: u64| #[trigger] self.table().contains_key(k) == (old(self).table().contains_key(k) && !ids@.to_set().contains(StructureId(k))) by {
                assert(ids@.to_set().contains(StructureId(k)) == ids@.contains(StructureId(k)));
            }
        }
    }
}


/// The structures of kind `kind` owning one of `cells`.
pub open spec fn owners_of_kind(st: StructureState, cells: Set<Cell>, kind: StructureKind) -> Set<StructureId> {
    Set::new(
        |id: StructureId|
            exists|p: Cell| #[trigger] cells.contains(p) && st.index().contains_key(p) && st.index()[p] == id
                && st.table()[id.0].kind == kind,
    )
}

pub(crate) fn vec_has_id(v: &Vec<StructureId>, id: StructureId) -> (r: bool)
    ensures
        r == v@.contains(id),
{
    let mut i: usize = 0;
    while i < v.len()
        invariant
            i <= v@.len(),
            forall|j: int| 0 <= j < i ==> v@[j] != id,
        decreases v@.len() - i,
    {
        if v[i].0 == id.0 {
            proof {
                assert(v@[i as int] == id);
            }
            return true;
        }
        i = i + 1;
    }
    false
}

impl StructureState {
    /// Adds to `ids` the owner of `pos`, when it is a structure of kind `kind` not yet
    /// listed.
    pub(crate) fn note_owner(&self, ids: &mut Vec<StructureId>, pos: Cell, kind: StructureKind, Ghost(cells): Ghost<Set<Cell>>)
        requires
            self.wf(),
            old(ids)@.no_duplicates(),
            old(ids)@.to_set() == owners_of_kind(*self, cells, kind),
        ensures
            final(ids)@.no_duplicates(),
            final(ids)@.to_set() == owners_of_kind(*self, cells.insert(pos), kind),
    {
        let ghost before = ids@;
        let mut add: Option<StructureId> = None;
        match self.id_at(pos) {
            Some(id) => {
                match self.get(id) {
                    Some(s) => {
                        if s.kind == kind && !vec_has_id(ids, id) {
                            add = Some(id);
                        }
                    },
                    None => {},
                }
            },
            None => {},
        }
        match add {
            Some(id) => {
                ids.push(id);
            },
            None => {},
        }
        proof {
            self.lemma_wf_facts();
            before.lemma_push_to_set_commute(pos_owner(*self, pos));
            assert forall|id: StructureId| #[trigger] ids@.to_set().contains(id) <==> owners_of_kind(*self, cells.insert(pos), kind).contains(id) by {
                if owners_of_kind(*self, cells.insert(pos), kind).contains(id) {
                    let p = choose|p: Cell| #[trigger] cells.insert(pos).contains(p) && self.index().contains_key(p) && self.index()[p] == id
                        && self.table()[id.0].kind == kind;
                    if p != pos {
                        assert(owners_of_kind(*self, cells, kind).contains(id));
                        assert(before.to_set().contains(id));
                        assert(before.contains(id));
                    } else if !before.contains(id) {
                        assert(add == Some(id));
                        assert(ids@ == before.push(id));
                        assert(ids@[before.len() as int] == id);
                    }
                    if before.contains(id) {
                        let t = choose|t: int| 0 <= t < before.len() && before[t] == id;
                        assert(ids@[t] == id);
                    }
                    assert(ids@.contains(id));
                }
                if ids@.to_set().contains(id) {
                    if before.contains(id) {
                        assert(before.to_set().contains(id));
                        assert(owners_of_kind(*self, cells, kind).contains(id));
                        let p = choose|p: Cell| #[trigger] cells.contains(p) && self.index().contains_key(p) && self.index()[p] == id
                            && self.table()[id.0].kind == kind;
                        assert(cells.insert(pos).contains(p));
                    } else {
                        assert(add == Some(id));
                        assert(cells.insert(pos).contains(pos));
                    }
                }
            }
            assert(ids@.to_set() =~= owners_of_kind(*self, cells.insert(pos), kind));
        }
    }
}

/// The structure owning `pos` in the index (meaningful when `pos` is indexed).
pub open spec fn pos_owner(st: StructureState, pos: Cell) -> StructureId {
    st.index()[pos]
}

} // verus!
