//! Cell velocity claims of one turn: a moving cell claims its start and end cell;
//! equal velocities on one cell are compatible, different ones conflict.
use vstd::prelude::*;

use crate::cell::Cell;
use crate::cellmap::{CellMap, CellSet};

verus! {

/// Footprint of translating the listed cells by `offset`: each cell claims its start,
/// and its end too when the offset is non-zero, all with velocity `offset`.
pub open spec fn footprint_spec(cells: Seq<Cell>, offset: Cell) -> Seq<(Cell, Cell)>
    decreases cells.len(),
{
    if cells.len() == 0 {
        Seq::empty()
    } else {
        let rest = footprint_spec(cells.drop_last(), offset);
        let p = cells.last();
        if offset == Cell::zero_spec() {
            rest.push((p, offset))
        } else {
            rest.push((p, offset)).push((p.plus(offset), offset))
        }
    }
}

/// Every entry agrees with the claims already made on its cell.
pub open spec fn compatible_spec(claims: Map<Cell, Cell>, footprint: Seq<(Cell, Cell)>) -> bool {
    forall|i: int|
        0 <= i < footprint.len() ==> (#[trigger] claims.contains_key(footprint[i].0) ==> claims[footprint[i].0]
            == footprint[i].1)
}

/// The claims after writing each entry in order.
pub open spec fn claim_all(claims: Map<Cell, Cell>, footprint: Seq<(Cell, Cell)>) -> Map<Cell, Cell>
    decreases footprint.len(),
{
    if footprint.len() == 0 {
        claims
    } else {
        claim_all(claims, footprint.drop_last()).insert(footprint.last().0, footprint.last().1)
    }
}

/// Velocity claims on cells for one turn.
pub struct MovingOccupancy {
    claims: CellMap<Cell>,
}

impl MovingOccupancy {
    pub closed spec fn wf(&self) -> bool {
        self.claims.wf()
    }

    /// Claimed velocity of each cell.
    pub closed spec fn view(&self) -> Map<Cell, Cell> {
        self.claims@
    }

    pub fn new() -> (o: MovingOccupancy)
        ensures
            o.wf(),
            o@ == Map::<Cell, Cell>::empty(),
    {
        MovingOccupancy { claims: CellMap::new() }
    }

    /// The velocity claimed on `cell`.
    pub fn velocity_at(&self, cell: Cell) -> (r: Option<Cell>)
        requires
            self.wf(),
        ensures
            r == (if self@.contains_key(cell) { Some(self@[cell]) } else { None::<Cell> }),
    {
        self.claims.get(cell)
    }

    /// Start and end claims of translating `structure` by `offset`.
    pub fn translate_footprint(structure: &CellSet, offset: Cell) -> (r: Vec<(Cell, Cell)>)
        requires
            structure.wf(),
            forall|p: Cell| structure@.contains(p) ==> p.add_fits(offset),
        ensures
            r@ == footprint_spec(structure.elems(), offset),
    {
        let cells = structure.to_vec();
        proof {
            structure.lemma_elems();
        }
        let mut out: Vec<(Cell, Cell)> = Vec::new();
        let zero = Cell::zero();
        let mut i: usize = 0;
        while i < cells.len()
            invariant
                cells@ == structure.elems(),
                structure@ == structure.elems().to_set(),
                forall|p: Cell| structure@.contains(p) ==> p.add_fits(offset),
                zero == Cell::zero_spec(),
                i <= cells@.len(),
                out@ == footprint_spec(cells@.take(i as int), offset),
            decreases cells@.len() - i,
        {
            let p = cells[i];
            assert(structure@.contains(p));
            out.push((p, offset));
            if offset != zero {
                out.push((p.add(offset), offset));
            }
            proof {
                assert(cells@.take(i + 1).drop_last() =~= cells@.take(i as int));
            }
            i = i + 1;
        }
        assert(cells@.take(i as int) =~= cells@);
        out
    }

    /// Whether every entry agrees with the existing claim on its cell.
    /// Whether `cell` may be entered at `velocity` by a move of the cells `moving`:
    /// never below the ground; always inside the moving set; else a claim there must
    /// have the same velocity; with no claim, the world decides (`world_allows`: the
    /// cell accepts the move, is free, holds a fragile material or a pusher head).
    pub fn cell_allows_entry(&self, cell: Cell, velocity: Cell, moving: &CellSet, world_allows: bool) -> (r: bool)
        requires
            self.wf(),
            moving.wf(),
        ensures
            r == if cell.y < 0 {
                false
            } else if moving@.contains(cell) {
                true
            } else if self@.contains_key(cell) {
                self@[cell] == velocity
            } else {
                world_allows
            },
    {
        if cell.y < 0 {
            return false;
        }
        if moving.contains(cell) {
            return true;
        }
        match self.velocity_at(cell) {
            Some(existing) => existing == velocity,
            None => world_allows,
        }
    }

    pub fn compatible_with(&self, footprint: &[(Cell, Cell)]) -> (r: bool)
        requires
            self.wf(),
        ensures
            r == compatible_spec(self@, footprint@),
    {
        let mut i: usize = 0;
        while i < footprint.len()
            invariant
                self.wf(),
                i <= footprint@.len(),
                forall|j: int|
                    0 <= j < i ==> (#[trigger] self@.contains_key(footprint@[j].0) ==> self@[footprint@[j].0]
                        == footprint@[j].1),
            decreases footprint@.len() - i,
        {
            let (cell, velocity) = footprint[i];
            match self.claims.get(cell) {
                Some(existing) => {
                    if existing != velocity {
                        assert(self@.contains_key(footprint@[i as int].0));
                        return false;
                    }
                },
                None => {},
            }
            i = i + 1;
        }
        true
    }

    /// Claims every entry when all are compatible; otherwise changes nothing.
    pub fn claim(&mut self, footprint: &[(Cell, Cell)]) -> (r: bool)
        requires
            old(self).wf(),
        ensures
            final(self).wf(),
            r == compatible_spec(old(self)@, footprint@),
            r ==> final(self)@ == claim_all(old(self)@, footprint@),
            !r ==> final(self)@ == old(self)@,
    {
        if !self.compatible_with(footprint) {
            return false;
        }
        let mut i: usize = 0;
        while i < footprint.len()
            invariant
                self.wf(),
                i <= footprint@.len(),
                self@ == claim_all(old(self)@, footprint@.take(i as int)),
            decreases footprint@.len() - i,
        {
            let (cell, velocity) = footprint[i];
            self.claims.insert(cell, velocity);
            proof {
                assert(footprint@.take(i + 1).drop_last() =~= footprint@.take(i as int));
            }
            i = i + 1;
        }
        assert(footprint@.take(i as int) =~= footprint@);
        true
    }
}

/// A successful claim never changes the velocity already claimed on a cell, and every
/// entry's cell is claimed afterwards.
pub proof fn lemma_claim_keeps_existing(claims: Map<Cell, Cell>, footprint: Seq<(Cell, Cell)>)
    requires
        compatible_spec(claims, footprint),
    ensures
        forall|c: Cell|
            #[trigger] claims.contains_key(c) ==> claim_all(claims, footprint).contains_key(c)
                && claim_all(claims, footprint)[c] == claims[c],
        forall|i: int|
            0 <= i < footprint.len() ==> claim_all(claims, footprint).contains_key(
                #[trigger] footprint[i].0,
            ),
    decreases footprint.len(),
{
    if footprint.len() > 0 {
        let f0 = footprint.drop_last();
        assert(compatible_spec(claims, f0)) by {
            assert forall|i: int| 0 <= i < f0.len() && #[trigger] claims.contains_key(f0[i].0)
                implies claims[f0[i].0] == f0[i].1 by {
                assert(f0[i] == footprint[i]);
            }
        }
        lemma_claim_keeps_existing(claims, f0);
        let last = footprint.last();
        assert(claims.contains_key(last.0) ==> claims[last.0] == last.1) by {
            assert(footprint[footprint.len() - 1] == last);
        }
        assert forall|i: int| 0 <= i < footprint.len() implies claim_all(claims, footprint).contains_key(
            #[trigger] footprint[i].0,
        ) by {
            if i < footprint.len() - 1 {
                assert(f0[i] == footprint[i]);
            }
        }
    }
}

/// The footprint of a non-zero translation claims each moving cell and its target.
pub proof fn lemma_footprint_covers(cells: Seq<Cell>, offset: Cell, i: int)
    requires
        0 <= i < cells.len(),
    ensures
        footprint_spec(cells, offset).contains((cells[i], offset)),
        offset != Cell::zero_spec() ==> footprint_spec(cells, offset).contains(
            (cells[i].plus(offset), offset),
        ),
        forall|j: int|
            0 <= j < footprint_spec(cells, offset).len() ==> (#[trigger] footprint_spec(cells, offset)[j]).1
                == offset,
    decreases cells.len(),
{
    let rest = footprint_spec(cells.drop_last(), offset);
    let f = footprint_spec(cells, offset);
    if i < cells.len() - 1 {
        lemma_footprint_covers(cells.drop_last(), offset, i);
        assert(cells.drop_last()[i] == cells[i]);
        let k = choose|k: int| 0 <= k < rest.len() && rest[k] == (cells[i], offset);
        assert(f[k] == rest[k]);
        if offset != Cell::zero_spec() {
            let k2 = choose|k2: int| 0 <= k2 < rest.len() && rest[k2] == (cells[i].plus(offset), offset);
            assert(f[k2] == rest[k2]);
        }
    } else {
        if offset == Cell::zero_spec() {
            assert(f[f.len() - 1] == (cells[i], offset));
        } else {
            assert(f[f.len() - 2] == (cells[i], offset));
            assert(f[f.len() - 1] == (cells[i].plus(offset), offset));
        }
    }
    if cells.len() > 1 {
        lemma_footprint_covers(cells.drop_last(), offset, 0);
    }
    assert forall|j: int| 0 <= j < f.len() implies (#[trigger] f[j]).1 == offset by {
        if j < rest.len() {
            assert(f[j] == rest[j]);
            if cells.len() <= 1 {
                assert(rest.len() == 0);
            }
        }
    }
}

} // verus!
