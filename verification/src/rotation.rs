//! Committing a quarter turn of a structure about a vertical line: the blocks move to
//! their turned cells and turn with them, the face attachments of their blocks turn,
//! and the structure table takes the turned cells.
use vstd::prelude::*;

use crate::cell::{rotate_offset_fits, rotate_offset_y, rotate_offset_y_spec, rotate_pos_fits, rotate_pos_y, rotate_pos_y_spec, Cell};
use crate::cellmap::{CellMap, CellSet};
use crate::deform_graph::DeformBlock;
use crate::ids::{BlockId, MaterialAttachment, MaterialFace, PaintMaterialId, StampMaterialId};
use crate::rebuild::StructureWorld;
use crate::structure_state::StructureState;

verus! {

/// `m` with every source of `moves` removed, then every move's value placed at its
/// target, in order.
pub open spec fn relocated<V>(m: Map<Cell, V>, moves: Seq<(Cell, Cell, V)>) -> Map<Cell, V> {
    placed(m.remove_keys(moves.map_values(|mv: (Cell, Cell, V)| mv.0).to_set()), moves)
}

/// `m` with the value of each move placed at its target, in order.
pub open spec fn placed<V>(m: Map<Cell, V>, moves: Seq<(Cell, Cell, V)>) -> Map<Cell, V>
    decreases moves.len(),
{
    if moves.len() == 0 {
        m
    } else {
        placed(m, moves.drop_last()).insert(moves.last().1, moves.last().2)
    }
}

/// Moves the values of `m` as `moves` says (see [`relocated`]).
pub fn relocate_map<V: Copy>(m: &mut CellMap<V>, moves: &Vec<(Cell, Cell, V)>)
    requires
        old(m).wf(),
    ensures
        final(m).wf(),
        final(m)@ == relocated(old(m)@, moves@),
{
    let ghost froms = moves@.map_values(|mv: (Cell, Cell, V)| mv.0);
    let mut i: usize = 0;
    while i < moves.len()
        invariant
            m.wf(),
            i <= moves@.len(),
            froms == moves@.map_values(|mv: (Cell, Cell, V)| mv.0),
            m@ == old(m)@.remove_keys(froms.take(i as int).to_set()),
        decreases moves@.len() - i,
    {
        let (from, _, _) = moves[i];
        m.remove(from);
        proof {
            assert(froms.take(i + 1) =~= froms.take(i as int).push(from));
            froms.take(i as int).lemma_push_to_set_commute(from);
            assert(m@ =~= old(m)@.remove_keys(froms.take(i + 1).to_set()));
        }
        i = i + 1;
    }
    proof {
        assert(froms.take(i as int) =~= froms);
    }
    let ghost base = m@;
    let mut j: usize = 0;
    while j < moves.len()
        invariant
            m.wf(),
            j <= moves@.len(),
            m@ == placed(base, moves@.take(j as int)),
        decreases moves@.len() - j,
    {
        let (_, to, v) = moves[j];
        m.insert(to, v);
        proof {
            assert(moves@.take(j + 1).drop_last() =~= moves@.take(j as int));
        }
        j = j + 1;
    }
    proof {
        assert(moves@.take(j as int) =~= moves@);
    }
}

/// The set of cells that hold a value of [`relocated`].
pub fn relocate_set(s: &mut CellSet, moves: &Vec<(Cell, Cell, bool)>)
    requires
        old(s).wf(),
    ensures
        final(s).wf(),
        final(s)@ == relocated(Map::new(|c: Cell| old(s)@.contains(c), |c: Cell| true), moves@).dom(),
{
    let ghost froms = moves@.map_values(|mv: (Cell, Cell, bool)| mv.0);
    let ghost m0 = Map::new(|c: Cell| old(s)@.contains(c), |c: Cell| true);
    let mut i: usize = 0;
    while i < moves.len()
        invariant
            s.wf(),
            i <= moves@.len(),
            froms == moves@.map_values(|mv: (Cell, Cell, bool)| mv.0),
            m0 == Map::new(|c: Cell| old(s)@.contains(c), |c: Cell| true),
            s@ == m0.remove_keys(froms.take(i as int).to_set()).dom(),
        decreases moves@.len() - i,
    {
        let (from, _, _) = moves[i];
        s.remove(from);
        proof {
            assert(froms.take(i + 1) =~= froms.take(i as int).push(from));
            froms.take(i as int).lemma_push_to_set_commute(from);
            assert(s@ =~= m0.remove_keys(froms.take(i + 1).to_set()).dom());
        }
        i = i + 1;
    }
    proof {
        assert(froms.take(i as int) =~= froms);
    }
    let ghost base = m0.remove_keys(froms.to_set());
    let mut j: usize = 0;
    while j < moves.len()
        invariant
            s.wf(),
            j <= moves@.len(),
            s@ == placed(base, moves@.take(j as int)).dom(),
        decreases moves@.len() - j,
    {
        let (_, to, _) = moves[j];
        s.insert(to);
        proof {
            assert(moves@.take(j + 1).drop_last() =~= moves@.take(j as int));
            assert(s@ =~= placed(base, moves@.take(j + 1)).dom());
        }
        j = j + 1;
    }
    proof {
        assert(moves@.take(j as int) =~= moves@);
    }
}

/// A block turned a quarter about the vertical axis: its facing, push and sealed face turn.
pub open spec fn turned_block(b: DeformBlock, cw: bool) -> DeformBlock {
    DeformBlock {
        id: b.id,
        push: match b.push {
            Some(d) => Some(rotate_offset_y_spec(d, cw)),
            None => None,
        },
        forward: rotate_offset_y_spec(b.forward, cw),
        head: b.head,
        sealed: match b.sealed {
            Some(d) => Some(rotate_offset_y_spec(d, cw)),
            None => None,
        },
    }
}

/// Every offset of the block can be turned.
pub open spec fn block_turnable(b: DeformBlock, cw: bool) -> bool {
    &&& rotate_offset_fits(b.forward, cw)
    &&& (b.push matches Some(d) ==> rotate_offset_fits(d, cw))
    &&& (b.sealed matches Some(d) ==> rotate_offset_fits(d, cw))
}

fn turn_block(b: DeformBlock, cw: bool) -> (r: DeformBlock)
    requires
        block_turnable(b, cw),
    ensures
        r == turned_block(b, cw),
{
    DeformBlock {
        id: b.id,
        push: match b.push {
            Some(d) => Some(rotate_offset_y(d, cw)),
            None => None,
        },
        forward: rotate_offset_y(b.forward, cw),
        head: b.head,
        sealed: match b.sealed {
            Some(d) => Some(rotate_offset_y(d, cw)),
            None => None,
        },
    }
}

/// The moves of a quarter turn of the cells `cells` (in that order) for the values of
/// `m`: each cell holding a value goes to its turned cell, its value mapped by `f`.
pub open spec fn turn_moves<V>(m: Map<Cell, V>, cells: Seq<Cell>, pivot: Cell, cw: bool, f: spec_fn(V) -> V) -> Seq<(Cell, Cell, V)>
    decreases cells.len(),
{
    if cells.len() == 0 {
        Seq::empty()
    } else {
        let rest = turn_moves(m, cells.drop_last(), pivot, cw, f);
        let p = cells.last();
        if m.contains_key(p) {
            rest.push((p, rotate_pos_y_spec(p, pivot, cw), f(m[p])))
        } else {
            rest
        }
    }
}

/// The face turned when its block is among `ids`.
pub open spec fn turned_face(f: MaterialFace, ids: Set<u64>, cw: bool) -> MaterialFace {
    if ids.contains(f.block.0) {
        MaterialFace { block: f.block, normal: rotate_offset_y_spec(f.normal, cw) }
    } else {
        f
    }
}

/// The blocks of the cells `cells`.
pub open spec fn ids_in(m: Map<Cell, DeformBlock>, cells: Set<Cell>) -> Set<u64> {
    Set::new(|x: u64| exists|p: Cell| #[trigger] cells.contains(p) && m.contains_key(p) && m[p].id.0 == x)
}

/// What is attached to the faces of blocks: paints, stamps, wire panels, and factory
/// children (by child cell, with the parent and the parent's face toward the child).
pub struct FaceAttachments {
    pub paints: Vec<(MaterialFace, PaintMaterialId)>,
    pub stamps: Vec<(MaterialFace, StampMaterialId)>,
    pub panels: Vec<MaterialFace>,
    pub children: Vec<(Cell, MaterialAttachment)>,
}

/// Every face normal of the attachments can be turned.
pub open spec fn faces_turnable(a: &FaceAttachments, cw: bool) -> bool {
    &&& forall|i: int| 0 <= i < a.paints@.len() ==> rotate_offset_fits((#[trigger] a.paints@[i]).0.normal, cw)
    &&& forall|i: int| 0 <= i < a.stamps@.len() ==> rotate_offset_fits((#[trigger] a.stamps@[i]).0.normal, cw)
    &&& forall|i: int| 0 <= i < a.panels@.len() ==> rotate_offset_fits((#[trigger] a.panels@[i]).normal, cw)
    &&& forall|i: int| 0 <= i < a.children@.len() ==> rotate_offset_fits((#[trigger] a.children@[i]).1.parent_face_normal, cw)
}

/// `after` is `before` with the faces of the blocks `ids` turned.
pub open spec fn faces_turned(before: &FaceAttachments, after: &FaceAttachments, ids: Set<u64>, cw: bool) -> bool {
    &&& after.paints@ == before.paints@.map_values(|e: (MaterialFace, PaintMaterialId)| (turned_face(e.0, ids, cw), e.1))
    &&& after.stamps@ == before.stamps@.map_values(|e: (MaterialFace, StampMaterialId)| (turned_face(e.0, ids, cw), e.1))
    &&& after.panels@ == before.panels@.map_values(|f: MaterialFace| turned_face(f, ids, cw))
    &&& after.children@ == before.children@.map_values(|e: (Cell, MaterialAttachment)| (e.0, if ids.contains(e.1.parent.0) {
        MaterialAttachment { parent: e.1.parent, parent_face_normal: rotate_offset_y_spec(e.1.parent_face_normal, cw) }
    } else {
        e.1
    }))
}

fn has_id(ids: &Vec<u64>, x: u64) -> (r: bool)
    ensures
        r == ids@.contains(x),
{
    let mut i: usize = 0;
    while i < ids.len()
        invariant
            i <= ids@.len(),
            forall|j: int| 0 <= j < i ==> ids@[j] != x,
        decreases ids@.len() - i,
    {
        if ids[i] == x {
            return true;
        }
        i = i + 1;
    }
    false
}

fn turn_face(f: MaterialFace, ids: &Vec<u64>, cw: bool) -> (r: MaterialFace)
    requires
        rotate_offset_fits(f.normal, cw),
    ensures
        r == turned_face(f, ids@.to_set(), cw),
{
    if has_id(ids, f.block.0) {
        MaterialFace { block: f.block, normal: rotate_offset_y(f.normal, cw) }
    } else {
        f
    }
}

impl FaceAttachments {
    /// Turns the faces of the blocks `ids` (see [`faces_turned`]).
    fn turn_faces_of(&mut self, ids: &Vec<u64>, cw: bool)
        requires
            faces_turnable(old(self), cw),
        ensures
            faces_turned(old(self), final(self), ids@.to_set(), cw),
    {
        let ghost s = ids@.to_set();
        let mut paints: Vec<(MaterialFace, PaintMaterialId)> = Vec::new();
        let mut i: usize = 0;
        while i < self.paints.len()
            invariant
                faces_turnable(self, cw),
                s == ids@.to_set(),
                i <= self.paints@.len(),
                paints@ == self.paints@.take(i as int).map_values(|e: (MaterialFace, PaintMaterialId)| (turned_face(e.0, s, cw), e.1)),
            decreases self.paints@.len() - i,
        {
            let (f, c) = self.paints[i];
            paints.push((turn_face(f, ids, cw), c));
            proof {
                assert(self.paints@.take(i + 1) =~= self.paints@.take(i as int).push(self.paints@[i as int]));
                assert(paints@ =~= self.paints@.take(i + 1).map_values(|e: (MaterialFace, PaintMaterialId)| (turned_face(e.0, s, cw), e.1)));
            }
            i = i + 1;
        }
        proof {
            assert(self.paints@.take(i as int) =~= self.paints@);
        }
        let mut stamps: Vec<(MaterialFace, StampMaterialId)> = Vec::new();
        let mut i: usize = 0;
        while i < self.stamps.len()
            invariant
                faces_turnable(self, cw),
                s == ids@.to_set(),
                i <= self.stamps@.len(),
                stamps@ == self.stamps@.take(i as int).map_values(|e: (MaterialFace, StampMaterialId)| (turned_face(e.0, s, cw), e.1)),
            decreases self.stamps@.len() - i,
        {
            let (f, c) = self.stamps[i];
            stamps.push((turn_face(f, ids, cw), c));
            proof {
                assert(self.stamps@.take(i + 1) =~= self.stamps@.take(i as int).push(self.stamps@[i as int]));
                assert(stamps@ =~= self.stamps@.take(i + 1).map_values(|e: (MaterialFace, StampMaterialId)| (turned_face(e.0, s, cw), e.1)));
            }
            i = i + 1;
        }
        proof {
            assert(self.stamps@.take(i as int) =~= self.stamps@);
        }
        let mut panels: Vec<MaterialFace> = Vec::new();
        let mut i: usize = 0;
        while i < self.panels.len()
            invariant
                faces_turnable(self, cw),
                s == ids@.to_set(),
                i <= self.panels@.len(),
                panels@ == self.panels@.take(i as int).map_values(|f: MaterialFace| turned_face(f, s, cw)),
            decreases self.panels@.len() - i,
        {
            let f = self.panels[i];
            panels.push(turn_face(f, ids, cw));
            proof {
                assert(self.panels@.take(i + 1) =~= self.panels@.take(i as int).push(self.panels@[i as int]));
                assert(panels@ =~= self.panels@.take(i + 1).map_values(|f: MaterialFace| turned_face(f, s, cw)));
            }
            i = i + 1;
        }
        proof {
            assert(self.panels@.take(i as int) =~= self.panels@);
        }
        let mut children: Vec<(Cell, MaterialAttachment)> = Vec::new();
        let mut i: usize = 0;
        while i < self.children.len()
            invariant
                faces_turnable(self, cw),
                s == ids@.to_set(),
                i <= self.children@.len(),
                children@ == self.children@.take(i as int).map_values(|e: (Cell, MaterialAttachment)| (e.0, if s.contains(e.1.parent.0) {
                    MaterialAttachment { parent: e.1.parent, parent_face_normal: rotate_offset_y_spec(e.1.parent_face_normal, cw) }
                } else {
                    e.1
                })),
            decreases self.children@.len() - i,
        {
            let (child, att) = self.children[i];
            let turned = if has_id(ids, att.parent.0) {
                MaterialAttachment { parent: att.parent, parent_face_normal: rotate_offset_y(att.parent_face_normal, cw) }
            } else {
                att
            };
            children.push((child, turned));
            proof {
                assert(self.children@.take(i + 1) =~= self.children@.take(i as int).push(self.children@[i as int]));
                assert(children@ =~= self.children@.take(i + 1).map_values(|e: (Cell, MaterialAttachment)| (e.0, if s.contains(e.1.parent.0) {
                    MaterialAttachment { parent: e.1.parent, parent_face_normal: rotate_offset_y_spec(e.1.parent_face_normal, cw) }
                } else {
                    e.1
                })));
            }
            i = i + 1;
        }
        proof {
            assert(self.children@.take(i as int) =~= self.children@);
        }
        self.paints = paints;
        self.stamps = stamps;
        self.panels = panels;
        self.children = children;
    }
}


/// Every cell of `cells` can be turned about `pivot`.
pub open spec fn cells_turnable(cells: Set<Cell>, pivot: Cell, cw: bool) -> bool {
    forall|p: Cell| #[trigger] cells.contains(p) ==> rotate_pos_fits(p, pivot, cw)
}

/// The cells of `cells`, turned.
pub open spec fn turned_cells(cells: Set<Cell>, pivot: Cell, cw: bool) -> Set<Cell> {
    cells.map(|p: Cell| rotate_pos_y_spec(p, pivot, cw))
}

/// The set `s` as a map to `true`.
pub open spec fn flags(s: Set<Cell>) -> Map<Cell, bool> {
    Map::new(|c: Cell| s.contains(c), |c: Cell| true)
}

fn block_moves(m: &CellMap<DeformBlock>, cells: &Vec<Cell>, pivot: Cell, cw: bool) -> (r: Vec<(Cell, Cell, DeformBlock)>)
    requires
        m.wf(),
        forall|i: int| 0 <= i < cells@.len() ==> rotate_pos_fits(#[trigger] cells@[i], pivot, cw),
        forall|i: int| 0 <= i < cells@.len() && m@.contains_key(#[trigger] cells@[i]) ==> block_turnable(m@[cells@[i]], cw),
    ensures
        r@ == turn_moves(m@, cells@, pivot, cw, |b: DeformBlock| turned_block(b, cw)),
{
    let mut r: Vec<(Cell, Cell, DeformBlock)> = Vec::new();
    let mut i: usize = 0;
    while i < cells.len()
        invariant
            m.wf(),
            i <= cells@.len(),
            forall|i: int| 0 <= i < cells@.len() ==> rotate_pos_fits(#[trigger] cells@[i], pivot, cw),
            forall|i: int| 0 <= i < cells@.len() && m@.contains_key(#[trigger] cells@[i]) ==> block_turnable(m@[cells@[i]], cw),
            r@ == turn_moves(m@, cells@.take(i as int), pivot, cw, |b: DeformBlock| turned_block(b, cw)),
        decreases cells@.len() - i,
    {
        let p = cells[i];
        proof {
            assert(cells@.take(i + 1).drop_last() =~= cells@.take(i as int));
        }
        match m.get(p) {
            Some(b) => {
                r.push((p, rotate_pos_y(p, pivot, cw), turn_block(b, cw)));
            },
            None => {},
        }
        i = i + 1;
    }
    proof {
        assert(cells@.take(i as int) =~= cells@);
    }
    r
}

fn id_moves(m: &CellMap<BlockId>, cells: &Vec<Cell>, pivot: Cell, cw: bool) -> (r: Vec<(Cell, Cell, BlockId)>)
    requires
        m.wf(),
        forall|i: int| 0 <= i < cells@.len() ==> rotate_pos_fits(#[trigger] cells@[i], pivot, cw),
    ensures
        r@ == turn_moves(m@, cells@, pivot, cw, |x: BlockId| x),
{
    let mut r: Vec<(Cell, Cell, BlockId)> = Vec::new();
    let mut i: usize = 0;
    while i < cells.len()
        invariant
            m.wf(),
            i <= cells@.len(),
            forall|i: int| 0 <= i < cells@.len() ==> rotate_pos_fits(#[trigger] cells@[i], pivot, cw),
            r@ == turn_moves(m@, cells@.take(i as int), pivot, cw, |x: BlockId| x),
        decreases cells@.len() - i,
    {
        let p = cells[i];
        proof {
            assert(cells@.take(i + 1).drop_last() =~= cells@.take(i as int));
        }
        match m.get(p) {
            Some(x) => {
                r.push((p, rotate_pos_y(p, pivot, cw), x));
            },
            None => {},
        }
        i = i + 1;
    }
    proof {
        assert(cells@.take(i as int) =~= cells@);
    }
    r
}

fn flag_moves(s: &CellSet, cells: &Vec<Cell>, pivot: Cell, cw: bool) -> (r: Vec<(Cell, Cell, bool)>)
    requires
        forall|i: int| 0 <= i < cells@.len() ==> rotate_pos_fits(#[trigger] cells@[i], pivot, cw),
    ensures
        r@ == turn_moves(flags(s@), cells@, pivot, cw, |x: bool| x),
{
    let mut r: Vec<(Cell, Cell, bool)> = Vec::new();
    let mut i: usize = 0;
    while i < cells.len()
        invariant
            i <= cells@.len(),
            forall|i: int| 0 <= i < cells@.len() ==> rotate_pos_fits(#[trigger] cells@[i], pivot, cw),
            r@ == turn_moves(flags(s@), cells@.take(i as int), pivot, cw, |x: bool| x),
        decreases cells@.len() - i,
    {
        let p = cells[i];
        proof {
            assert(cells@.take(i + 1).drop_last() =~= cells@.take(i as int));
        }
        if s.contains(p) {
            r.push((p, rotate_pos_y(p, pivot, cw), true));
        }
        i = i + 1;
    }
    proof {
        assert(cells@.take(i as int) =~= cells@);
    }
    r
}

/// The identities of the blocks at `cells`.
fn block_ids_at(m: &CellMap<DeformBlock>, cells: &Vec<Cell>) -> (r: Vec<u64>)
    requires
        m.wf(),
    ensures
        r@.to_set() == ids_in(m@, cells@.to_set()),
{
    let mut r: Vec<u64> = Vec::new();
    let mut i: usize = 0;
    while i < cells.len()
        invariant
            m.wf(),
            i <= cells@.len(),
            r@.to_set() == ids_in(m@, cells@.take(i as int).to_set()),
        decreases cells@.len() - i,
    {
        let p = cells[i];
        let ghost r0 = r@;
        match m.get(p) {
            Some(b) => {
                r.push(b.id.0);
            },
            None => {},
        }
        proof {
            cells@.take(i as int).lemma_push_to_set_commute(p);
            assert(cells@.take(i + 1) =~= cells@.take(i as int).push(p));
            if m@.contains_key(p) {
                r0.lemma_push_to_set_commute(m@[p].id.0);
            }
            let t0 = cells@.take(i as int).to_set();
            let t1 = cells@.take(i + 1).to_set();
            assert(t1 == t0.insert(p));
            assert forall|x: u64| r@.to_set().contains(x) <==> ids_in(m@, t1).contains(x) by {
                if ids_in(m@, t1).contains(x) {
                    let q = choose|q: Cell| #[trigger] t1.contains(q) && m@.contains_key(q) && m@[q].id.0 == x;
                    if q != p {
                        assert(ids_in(m@, t0).contains(x));
                        assert(r0.to_set().contains(x));
                    }
                }
                if r0.to_set().contains(x) {
                    let q = choose|q: Cell| #[trigger] t0.contains(q) && m@.contains_key(q) && m@[q].id.0 == x;
                    assert(t1.contains(q));
                }
                if m@.contains_key(p) && x == m@[p].id.0 {
                    assert(t1.contains(p));
                }
            }
            assert(r@.to_set() =~= ids_in(m@, t1));
        }
        i = i + 1;
    }
    proof {
        assert(cells@.take(i as int) =~= cells@);
    }
    r
}

/// The cells of `cells`, turned, as a set.
fn turn_cells(cells: &Vec<Cell>, pivot: Cell, cw: bool) -> (r: CellSet)
    requires
        forall|i: int| 0 <= i < cells@.len() ==> rotate_pos_fits(#[trigger] cells@[i], pivot, cw),
    ensures
        r.wf(),
        r@ == turned_cells(cells@.to_set(), pivot, cw),
{
    let mut r = CellSet::new();
    let mut i: usize = 0;
    while i < cells.len()
        invariant
            i <= cells@.len(),
            forall|i: int| 0 <= i < cells@.len() ==> rotate_pos_fits(#[trigger] cells@[i], pivot, cw),
            r.wf(),
            r@ == turned_cells(cells@.take(i as int).to_set(), pivot, cw),
        decreases cells@.len() - i,
    {
        let p = cells[i];
        r.insert(rotate_pos_y(p, pivot, cw));
        proof {
            cells@.take(i as int).lemma_push_to_set_commute(p);
            assert(cells@.take(i + 1) =~= cells@.take(i as int).push(p));
            let t0 = cells@.take(i as int).to_set();
            let t1 = cells@.take(i + 1).to_set();
            assert(t1 == t0.insert(p));
            assert forall|q: Cell| r@.contains(q) <==> turned_cells(t1, pivot, cw).contains(q) by {
                if turned_cells(t1, pivot, cw).contains(q) {
                    let a = choose|a: Cell| t1.contains(a) && rotate_pos_y_spec(a, pivot, cw) == q;
                    if a != p {
                        assert(turned_cells(t0, pivot, cw).contains(q));
                    }
                }
                if turned_cells(t0, pivot, cw).contains(q) {
                    let a = choose|a: Cell| t0.contains(a) && rotate_pos_y_spec(a, pivot, cw) == q;
                    assert(t1.contains(a));
                }
                if q == rotate_pos_y_spec(p, pivot, cw) {
                    assert(t1.contains(p));
                }
            }
            assert(r@ =~= turned_cells(t1, pivot, cw));
        }
        i = i + 1;
    }
    proof {
        assert(cells@.take(i as int) =~= cells@);
        assert(turned_cells(Set::<Cell>::empty(), pivot, cw) =~= Set::<Cell>::empty());
    }
    r
}

fn has_face(faces: &Vec<MaterialFace>, f: MaterialFace) -> (r: bool)
    ensures
        r == faces@.contains(f),
{
    let mut i: usize = 0;
    while i < faces.len()
        invariant
            i <= faces@.len(),
            forall|j: int| 0 <= j < i ==> faces@[j] != f,
        decreases faces@.len() - i,
    {
        if faces[i].block.0 == f.block.0 && faces[i].normal == f.normal {
            assert(faces@[i as int] == f);
            return true;
        }
        i = i + 1;
    }
    false
}

/// Every face of `a` is a face of `b`.
fn faces_within(a: &Vec<MaterialFace>, b: &Vec<MaterialFace>) -> (r: bool)
    ensures
        r == a@.to_set().subset_of(b@.to_set()),
{
    let mut i: usize = 0;
    while i < a.len()
        invariant
            i <= a@.len(),
            forall|j: int| 0 <= j < i ==> b@.contains(#[trigger] a@[j]),
        decreases a@.len() - i,
    {
        if !has_face(b, a[i]) {
            proof {
                assert(a@.to_set().contains(a@[i as int]));
            }
            return false;
        }
        i = i + 1;
    }
    proof {
        assert forall|x: MaterialFace| a@.to_set().contains(x) implies b@.to_set().contains(x) by {
            let j = choose|j: int| 0 <= j < a@.len() && a@[j] == x;
            assert(b@.contains(a@[j]));
        }
    }
    true
}

/// Commits a quarter turn of the structure at `cells` about the vertical line through
/// `pivot`: every block of `cells` moves to its turned cell and turns with it (as do
/// the factory, scene and material marks of those cells), the paints, stamps, wire
/// panels and factory children on faces of those blocks turn, the structure table
/// gives the structure owning `cells` the turned cells, and the topology revision
/// advances when the set of wire panels changed.
pub fn rotate_structure(
    world: &mut StructureWorld,
    faces: &mut FaceAttachments,
    structures: &mut StructureState,
    cells: &CellSet,
    pivot: Cell,
    clockwise: bool,
)
    requires
        old(world).blocks.wf(),
        old(world).factory.wf(),
        old(world).scene.wf(),
        old(world).materials.wf(),
        cells.wf(),
        cells_turnable(cells@, pivot, clockwise),
        forall|p: Cell| #[trigger] cells@.contains(p) && old(world).blocks@.contains_key(p) ==> block_turnable(old(world).blocks@[p], clockwise),
        faces_turnable(old(faces), clockwise),
        old(structures).wf(),
        old(structures).replace_ok(cells@, turned_cells(cells@, pivot, clockwise)),
    ensures
        final(world).blocks.wf(),
        final(world).factory.wf(),
        final(world).scene.wf(),
        final(world).materials.wf(),
        final(world).blocks@ == relocated(old(world).blocks@, turn_moves(old(world).blocks@, cells.elems(), pivot, clockwise, |b: DeformBlock| turned_block(b, clockwise))),
        final(world).materials@ == relocated(old(world).materials@, turn_moves(old(world).materials@, cells.elems(), pivot, clockwise, |x: BlockId| x)),
        final(world).factory@ == relocated(flags(old(world).factory@), turn_moves(flags(old(world).factory@), cells.elems(), pivot, clockwise, |x: bool| x)).dom(),
        final(world).scene@ == relocated(flags(old(world).scene@), turn_moves(flags(old(world).scene@), cells.elems(), pivot, clockwise, |x: bool| x)).dom(),
        final(world).welds == old(world).welds,
        final(world).acceptors == old(world).acceptors,
        final(world).next_block_id == old(world).next_block_id,
        final(world).topology_revision == if final(faces).panels@.to_set() == old(faces).panels@.to_set() {
            old(world).topology_revision
        } else {
            crate::grid::advanced(old(world).topology_revision, 1)
        },
        faces_turned(old(faces), final(faces), ids_in(old(world).blocks@, cells@), clockwise),
        final(structures).wf(),
        final(structures).last_id() == old(structures).last_id(),
        final(structures).held() == old(structures).held(),
        final(structures).moving() == old(structures).moving(),
        (forall|p: Cell| cells@.contains(p) ==> !old(structures).index().contains_key(p)) ==> final(structures).table()
            == old(structures).table() && final(structures).index() == old(structures).index(),
        forall|p: Cell| #[trigger] cells@.contains(p) && old(structures).index().contains_key(p) ==> {
            let k = old(structures).index()[p].0;
            let before = old(structures).table()[k];
            let after = final(structures).table()[k];
            &&& final(structures).table().dom() == old(structures).table().dom()
            &&& forall|k2: u64| k2 != k && #[trigger] old(structures).table().contains_key(k2) ==> final(structures).table()[k2]
                == old(structures).table()[k2]
            &&& after.positions@ == turned_cells(cells@, pivot, clockwise)
            &&& after.id == before.id
            &&& after.kind == before.kind
            &&& after.activity == before.activity
            &&& after.freedom == before.freedom
            &&& after.deform_groups == before.deform_groups
            &&& after.head_of == before.head_of
            &&& after.scene_touching == before.scene_touching
            &&& after.gravity_support@.len() == 0
        },
{
    let list = cells.to_vec();
    proof {
        cells.lemma_elems();
        assert forall|i: int| 0 <= i < list@.len() implies rotate_pos_fits(#[trigger] list@[i], pivot, clockwise) by {
            assert(cells@.contains(list@[i]));
        }
        assert forall|i: int| 0 <= i < list@.len() && world.blocks@.contains_key(#[trigger] list@[i]) implies block_turnable(
            world.blocks@[list@[i]],
            clockwise,
        ) by {
            assert(cells@.contains(list@[i]));
        }
    }
    let ids = block_ids_at(&world.blocks, &list);
    let blocks = block_moves(&world.blocks, &list, pivot, clockwise);
    let mats = id_moves(&world.materials, &list, pivot, clockwise);
    let fac = flag_moves(&world.factory, &list, pivot, clockwise);
    let scn = flag_moves(&world.scene, &list, pivot, clockwise);
    relocate_map(&mut world.blocks, &blocks);
    relocate_map(&mut world.materials, &mats);
    relocate_set(&mut world.factory, &fac);
    relocate_set(&mut world.scene, &scn);
    let before_panels = faces.panels.clone();
    faces.turn_faces_of(&ids, clockwise);
    if !(faces_within(&faces.panels, &before_panels) && faces_within(&before_panels, &faces.panels)) {
        world.topology_revision = crate::grid::advance(world.topology_revision);
    }
    proof {
        if faces.panels@.to_set().subset_of(before_panels@.to_set()) && before_panels@.to_set().subset_of(faces.panels@.to_set()) {
            assert(faces.panels@.to_set() =~= before_panels@.to_set());
        }
    }
    let turned = turn_cells(&list, pivot, clockwise);
    structures.replace_structure_positions(cells, turned);
}

/// A quarter turn of a cell followed by the opposite quarter turn about the same pivot
/// gives the cell back.
pub proof fn lemma_turn_back_cell(p: Cell, pivot: Cell, cw: bool)
    requires
        rotate_pos_fits(p, pivot, cw),
    ensures
        rotate_pos_fits(rotate_pos_y_spec(p, pivot, cw), pivot, !cw),
        rotate_pos_y_spec(rotate_pos_y_spec(p, pivot, cw), pivot, !cw) == p,
{
    let d = p.minus(pivot);
    crate::cell::lemma_rotate_offset_inverse(d, cw);
    let q = rotate_pos_y_spec(p, pivot, cw);
    assert(q.minus(pivot) == rotate_offset_y_spec(d, cw));
}

/// No two moves go to one cell.
pub open spec fn targets_distinct<V>(moves: Seq<(Cell, Cell, V)>) -> bool {
    forall|i: int, j: int| 0 <= i < moves.len() && 0 <= j < moves.len() && i != j ==> (#[trigger] moves[i]).1 != (#[trigger] moves[j]).1
}

proof fn lemma_placed<V>(b: Map<Cell, V>, moves: Seq<(Cell, Cell, V)>)
    requires
        targets_distinct(moves),
    ensures
        forall|q: Cell| #[trigger] placed(b, moves).contains_key(q) <==> (b.contains_key(q) || exists|i: int| 0 <= i < moves.len()
            && (#[trigger] moves[i]).1 == q),
        forall|i: int| 0 <= i < moves.len() ==> placed(b, moves)[(#[trigger] moves[i]).1] == moves[i].2,
        forall|q: Cell| #[trigger] placed(b, moves).contains_key(q) && !(exists|i: int| 0 <= i < moves.len() && (#[trigger] moves[i]).1 == q)
            ==> placed(b, moves)[q] == b[q],
    decreases moves.len(),
{
    if moves.len() > 0 {
        let ms = moves.drop_last();
        assert(targets_distinct(ms)) by {
            assert forall|i: int, j: int| 0 <= i < ms.len() && 0 <= j < ms.len() && i != j implies (#[trigger] ms[i]).1 != (#[trigger] ms[j]).1 by {
                assert(ms[i] == moves[i] && ms[j] == moves[j]);
            }
        }
        lemma_placed(b, ms);
        let last = moves.len() - 1;
        assert(placed(b, moves) == placed(b, ms).insert(moves[last].1, moves[last].2));
        assert forall|q: Cell| #[trigger] placed(b, moves).contains_key(q) <==> (b.contains_key(q) || exists|i: int| 0 <= i < moves.len()
            && (#[trigger] moves[i]).1 == q) by {
            if exists|i: int| 0 <= i < moves.len() && (#[trigger] moves[i]).1 == q {
                let i = choose|i: int| 0 <= i < moves.len() && (#[trigger] moves[i]).1 == q;
                if i < last {
                    assert(ms[i] == moves[i]);
                    assert(placed(b, ms).contains_key(q));
                }
            }
            if q != moves[last].1 && placed(b, ms).contains_key(q) && !b.contains_key(q) {
                let i = choose|i: int| 0 <= i < ms.len() && (#[trigger] ms[i]).1 == q;
                assert(moves[i] == ms[i]);
            }
            if exists|i: int| 0 <= i < ms.len() && (#[trigger] ms[i]).1 == q {
                let i = choose|i: int| 0 <= i < ms.len() && (#[trigger] ms[i]).1 == q;
                assert(moves[i] == ms[i]);
            }
        }
        assert forall|i: int| 0 <= i < moves.len() implies placed(b, moves)[(#[trigger] moves[i]).1] == moves[i].2 by {
            if i < last {
                assert(ms[i] == moves[i]);
                assert(moves[i].1 != moves[last].1);
            }
        }
        assert forall|q: Cell| #[trigger] placed(b, moves).contains_key(q) && !(exists|i: int| 0 <= i < moves.len()
            && (#[trigger] moves[i]).1 == q) implies placed(b, moves)[q] == b[q] by {
            assert(moves[last].1 != q);
            if exists|i: int| 0 <= i < ms.len() && (#[trigger] ms[i]).1 == q {
                let i = choose|i: int| 0 <= i < ms.len() && (#[trigger] ms[i]).1 == q;
                assert(moves[i] == ms[i]);
            }
        }
    }
}

/// The moves of a quarter turn: one for each cell of `cells` that holds a value, from
/// that cell to its turned cell, with the mapped value.
proof fn lemma_turn_moves<V>(m: Map<Cell, V>, cells: Seq<Cell>, pivot: Cell, cw: bool, f: spec_fn(V) -> V)
    ensures
        forall|k: int| 0 <= k < turn_moves(m, cells, pivot, cw, f).len() ==> {
            let mv = #[trigger] turn_moves(m, cells, pivot, cw, f)[k];
            &&& cells.contains(mv.0)
            &&& m.contains_key(mv.0)
            &&& mv.1 == rotate_pos_y_spec(mv.0, pivot, cw)
            &&& mv.2 == f(m[mv.0])
        },
        forall|p: Cell| #[trigger] cells.contains(p) && m.contains_key(p) ==> exists|k: int| 0 <= k < turn_moves(m, cells, pivot, cw, f).len()
            && (#[trigger] turn_moves(m, cells, pivot, cw, f)[k]).0 == p,
    decreases cells.len(),
{
    if cells.len() > 0 {
        let c0 = cells.drop_last();
        lemma_turn_moves(m, c0, pivot, cw, f);
        let t0 = turn_moves(m, c0, pivot, cw, f);
        let t = turn_moves(m, cells, pivot, cw, f);
        let p = cells.last();
        assert forall|k: int| 0 <= k < t.len() implies {
            let mv = #[trigger] t[k];
            &&& cells.contains(mv.0)
            &&& m.contains_key(mv.0)
            &&& mv.1 == rotate_pos_y_spec(mv.0, pivot, cw)
            &&& mv.2 == f(m[mv.0])
        } by {
            if k < t0.len() {
                assert(t[k] == t0[k]);
                let j = choose|j: int| 0 <= j < c0.len() && c0[j] == t0[k].0;
                assert(cells[j] == c0[j]);
            } else {
                assert(cells[cells.len() - 1] == p);
            }
        }
        assert forall|q: Cell| #[trigger] cells.contains(q) && m.contains_key(q) implies exists|k: int| 0 <= k < t.len()
            && (#[trigger] t[k]).0 == q by {
            let j = choose|j: int| 0 <= j < cells.len() && cells[j] == q;
            if j < cells.len() - 1 {
                assert(c0[j] == q);
                assert(c0.contains(q));
                let k = choose|k: int| 0 <= k < t0.len() && (#[trigger] t0[k]).0 == q;
                assert(t[k] == t0[k]);
            } else {
                assert(t[t0.len() as int].0 == q);
            }
        }
    }
}

/// The turned cells of distinct cells are distinct, so are the moves' sources and targets.
proof fn lemma_turn_moves_distinct<V>(m: Map<Cell, V>, cells: Seq<Cell>, pivot: Cell, cw: bool, f: spec_fn(V) -> V)
    requires
        cells.no_duplicates(),
        cells_turnable(cells.to_set(), pivot, cw),
    ensures
        targets_distinct(turn_moves(m, cells, pivot, cw, f)),
        forall|i: int, j: int| 0 <= i < turn_moves(m, cells, pivot, cw, f).len() && 0 <= j < turn_moves(m, cells, pivot, cw, f).len()
            && i != j ==> (#[trigger] turn_moves(m, cells, pivot, cw, f)[i]).0 != (#[trigger] turn_moves(m, cells, pivot, cw, f)[j]).0,
    decreases cells.len(),
{
    if cells.len() > 0 {
        let c0 = cells.drop_last();
        assert(c0.no_duplicates());
        assert(cells_turnable(c0.to_set(), pivot, cw)) by {
            assert forall|p: Cell| #[trigger] c0.to_set().contains(p) implies rotate_pos_fits(p, pivot, cw) by {
                let j = choose|j: int| 0 <= j < c0.len() && c0[j] == p;
                assert(cells[j] == p);
                assert(cells.to_set().contains(p));
            }
        }
        lemma_turn_moves_distinct(m, c0, pivot, cw, f);
        lemma_turn_moves(m, c0, pivot, cw, f);
        let t0 = turn_moves(m, c0, pivot, cw, f);
        let t = turn_moves(m, cells, pivot, cw, f);
        let p = cells.last();
        if m.contains_key(p) {
            assert forall|k: int| 0 <= k < t0.len() implies t0[k].0 != p && t0[k].1 != rotate_pos_y_spec(p, pivot, cw) by {
                let a = t0[k].0;
                let j = choose|j: int| 0 <= j < c0.len() && c0[j] == a;
                assert(cells[j] == a);
                assert(cells[cells.len() - 1] == p);
                assert(a != p);
                assert(cells.to_set().contains(a) && cells.to_set().contains(p));
                lemma_turn_back_cell(a, pivot, cw);
                lemma_turn_back_cell(p, pivot, cw);
            }
            assert forall|i: int, j: int| 0 <= i < t.len() && 0 <= j < t.len() && i != j implies (#[trigger] t[i]).1 != (#[trigger] t[j]).1 && t[i].0 != t[j].0 by {
                if i < t0.len() && j < t0.len() {
                    assert(t[i] == t0[i] && t[j] == t0[j]);
                } else if i < t0.len() {
                    assert(t[i] == t0[i]);
                } else {
                    assert(t[j] == t0[j]);
                }
            }
        } else {
            assert(t == t0);
        }
    }
}

/// Some cell of `s` that holds a value in `m` turns to `q`.
pub open spec fn turned_from<V>(m: Map<Cell, V>, s: Set<Cell>, pivot: Cell, cw: bool, q: Cell) -> bool {
    exists|p: Cell| #[trigger] s.contains(p) && m.contains_key(p) && rotate_pos_y_spec(p, pivot, cw) == q
}

/// What a quarter turn of the values at `cells` does to each cell of `m`: a turned cell
/// takes the mapped value of the cell it came from, a cell of `cells` that nothing
/// turned to is emptied, and every other cell keeps its value.
proof fn lemma_turn_relocated<V>(m: Map<Cell, V>, cells: Seq<Cell>, pivot: Cell, cw: bool, f: spec_fn(V) -> V)
    requires
        cells.no_duplicates(),
        cells_turnable(cells.to_set(), pivot, cw),
    ensures
        ({
            let s = cells.to_set();
            let r = relocated(m, turn_moves(m, cells, pivot, cw, f));
            &&& forall|p: Cell| #[trigger] s.contains(p) && m.contains_key(p) ==> r.contains_key(rotate_pos_y_spec(p, pivot, cw))
                && r[rotate_pos_y_spec(p, pivot, cw)] == f(m[p])
            &&& forall|q: Cell| #[trigger] r.contains_key(q) <==> (turned_from(m, s, pivot, cw, q) || (m.contains_key(q) && !s.contains(q)))
            &&& forall|q: Cell| #[trigger] r.contains_key(q) && !turned_from(m, s, pivot, cw, q) ==> r[q] == m[q]
        }),
{
    let s = cells.to_set();
    let t = turn_moves(m, cells, pivot, cw, f);
    lemma_turn_moves(m, cells, pivot, cw, f);
    lemma_turn_moves_distinct(m, cells, pivot, cw, f);
    let vs = t.map_values(|mv: (Cell, Cell, V)| mv.0);
    let src = vs.to_set();
    let b = m.remove_keys(src);
    lemma_placed(b, t);
    assert forall|q: Cell| src.contains(q) <==> s.contains(q) && m.contains_key(q) by {
        if src.contains(q) {
            let i = choose|i: int| 0 <= i < vs.len() && #[trigger] vs[i] == q;
            assert(t[i].0 == q);
        }
        if s.contains(q) && m.contains_key(q) {
            assert(cells.contains(q));
            let k = choose|k: int| 0 <= k < t.len() && (#[trigger] t[k]).0 == q;
            assert(vs[k] == q);
        }
    }
    assert forall|q: Cell| (exists|i: int| 0 <= i < t.len() && (#[trigger] t[i]).1 == q) <==> turned_from(m, s, pivot, cw, q) by {
        if exists|i: int| 0 <= i < t.len() && (#[trigger] t[i]).1 == q {
            let i = choose|i: int| 0 <= i < t.len() && (#[trigger] t[i]).1 == q;
            assert(s.contains(t[i].0));
        }
        if turned_from(m, s, pivot, cw, q) {
            let p = choose|p: Cell| #[trigger] s.contains(p) && m.contains_key(p) && rotate_pos_y_spec(p, pivot, cw) == q;
            assert(cells.contains(p));
            let k = choose|k: int| 0 <= k < t.len() && (#[trigger] t[k]).0 == p;
            assert(t[k].1 == q);
        }
    }
    assert forall|p: Cell| #[trigger] s.contains(p) && m.contains_key(p) implies relocated(m, t).contains_key(rotate_pos_y_spec(p, pivot, cw))
        && relocated(m, t)[rotate_pos_y_spec(p, pivot, cw)] == f(m[p]) by {
        assert(cells.contains(p));
        let k = choose|k: int| 0 <= k < t.len() && (#[trigger] t[k]).0 == p;
        assert(t[k].1 == rotate_pos_y_spec(p, pivot, cw));
    }
}


/// Two cells that turn to the same cell are the same cell.
proof fn lemma_turn_injective(a: Cell, b: Cell, pivot: Cell, cw: bool)
    requires
        rotate_pos_fits(a, pivot, cw),
        rotate_pos_fits(b, pivot, cw),
        rotate_pos_y_spec(a, pivot, cw) == rotate_pos_y_spec(b, pivot, cw),
    ensures
        a == b,
{
    lemma_turn_back_cell(a, pivot, cw);
    lemma_turn_back_cell(b, pivot, cw);
}

/// A quarter turn of the values at the cells `s1`, followed by the opposite quarter turn
/// of the values at the turned cells `s2`, gives the map back, when the second mapping
/// of values undoes the first and the first turn lands on no value outside `s1`.
pub proof fn lemma_turn_round_trip<V>(
    m: Map<Cell, V>,
    s1: Seq<Cell>,
    s2: Seq<Cell>,
    pivot: Cell,
    cw: bool,
    f: spec_fn(V) -> V,
    g: spec_fn(V) -> V,
)
    requires
        s1.no_duplicates(),
        s2.no_duplicates(),
        cells_turnable(s1.to_set(), pivot, cw),
        s2.to_set() == turned_cells(s1.to_set(), pivot, cw),
        forall|p: Cell| #[trigger] s1.to_set().contains(p) && m.contains_key(p) ==> g(f(m[p])) == m[p],
        forall|p: Cell| #[trigger] s1.to_set().contains(p) && m.contains_key(rotate_pos_y_spec(p, pivot, cw)) ==> s1.to_set().contains(
            rotate_pos_y_spec(p, pivot, cw),
        ),
    ensures
        cells_turnable(s2.to_set(), pivot, !cw),
        relocated(
            relocated(m, turn_moves(m, s1, pivot, cw, f)),
            turn_moves(relocated(m, turn_moves(m, s1, pivot, cw, f)), s2, pivot, !cw, g),
        ) == m,
{
    let s = s1.to_set();
    let t = s2.to_set();
    let m1 = relocated(m, turn_moves(m, s1, pivot, cw, f));
    let m2 = relocated(m1, turn_moves(m1, s2, pivot, !cw, g));
    assert forall|c: Cell| #[trigger] t.contains(c) implies rotate_pos_fits(c, pivot, !cw) && s.contains(rotate_pos_y_spec(c, pivot, !cw))
        && c == rotate_pos_y_spec(rotate_pos_y_spec(c, pivot, !cw), pivot, cw) by {
        let p = choose|p: Cell| s.contains(p) && rotate_pos_y_spec(p, pivot, cw) == c;
        lemma_turn_back_cell(p, pivot, cw);
    }
    assert forall|p: Cell| #[trigger] s.contains(p) implies t.contains(rotate_pos_y_spec(p, pivot, cw)) by {
        assert(turned_cells(s, pivot, cw).contains(rotate_pos_y_spec(p, pivot, cw)));
    }
    lemma_turn_relocated(m, s1, pivot, cw, f);
    lemma_turn_relocated(m1, s2, pivot, !cw, g);
    assert forall|q: Cell| turned_from(m, s, pivot, cw, q) implies t.contains(q) by {
        let p = choose|p: Cell| #[trigger] s.contains(p) && m.contains_key(p) && rotate_pos_y_spec(p, pivot, cw) == q;
    }
    assert forall|q: Cell| turned_from(m1, t, pivot, !cw, q) implies s.contains(q) by {
        let c = choose|c: Cell| #[trigger] t.contains(c) && m1.contains_key(c) && rotate_pos_y_spec(c, pivot, !cw) == q;
    }
    assert forall|q: Cell| m2.contains_key(q) == m.contains_key(q) && (m.contains_key(q) ==> m2[q] == m[q]) by {
        if s.contains(q) {
            let r = rotate_pos_y_spec(q, pivot, cw);
            assert(t.contains(r));
            if turned_from(m, s, pivot, cw, r) {
                let p = choose|p: Cell| #[trigger] s.contains(p) && m.contains_key(p) && rotate_pos_y_spec(p, pivot, cw) == r;
                lemma_turn_injective(p, q, pivot, cw);
            }
            if m.contains_key(q) {
                assert(m1.contains_key(r));
                assert(rotate_pos_y_spec(r, pivot, !cw) == q);
            } else {
                assert(!m1.contains_key(r));
                if turned_from(m1, t, pivot, !cw, q) {
                    let c = choose|c: Cell| #[trigger] t.contains(c) && m1.contains_key(c) && rotate_pos_y_spec(c, pivot, !cw) == q;
                    assert(c == r);
                }
            }
        } else {
            if t.contains(q) {
                let p = rotate_pos_y_spec(q, pivot, !cw);
                assert(s.contains(p));
                assert(rotate_pos_y_spec(p, pivot, cw) == q);
            }
        }
    }
    assert(m2 =~= m);
    assert forall|c: Cell| #[trigger] t.contains(c) implies rotate_pos_fits(c, pivot, !cw) by {}
}


/// A turned block turns back.
proof fn lemma_turned_block_back(b: DeformBlock, cw: bool)
    requires
        block_turnable(b, cw),
    ensures
        block_turnable(turned_block(b, cw), !cw),
        turned_block(turned_block(b, cw), !cw) == b,
{
    crate::cell::lemma_rotate_offset_inverse(b.forward, cw);
    if let Some(d) = b.push {
        crate::cell::lemma_rotate_offset_inverse(d, cw);
    }
    if let Some(d) = b.sealed {
        crate::cell::lemma_rotate_offset_inverse(d, cw);
    }
}

/// Turning the marks of a set of cells leaves marks only: the relocated flags are the
/// flags of their own domain.
proof fn lemma_turned_flags(s: Set<Cell>, cells: Seq<Cell>, pivot: Cell, cw: bool)
    requires
        cells.no_duplicates(),
        cells_turnable(cells.to_set(), pivot, cw),
    ensures
        flags(relocated(flags(s), turn_moves(flags(s), cells, pivot, cw, |x: bool| x)).dom()) == relocated(
            flags(s),
            turn_moves(flags(s), cells, pivot, cw, |x: bool| x),
        ),
{
    let r = relocated(flags(s), turn_moves(flags(s), cells, pivot, cw, |x: bool| x));
    lemma_turn_relocated(flags(s), cells, pivot, cw, |x: bool| x);
    assert forall|q: Cell| #[trigger] r.contains_key(q) implies r[q] == true by {
        if turned_from(flags(s), cells.to_set(), pivot, cw, q) {
            let p = choose|p: Cell| #[trigger] cells.to_set().contains(p) && flags(s).contains_key(p) && rotate_pos_y_spec(p, pivot, cw) == q;
        }
    }
    assert(flags(r.dom()) =~= r);
}

/// The cells the turn lands on outside `cells` hold no block, material, factory or scene
/// mark.
pub open spec fn turn_lands_clear(world: StructureWorld, cells: Set<Cell>, pivot: Cell, cw: bool) -> bool {
    forall|p: Cell| #[trigger] cells.contains(p) ==> {
        let q = rotate_pos_y_spec(p, pivot, cw);
        (world.blocks@.contains_key(q) || world.materials@.contains_key(q) || world.factory@.contains(q) || world.scene@.contains(q))
            ==> cells.contains(q)
    }
}

/// After the turn, the blocks at the turned cells are the blocks that stood at the cells.
proof fn lemma_turned_ids(m: Map<Cell, DeformBlock>, s1: Seq<Cell>, s2: Seq<Cell>, pivot: Cell, cw: bool)
    requires
        s1.no_duplicates(),
        cells_turnable(s1.to_set(), pivot, cw),
        s2.to_set() == turned_cells(s1.to_set(), pivot, cw),
        forall|p: Cell| #[trigger] s1.to_set().contains(p) && m.contains_key(rotate_pos_y_spec(p, pivot, cw)) ==> s1.to_set().contains(
            rotate_pos_y_spec(p, pivot, cw),
        ),
    ensures
        ids_in(relocated(m, turn_moves(m, s1, pivot, cw, |b: DeformBlock| turned_block(b, cw))), s2.to_set()) == ids_in(m, s1.to_set()),
{
    let s = s1.to_set();
    let t = s2.to_set();
    let f = |b: DeformBlock| turned_block(b, cw);
    let m1 = relocated(m, turn_moves(m, s1, pivot, cw, f));
    lemma_turn_relocated(m, s1, pivot, cw, f);
    assert forall|x: u64| ids_in(m1, t).contains(x) <==> ids_in(m, s).contains(x) by {
        if ids_in(m1, t).contains(x) {
            let c = choose|c: Cell| #[trigger] t.contains(c) && m1.contains_key(c) && m1[c].id.0 == x;
            let p0 = choose|p: Cell| s.contains(p) && rotate_pos_y_spec(p, pivot, cw) == c;
            assert(s.contains(p0));
            if turned_from(m, s, pivot, cw, c) {
                let p = choose|p: Cell| #[trigger] s.contains(p) && m.contains_key(p) && rotate_pos_y_spec(p, pivot, cw) == c;
                assert(m1[c] == f(m[p]));
                assert(s.contains(p) && m.contains_key(p) && m[p].id.0 == x);
            } else {
                assert(m.contains_key(c) && !s.contains(c));
            }
        }
        if ids_in(m, s).contains(x) {
            let p = choose|p: Cell| #[trigger] s.contains(p) && m.contains_key(p) && m[p].id.0 == x;
            let c = rotate_pos_y_spec(p, pivot, cw);
            assert(turned_cells(s, pivot, cw).contains(c));
            assert(t.contains(c) && m1.contains_key(c) && m1[c].id.0 == x);
        }
    }
    assert(ids_in(m1, t) =~= ids_in(m, s));
}


/// A quarter turn of a structure followed by the opposite quarter turn of its turned
/// cells about the same pivot gives the world back: the blocks (cells, identities and
/// facings), the material, factory and scene marks, and the paints, stamps, wire panels
/// and factory children on the faces of its blocks. This holds where the first turn
/// lands on no occupied cell outside the structure; `faces1` and `faces2` are the face
/// attachments after the first and the second turn, as [`rotate_structure`] gives them.
pub proof fn lemma_rotate_structure_round_trip(
    world: StructureWorld,
    faces0: FaceAttachments,
    faces1: FaceAttachments,
    faces2: FaceAttachments,
    cells: CellSet,
    back: CellSet,
    pivot: Cell,
    cw: bool,
)
    requires
        cells.wf(),
        back.wf(),
        cells_turnable(cells@, pivot, cw),
        forall|p: Cell| #[trigger] cells@.contains(p) && world.blocks@.contains_key(p) ==> block_turnable(world.blocks@[p], cw),
        faces_turnable(&faces0, cw),
        back@ == turned_cells(cells@, pivot, cw),
        turn_lands_clear(world, cells@, pivot, cw),
        faces_turned(&faces0, &faces1, ids_in(world.blocks@, cells@), cw),
        faces_turned(
            &faces1,
            &faces2,
            ids_in(
                relocated(
                    world.blocks@,
                    turn_moves(world.blocks@, cells.elems(), pivot, cw, |b: DeformBlock| turned_block(b, cw)),
                ),
                back@,
            ),
            !cw,
        ),
    ensures
        ({
            let b1 = relocated(world.blocks@, turn_moves(world.blocks@, cells.elems(), pivot, cw, |b: DeformBlock| turned_block(b, cw)));
            let m1 = relocated(world.materials@, turn_moves(world.materials@, cells.elems(), pivot, cw, |x: BlockId| x));
            let f1 = relocated(flags(world.factory@), turn_moves(flags(world.factory@), cells.elems(), pivot, cw, |x: bool| x)).dom();
            let s1 = relocated(flags(world.scene@), turn_moves(flags(world.scene@), cells.elems(), pivot, cw, |x: bool| x)).dom();
            &&& cells_turnable(back@, pivot, !cw)
            &&& forall|p: Cell| #[trigger] back@.contains(p) && b1.contains_key(p) ==> block_turnable(b1[p], !cw)
            &&& relocated(b1, turn_moves(b1, back.elems(), pivot, !cw, |b: DeformBlock| turned_block(b, !cw))) == world.blocks@
            &&& relocated(m1, turn_moves(m1, back.elems(), pivot, !cw, |x: BlockId| x)) == world.materials@
            &&& relocated(flags(f1), turn_moves(flags(f1), back.elems(), pivot, !cw, |x: bool| x)).dom() == world.factory@
            &&& relocated(flags(s1), turn_moves(flags(s1), back.elems(), pivot, !cw, |x: bool| x)).dom() == world.scene@
            &&& faces2.paints@ == faces0.paints@
            &&& faces2.stamps@ == faces0.stamps@
            &&& faces2.panels@ == faces0.panels@
            &&& faces2.children@ == faces0.children@
        }),
{
    cells.lemma_elems();
    back.lemma_elems();
    let sq = cells.elems();
    let bq = back.elems();
    let s = cells@;
    let bm = world.blocks@;
    let fb = |b: DeformBlock| turned_block(b, cw);
    let gb = |b: DeformBlock| turned_block(b, !cw);
    let b1 = relocated(bm, turn_moves(bm, sq, pivot, cw, fb));
    assert forall|p: Cell| #[trigger] s.contains(p) && bm.contains_key(p) implies gb(fb(bm[p])) == bm[p] by {
        lemma_turned_block_back(bm[p], cw);
    }
    assert forall|p: Cell| #[trigger] s.contains(p) && bm.contains_key(rotate_pos_y_spec(p, pivot, cw)) implies s.contains(
        rotate_pos_y_spec(p, pivot, cw),
    ) by {}
    lemma_turn_round_trip(bm, sq, bq, pivot, cw, fb, gb);
    lemma_turn_relocated(bm, sq, pivot, cw, fb);
    assert forall|c: Cell| #[trigger] back@.contains(c) && b1.contains_key(c) implies block_turnable(b1[c], !cw) by {
        let p0 = choose|p: Cell| s.contains(p) && rotate_pos_y_spec(p, pivot, cw) == c;
        assert(s.contains(p0));
        if turned_from(bm, s, pivot, cw, c) {
            let p = choose|p: Cell| #[trigger] s.contains(p) && bm.contains_key(p) && rotate_pos_y_spec(p, pivot, cw) == c;
            lemma_turned_block_back(bm[p], cw);
        }
    }
    let mm = world.materials@;
    assert forall|p: Cell| #[trigger] s.contains(p) && mm.contains_key(rotate_pos_y_spec(p, pivot, cw)) implies s.contains(
        rotate_pos_y_spec(p, pivot, cw),
    ) by {}
    lemma_turn_round_trip(mm, sq, bq, pivot, cw, |x: BlockId| x, |x: BlockId| x);
    let fm = flags(world.factory@);
    assert forall|p: Cell| #[trigger] s.contains(p) && fm.contains_key(rotate_pos_y_spec(p, pivot, cw)) implies s.contains(
        rotate_pos_y_spec(p, pivot, cw),
    ) by {}
    lemma_turn_round_trip(fm, sq, bq, pivot, cw, |x: bool| x, |x: bool| x);
    lemma_turned_flags(world.factory@, sq, pivot, cw);
    assert(flags(world.factory@).dom() =~= world.factory@);
    let sm = flags(world.scene@);
    assert forall|p: Cell| #[trigger] s.contains(p) && sm.contains_key(rotate_pos_y_spec(p, pivot, cw)) implies s.contains(
        rotate_pos_y_spec(p, pivot, cw),
    ) by {}
    lemma_turn_round_trip(sm, sq, bq, pivot, cw, |x: bool| x, |x: bool| x);
    lemma_turned_flags(world.scene@, sq, pivot, cw);
    assert(flags(world.scene@).dom() =~= world.scene@);
    lemma_turned_ids(bm, sq, bq, pivot, cw);
    let ids = ids_in(bm, s);
    assert forall|i: int| 0 <= i < faces0.paints@.len() implies faces2.paints@[i] == faces0.paints@[i] by {
        crate::cell::lemma_rotate_offset_inverse(faces0.paints@[i].0.normal, cw);
    }
    assert(faces2.paints@ =~= faces0.paints@);
    assert forall|i: int| 0 <= i < faces0.stamps@.len() implies faces2.stamps@[i] == faces0.stamps@[i] by {
        crate::cell::lemma_rotate_offset_inverse(faces0.stamps@[i].0.normal, cw);
    }
    assert(faces2.stamps@ =~= faces0.stamps@);
    assert forall|i: int| 0 <= i < faces0.panels@.len() implies faces2.panels@[i] == faces0.panels@[i] by {
        crate::cell::lemma_rotate_offset_inverse(faces0.panels@[i].normal, cw);
    }
    assert(faces2.panels@ =~= faces0.panels@);
    assert forall|i: int| 0 <= i < faces0.children@.len() implies faces2.children@[i] == faces0.children@[i] by {
        crate::cell::lemma_rotate_offset_inverse(faces0.children@[i].1.parent_face_normal, cw);
    }
    assert(faces2.children@ =~= faces0.children@);
}

} // verus!
