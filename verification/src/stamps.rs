//! Stamps standing out of the faces of a moving structure: which of them hit a block
//! outside the structure when it translates or turns. A stamp takes no cell of the
//! world; it stands in the cell next to its face.
use vstd::prelude::*;

use crate::cell::{rotate_offset_fits, rotate_offset_y, rotate_offset_y_spec, rotate_pos_fits, rotate_pos_y, rotate_pos_y_spec, Cell};
use crate::cellmap::CellSet;
use crate::deform_graph::DeformBlock;
use crate::ids::{BlockId, MaterialFace, StampMaterialId};

verus! {

/// No two blocks share an identity other than the unassigned one.
pub open spec fn assigned_ids_unique(m: Map<Cell, DeformBlock>) -> bool {
    forall|a: Cell, b: Cell| #[trigger] m.contains_key(a) && #[trigger] m.contains_key(b) && a != b && m[a].id.0 != 0 ==> m[a].id != m[b].id
}

/// `p` is a cell of `structure` holding the block `id` (an assigned identity).
pub open spec fn parent_at(blocks: Map<Cell, DeformBlock>, structure: Set<Cell>, id: BlockId, p: Cell) -> bool {
    structure.contains(p) && blocks.contains_key(p) && blocks[p].id == id && id.0 != 0
}

/// The block `id` stands in `structure`.
pub open spec fn has_parent(blocks: Map<Cell, DeformBlock>, structure: Set<Cell>, id: BlockId) -> bool {
    exists|p: Cell| #[trigger] parent_at(blocks, structure, id, p)
}

/// The cell of `structure` holding the block `id`.
pub open spec fn parent_of(blocks: Map<Cell, DeformBlock>, structure: Set<Cell>, id: BlockId) -> Cell {
    choose|p: Cell| #[trigger] parent_at(blocks, structure, id, p)
}

/// The cell in which the stamp on `face` stands.
pub open spec fn stamp_cell(blocks: Map<Cell, DeformBlock>, structure: Set<Cell>, face: MaterialFace) -> Cell {
    parent_of(blocks, structure, face.block).plus(face.normal)
}

/// The cell `t` holds a block or a colliding system block.
pub open spec fn occupied(blocks: Map<Cell, DeformBlock>, solid: Set<Cell>, t: Cell) -> bool {
    solid.contains(t) || blocks.contains_key(t)
}

/// What moves with a translated structure: its cells and the cells of its stamps.
pub open spec fn moving_volume(blocks: Map<Cell, DeformBlock>, structure: Set<Cell>, stamps: Seq<(MaterialFace, StampMaterialId)>, t: Cell) -> bool {
    structure.contains(t) || exists|i: int|
        0 <= i < stamps.len() && has_parent(blocks, structure, (#[trigger] stamps[i]).0.block) && stamp_cell(blocks, structure, stamps[i].0) == t
}

/// The stamp on `face` hits a block when `structure` translates by `offset`.
pub open spec fn stamp_hits(
    blocks: Map<Cell, DeformBlock>,
    solid: Set<Cell>,
    structure: Set<Cell>,
    stamps: Seq<(MaterialFace, StampMaterialId)>,
    offset: Cell,
    face: MaterialFace,
) -> bool {
    let target = stamp_cell(blocks, structure, face).plus(offset);
    has_parent(blocks, structure, face.block) && !moving_volume(blocks, structure, stamps, target) && occupied(blocks, solid, target)
}

/// The stamps that hit a block when `structure` translates by `offset`, each with the
/// cell it hits, in the order of `stamps`; none when the offset is zero.
pub open spec fn stamp_collisions_spec(
    blocks: Map<Cell, DeformBlock>,
    solid: Set<Cell>,
    structure: Set<Cell>,
    stamps: Seq<(MaterialFace, StampMaterialId)>,
    offset: Cell,
) -> Seq<(MaterialFace, Cell)> {
    if offset == Cell::zero_spec() {
        Seq::empty()
    } else {
        stamps.filter(|e: (MaterialFace, StampMaterialId)| stamp_hits(blocks, solid, structure, stamps, offset, e.0)).map_values(
            |e: (MaterialFace, StampMaterialId)| (e.0, stamp_cell(blocks, structure, e.0).plus(offset)),
        )
    }
}

/// The stamp cells and their translated cells can be computed.
pub open spec fn stamps_fit(
    blocks: Map<Cell, DeformBlock>,
    structure: Set<Cell>,
    stamps: Seq<(MaterialFace, StampMaterialId)>,
    offset: Cell,
) -> bool {
    forall|i: int| 0 <= i < stamps.len() && has_parent(blocks, structure, (#[trigger] stamps[i]).0.block) ==> {
        &&& parent_of(blocks, structure, stamps[i].0.block).add_fits(stamps[i].0.normal)
        &&& stamp_cell(blocks, structure, stamps[i].0).add_fits(offset)
    }
}

/// The cell of `cells` holding the block `id`, if any.
fn find_parent(blocks: &crate::cellmap::CellMap<DeformBlock>, cells: &Vec<Cell>, structure: &CellSet, id: BlockId) -> (r: Option<Cell>)
    requires
        blocks.wf(),
        structure@ == cells@.to_set(),
        assigned_ids_unique(blocks@),
    ensures
        r is Some <==> has_parent(blocks@, structure@, id),
        r is Some ==> r.unwrap() == parent_of(blocks@, structure@, id),
{
    if id.0 == 0 {
        return None;
    }
    let mut i: usize = 0;
    while i < cells.len()
        invariant
            i <= cells@.len(),
            id.0 != 0,
            blocks.wf(),
            assigned_ids_unique(blocks@),
            structure@ == cells@.to_set(),
            forall|j: int| 0 <= j < i ==> !parent_at(blocks@, structure@, id, #[trigger] cells@[j]),
        decreases cells@.len() - i,
    {
        let p = cells[i];
        proof {
            assert(structure@.contains(p));
        }
        if let Some(b) = blocks.get(p) {
            if b.id.0 == id.0 {
                proof {
                    assert(parent_at(blocks@, structure@, id, p));
                    let q = parent_of(blocks@, structure@, id);
                    assert(parent_at(blocks@, structure@, id, q));
                    assert(blocks@.contains_key(p) && blocks@.contains_key(q));
                    if p != q {
                        assert(blocks@[p].id != blocks@[q].id);
                    }
                }
                return Some(p);
            }
        }
        i = i + 1;
    }
    proof {
        if has_parent(blocks@, structure@, id) {
            let q = choose|q: Cell| #[trigger] parent_at(blocks@, structure@, id, q);
            let j = choose|j: int| 0 <= j < cells@.len() && cells@[j] == q;
        }
    }
    None
}

/// The stamps of `stamps` that hit a block (of `blocks`, or a colliding system block of
/// `solid`) when `structure` translates by `offset`, each with the cell it hits.
pub fn stamp_collisions(
    blocks: &crate::cellmap::CellMap<DeformBlock>,
    solid: &CellSet,
    structure: &CellSet,
    stamps: &Vec<(MaterialFace, StampMaterialId)>,
    offset: Cell,
) -> (r: Vec<(MaterialFace, Cell)>)
    requires
        blocks.wf(),
        structure.wf(),
        assigned_ids_unique(blocks@),
        stamps_fit(blocks@, structure@, stamps@, offset),
    ensures
        r@ == stamp_collisions_spec(blocks@, solid@, structure@, stamps@, offset),
{
    if offset == Cell::zero() || stamps.len() == 0 {
        proof {
            if stamps@.len() == 0 {
                reveal(Seq::filter);
                let f = |e: (MaterialFace, StampMaterialId)| stamp_hits(blocks@, solid@, structure@, stamps@, offset, e.0);
                assert(stamps@.filter(f) =~= Seq::<(MaterialFace, StampMaterialId)>::empty());
            }
        }
        return Vec::new();
    }
    let cells = structure.to_vec();
    proof {
        structure.lemma_elems();
    }
    let mut volume = structure.clone();
    let mut i: usize = 0;
    while i < stamps.len()
        invariant
            i <= stamps@.len(),
            blocks.wf(),
            volume.wf(),
            cells@ == structure.elems(),
            structure@ == cells@.to_set(),
            assigned_ids_unique(blocks@),
            stamps_fit(blocks@, structure@, stamps@, offset),
            forall|t: Cell| #[trigger] volume@.contains(t) <==> structure@.contains(t) || exists|j: int|
                0 <= j < i && has_parent(blocks@, structure@, (#[trigger] stamps@[j]).0.block) && stamp_cell(blocks@, structure@, stamps@[j].0) == t,
        decreases stamps@.len() - i,
    {
        let face = stamps[i].0;
        let parent = find_parent(blocks, &cells, structure, face.block);
        if let Some(p) = parent {
            proof {
                assert(has_parent(blocks@, structure@, stamps@[i as int].0.block));
            }
            volume.insert(p.add(face.normal));
        }
        proof {
            assert forall|t: Cell| #[trigger] volume@.contains(t) <==> structure@.contains(t) || exists|j: int|
                0 <= j < i + 1 && has_parent(blocks@, structure@, (#[trigger] stamps@[j]).0.block) && stamp_cell(blocks@, structure@, stamps@[j].0) == t by {
                if exists|j: int|
                    0 <= j < i + 1 && has_parent(blocks@, structure@, (#[trigger] stamps@[j]).0.block) && stamp_cell(blocks@, structure@, stamps@[j].0) == t {
                    let j = choose|j: int|
                        0 <= j < i + 1 && has_parent(blocks@, structure@, (#[trigger] stamps@[j]).0.block) && stamp_cell(blocks@, structure@, stamps@[j].0) == t;
                    if j == i {
                        assert(parent is Some);
                    }
                }
            }
        }
        i = i + 1;
    }
    let ghost hits = |e: (MaterialFace, StampMaterialId)| stamp_hits(blocks@, solid@, structure@, stamps@, offset, e.0);
    let ghost to = |e: (MaterialFace, StampMaterialId)| (e.0, stamp_cell(blocks@, structure@, e.0).plus(offset));
    let mut r: Vec<(MaterialFace, Cell)> = Vec::new();
    let mut k: usize = 0;
    while k < stamps.len()
        invariant
            k <= stamps@.len(),
            blocks.wf(),
            volume.wf(),
            structure@ == cells@.to_set(),
            assigned_ids_unique(blocks@),
            stamps_fit(blocks@, structure@, stamps@, offset),
            forall|t: Cell| #[trigger] volume@.contains(t) <==> moving_volume(blocks@, structure@, stamps@, t),
            hits == (|e: (MaterialFace, StampMaterialId)| stamp_hits(blocks@, solid@, structure@, stamps@, offset, e.0)),
            to == (|e: (MaterialFace, StampMaterialId)| (e.0, stamp_cell(blocks@, structure@, e.0).plus(offset))),
            r@ == stamps@.take(k as int).filter(hits).map_values(to),
        decreases stamps@.len() - k,
    {
        let e = stamps[k];
        let parent = find_parent(blocks, &cells, structure, e.0.block);
        let mut hit = false;
        if let Some(p) = parent {
            proof {
                assert(has_parent(blocks@, structure@, stamps@[k as int].0.block));
            }
            let target = p.add(e.0.normal).add(offset);
            if !volume.contains(target) && (solid.contains(target) || blocks.contains_key(target)) {
                r.push((e.0, target));
                hit = true;
            }
        }
        proof {
            let t0 = stamps@.take(k as int);
            let t1 = stamps@.take(k + 1);
            assert(t1.drop_last() =~= t0);
            assert(hit == hits(e));
            reveal(Seq::filter);
            if hit {
                assert(t0.filter(hits).push(e).map_values(to) =~= t0.filter(hits).map_values(to).push(to(e)));
            }
        }
        k = k + 1;
    }
    proof {
        assert(stamps@.take(k as int) =~= stamps@);
    }
    r
}


/// The cell in which the stamp on `face` stands once `structure` has turned.
pub open spec fn turned_stamp_cell(blocks: Map<Cell, DeformBlock>, structure: Set<Cell>, face: MaterialFace, pivot: Cell, cw: bool) -> Cell {
    rotate_pos_y_spec(parent_of(blocks, structure, face.block), pivot, cw).plus(rotate_offset_y_spec(face.normal, cw))
}

/// What a turning structure fills once turned: its turned cells and the turned cells of
/// its stamps.
pub open spec fn turned_volume(
    blocks: Map<Cell, DeformBlock>,
    structure: Set<Cell>,
    stamps: Seq<(MaterialFace, StampMaterialId)>,
    pivot: Cell,
    cw: bool,
    t: Cell,
) -> bool {
    ||| exists|p: Cell| #[trigger] structure.contains(p) && rotate_pos_y_spec(p, pivot, cw) == t
    ||| exists|i: int|
        0 <= i < stamps.len() && has_parent(blocks, structure, (#[trigger] stamps[i]).0.block) && turned_stamp_cell(
            blocks,
            structure,
            stamps[i].0,
            pivot,
            cw,
        ) == t
}

/// The stamp on `face` hits a block when `structure` turns.
pub open spec fn stamp_hits_turning(
    blocks: Map<Cell, DeformBlock>,
    solid: Set<Cell>,
    structure: Set<Cell>,
    stamps: Seq<(MaterialFace, StampMaterialId)>,
    pivot: Cell,
    cw: bool,
    face: MaterialFace,
) -> bool {
    let target = turned_stamp_cell(blocks, structure, face, pivot, cw);
    has_parent(blocks, structure, face.block) && !turned_volume(blocks, structure, stamps, pivot, cw, target) && occupied(blocks, solid, target)
}

/// The stamps that hit a block when `structure` turns, each with the cell it hits, in the
/// order of `stamps`.
pub open spec fn stamp_collisions_for_rotation_spec(
    blocks: Map<Cell, DeformBlock>,
    solid: Set<Cell>,
    structure: Set<Cell>,
    stamps: Seq<(MaterialFace, StampMaterialId)>,
    pivot: Cell,
    cw: bool,
) -> Seq<(MaterialFace, Cell)> {
    stamps.filter(|e: (MaterialFace, StampMaterialId)| stamp_hits_turning(blocks, solid, structure, stamps, pivot, cw, e.0)).map_values(
        |e: (MaterialFace, StampMaterialId)| (e.0, turned_stamp_cell(blocks, structure, e.0, pivot, cw)),
    )
}

/// The turned cells and turned stamp cells can be computed.
pub open spec fn stamps_turn_fit(
    blocks: Map<Cell, DeformBlock>,
    structure: Set<Cell>,
    stamps: Seq<(MaterialFace, StampMaterialId)>,
    pivot: Cell,
    cw: bool,
) -> bool {
    &&& forall|p: Cell| #[trigger] structure.contains(p) ==> rotate_pos_fits(p, pivot, cw)
    &&& forall|i: int| 0 <= i < stamps.len() && has_parent(blocks, structure, (#[trigger] stamps[i]).0.block) ==> {
        &&& rotate_offset_fits(stamps[i].0.normal, cw)
        &&& rotate_pos_y_spec(parent_of(blocks, structure, stamps[i].0.block), pivot, cw).add_fits(rotate_offset_y_spec(stamps[i].0.normal, cw))
    }
}

/// The stamps of `stamps` that hit a block (of `blocks`, or a colliding system block of
/// `solid`) when `structure` turns a quarter about the vertical line through `pivot`,
/// each with the cell it hits.
pub fn stamp_collisions_for_rotation(
    blocks: &crate::cellmap::CellMap<DeformBlock>,
    solid: &CellSet,
    structure: &CellSet,
    stamps: &Vec<(MaterialFace, StampMaterialId)>,
    pivot: Cell,
    clockwise: bool,
) -> (r: Vec<(MaterialFace, Cell)>)
    requires
        blocks.wf(),
        structure.wf(),
        assigned_ids_unique(blocks@),
        stamps_turn_fit(blocks@, structure@, stamps@, pivot, clockwise),
    ensures
        r@ == stamp_collisions_for_rotation_spec(blocks@, solid@, structure@, stamps@, pivot, clockwise),
{
    let cw = clockwise;
    let cells = structure.to_vec();
    proof {
        structure.lemma_elems();
    }
    let mut volume = CellSet::new();
    let mut i: usize = 0;
    while i < cells.len()
        invariant
            i <= cells@.len(),
            volume.wf(),
            structure@ == cells@.to_set(),
            stamps_turn_fit(blocks@, structure@, stamps@, pivot, cw),
            forall|t: Cell| #[trigger] volume@.contains(t) <==> exists|j: int| 0 <= j < i && rotate_pos_y_spec(#[trigger] cells@[j], pivot, cw) == t,
        decreases cells@.len() - i,
    {
        proof {
            assert(structure@.contains(cells@[i as int]));
        }
        volume.insert(rotate_pos_y(cells[i], pivot, cw));
        proof {
            assert forall|t: Cell| #[trigger] volume@.contains(t) <==> exists|j: int| 0 <= j < i + 1 && rotate_pos_y_spec(#[trigger] cells@[j], pivot, cw) == t by {
                if t == rotate_pos_y_spec(cells@[i as int], pivot, cw) {
                    assert(rotate_pos_y_spec(cells@[i as int], pivot, cw) == t);
                }
            }
        }
        i = i + 1;
    }
    proof {
        assert forall|t: Cell| #[trigger] volume@.contains(t) <==> exists|p: Cell| #[trigger] structure@.contains(p) && rotate_pos_y_spec(p, pivot, cw) == t by {
            if exists|p: Cell| #[trigger] structure@.contains(p) && rotate_pos_y_spec(p, pivot, cw) == t {
                let p = choose|p: Cell| #[trigger] structure@.contains(p) && rotate_pos_y_spec(p, pivot, cw) == t;
                let j = choose|j: int| 0 <= j < cells@.len() && cells@[j] == p;
                assert(rotate_pos_y_spec(cells@[j], pivot, cw) == t);
            }
            if volume@.contains(t) {
                let j = choose|j: int| 0 <= j < cells@.len() && rotate_pos_y_spec(#[trigger] cells@[j], pivot, cw) == t;
                assert(structure@.contains(cells@[j]));
            }
        }
    }
    let mut i: usize = 0;
    while i < stamps.len()
        invariant
            i <= stamps@.len(),
            blocks.wf(),
            volume.wf(),
            structure@ == cells@.to_set(),
            assigned_ids_unique(blocks@),
            stamps_turn_fit(blocks@, structure@, stamps@, pivot, cw),
            forall|t: Cell| #[trigger] volume@.contains(t) <==> (exists|p: Cell| #[trigger] structure@.contains(p) && rotate_pos_y_spec(p, pivot, cw) == t)
                || exists|j: int|
                0 <= j < i && has_parent(blocks@, structure@, (#[trigger] stamps@[j]).0.block) && turned_stamp_cell(
                    blocks@,
                    structure@,
                    stamps@[j].0,
                    pivot,
                    cw,
                ) == t,
        decreases stamps@.len() - i,
    {
        let face = stamps[i].0;
        let parent = find_parent(blocks, &cells, structure, face.block);
        if let Some(p) = parent {
            proof {
                assert(has_parent(blocks@, structure@, stamps@[i as int].0.block));
                assert(structure@.contains(p));
            }
            volume.insert(rotate_pos_y(p, pivot, cw).add(rotate_offset_y(face.normal, cw)));
        }
        proof {
            assert forall|t: Cell| #[trigger] volume@.contains(t) <==> (exists|p: Cell| #[trigger] structure@.contains(p) && rotate_pos_y_spec(p, pivot, cw) == t)
                || exists|j: int|
                0 <= j < i + 1 && has_parent(blocks@, structure@, (#[trigger] stamps@[j]).0.block) && turned_stamp_cell(
                    blocks@,
                    structure@,
                    stamps@[j].0,
                    pivot,
                    cw,
                ) == t by {
                if exists|j: int|
                    0 <= j < i + 1 && has_parent(blocks@, structure@, (#[trigger] stamps@[j]).0.block) && turned_stamp_cell(
                        blocks@,
                        structure@,
                        stamps@[j].0,
                        pivot,
                        cw,
                    ) == t {
                    let j = choose|j: int|
                        0 <= j < i + 1 && has_parent(blocks@, structure@, (#[trigger] stamps@[j]).0.block) && turned_stamp_cell(
                            blocks@,
                            structure@,
                            stamps@[j].0,
                            pivot,
                            cw,
                        ) == t;
                    if j == i {
                        assert(parent is Some);
                    }
                }
            }
        }
        i = i + 1;
    }
    let ghost hits = |e: (MaterialFace, StampMaterialId)| stamp_hits_turning(blocks@, solid@, structure@, stamps@, pivot, cw, e.0);
    let ghost to = |e: (MaterialFace, StampMaterialId)| (e.0, turned_stamp_cell(blocks@, structure@, e.0, pivot, cw));
    let mut r: Vec<(MaterialFace, Cell)> = Vec::new();
    let mut k: usize = 0;
    while k < stamps.len()
        invariant
            k <= stamps@.len(),
            blocks.wf(),
            volume.wf(),
            structure@ == cells@.to_set(),
            assigned_ids_unique(blocks@),
            stamps_turn_fit(blocks@, structure@, stamps@, pivot, cw),
            forall|t: Cell| #[trigger] volume@.contains(t) <==> turned_volume(blocks@, structure@, stamps@, pivot, cw, t),
            hits == (|e: (MaterialFace, StampMaterialId)| stamp_hits_turning(blocks@, solid@, structure@, stamps@, pivot, cw, e.0)),
            to == (|e: (MaterialFace, StampMaterialId)| (e.0, turned_stamp_cell(blocks@, structure@, e.0, pivot, cw))),
            r@ == stamps@.take(k as int).filter(hits).map_values(to),
        decreases stamps@.len() - k,
    {
        let e = stamps[k];
        let parent = find_parent(blocks, &cells, structure, e.0.block);
        let mut hit = false;
        if let Some(p) = parent {
            proof {
                assert(has_parent(blocks@, structure@, stamps@[k as int].0.block));
                assert(structure@.contains(p));
            }
            let target = rotate_pos_y(p, pivot, cw).add(rotate_offset_y(e.0.normal, cw));
            if !volume.contains(target) && (solid.contains(target) || blocks.contains_key(target)) {
                r.push((e.0, target));
                hit = true;
            }
        }
        proof {
            let t0 = stamps@.take(k as int);
            let t1 = stamps@.take(k + 1);
            assert(t1.drop_last() =~= t0);
            assert(hit == hits(e));
            reveal(Seq::filter);
            if hit {
                assert(t0.filter(hits).push(e).map_values(to) =~= t0.filter(hits).map_values(to).push(to(e)));
            }
        }
        k = k + 1;
    }
    proof {
        assert(stamps@.take(k as int) =~= stamps@);
    }
    r
}


/// A turning structure's stamps never collide: the cell a stamp turns into is itself
/// part of what turns, so it counts as free.
pub proof fn lemma_turning_stamps_never_collide(
    blocks: Map<Cell, DeformBlock>,
    solid: Set<Cell>,
    structure: Set<Cell>,
    stamps: Seq<(MaterialFace, StampMaterialId)>,
    pivot: Cell,
    cw: bool,
)
    ensures
        stamp_collisions_for_rotation_spec(blocks, solid, structure, stamps, pivot, cw).len() == 0,
{
    let f = |e: (MaterialFace, StampMaterialId)| stamp_hits_turning(blocks, solid, structure, stamps, pivot, cw, e.0);
    let kept = stamps.filter(f);
    if kept.len() > 0 {
        stamps.lemma_filter_pred(f, 0);
        assert(kept.contains(kept[0]));
        stamps.lemma_filter_contains_rev(f, kept[0]);
        let i = choose|i: int| 0 <= i < stamps.len() && stamps[i] == kept[0];
        let t = turned_stamp_cell(blocks, structure, kept[0].0, pivot, cw);
        assert(has_parent(blocks, structure, stamps[i].0.block) && turned_stamp_cell(blocks, structure, stamps[i].0, pivot, cw) == t);
        assert(turned_volume(blocks, structure, stamps, pivot, cw, t));
    }
}

} // verus!
