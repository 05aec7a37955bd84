//! Fragile materials shatter before the moves of a turn execute: the material a pusher
//! extends its head into, the material a translation runs into, and a fragile material
//! that is itself moved into a cell that will not take it.
use vstd::prelude::*;

use crate::cell::Cell;
use crate::cellmap::CellSet;
use crate::deform_graph::DeformBlock;
use crate::grid::{advance, advanced, lemma_advanced_once_more, welds_without};
use crate::ids::{BlockId, MaterialFace, MaterialWeld, PaintMaterialId, StampMaterialId, StructureId};
use crate::stamps::{
    assigned_ids_unique, stamp_collisions, stamp_collisions_for_rotation, stamp_collisions_for_rotation_spec, stamp_collisions_spec, stamp_hits,
    stamp_hits_turning, stamps_fit, stamps_turn_fit,
};
use crate::moves::{MoveView, PusherActor, PusherAnimationKind, StructureMove};
use crate::rotation::FaceAttachments;
use crate::structure::Structure;
use crate::structure_state::{entry_ok, StructureState};
use crate::rebuild::StructureWorld;

verus! {

/// The cell `target` takes a block moved into it: it is free (no block and no solid
/// system block), or it holds a fragile material that yields.
pub open spec fn accepts_move(blocks: Map<Cell, DeformBlock>, fragile: Set<Cell>, solid: Set<Cell>, target: Cell) -> bool {
    !(solid.contains(target) || blocks.contains_key(target)) || fragile.contains(target)
}

/// `q` holds the fragile material that an extending pusher of `actors` pushes its head
/// into.
pub open spec fn head_shatters(blocks: Map<Cell, DeformBlock>, actors: Seq<PusherActor>, fragile: Set<Cell>, q: Cell) -> bool {
    exists|k: int|
        0 <= k < actors.len() && (#[trigger] actors[k]).animation == PusherAnimationKind::Extend && blocks.contains_key(actors[k].pos)
            && q == actors[k].pos.plus(blocks[actors[k].pos].forward) && fragile.contains(q)
}

/// What the cell `p` of a structure translated by `offset` shatters: the fragile
/// material outside the structure at its target, and `p` itself when it holds a fragile
/// material whose target (not below the floor, outside the structure) neither takes it
/// nor is fragile.
pub open spec fn cell_shatters(
    blocks: Map<Cell, DeformBlock>,
    structure: Set<Cell>,
    offset: Cell,
    fragile: Set<Cell>,
    solid: Set<Cell>,
    p: Cell,
    q: Cell,
) -> bool {
    let target = p.plus(offset);
    ||| (q == target && !structure.contains(target) && fragile.contains(target))
    ||| (q == p && fragile.contains(p) && target.y >= 0 && !structure.contains(target) && !accepts_move(blocks, fragile, solid, target)
        && !fragile.contains(target))
}

/// The cells one planned move shatters. A rotation shatters no cell.
pub open spec fn move_shatters(blocks: Map<Cell, DeformBlock>, mv: MoveView, fragile: Set<Cell>, solid: Set<Cell>, q: Cell) -> bool {
    match mv {
        MoveView::Translate { structure, offset, actors, .. } => {
            ||| head_shatters(blocks, actors, fragile, q)
            ||| (offset != Cell::zero_spec() && exists|p: Cell| #[trigger] structure.contains(p) && cell_shatters(
                blocks,
                structure,
                offset,
                fragile,
                solid,
                p,
                q,
            ))
        },
        MoveView::Rotate { .. } => false,
    }
}

/// The cells the planned moves shatter before they execute.
pub open spec fn shattered_cells(blocks: Map<Cell, DeformBlock>, moves: Seq<MoveView>, fragile: Set<Cell>, solid: Set<Cell>) -> Set<Cell> {
    Set::new(|q: Cell| exists|i: int| 0 <= i < moves.len() && #[trigger] move_shatters(blocks, moves[i], fragile, solid, q))
}

/// Every cell and pusher head a translation of `mv` reads can be computed.
pub open spec fn move_fits(blocks: Map<Cell, DeformBlock>, mv: MoveView) -> bool {
    match mv {
        MoveView::Translate { structure, offset, actors, .. } => {
            &&& forall|p: Cell| #[trigger] structure.contains(p) ==> p.add_fits(offset)
            &&& forall|k: int| 0 <= k < actors.len() && blocks.contains_key((#[trigger] actors[k]).pos) ==> actors[k].pos.add_fits(
                blocks[actors[k].pos].forward,
            )
        },
        MoveView::Rotate { .. } => true,
    }
}

fn add_head_shatters(world: &StructureWorld, actors: &Vec<PusherActor>, fragile: &CellSet, r: &mut CellSet)
    requires
        world.blocks.wf(),
        old(r).wf(),
        forall|k: int| 0 <= k < actors@.len() && world.blocks@.contains_key((#[trigger] actors@[k]).pos) ==> actors@[k].pos.add_fits(
            world.blocks@[actors@[k].pos].forward,
        ),
    ensures
        final(r).wf(),
        forall|q: Cell| #[trigger] final(r)@.contains(q) <==> old(r)@.contains(q) || head_shatters(world.blocks@, actors@, fragile@, q),
{
    let mut k: usize = 0;
    while k < actors.len()
        invariant
            k <= actors@.len(),
            world.blocks.wf(),
            r.wf(),
            forall|k: int| 0 <= k < actors@.len() && world.blocks@.contains_key((#[trigger] actors@[k]).pos) ==> actors@[k].pos.add_fits(
                world.blocks@[actors@[k].pos].forward,
            ),
            forall|q: Cell| #[trigger] r@.contains(q) <==> old(r)@.contains(q) || head_shatters(world.blocks@, actors@.take(k as int), fragile@, q),
        decreases actors@.len() - k,
    {
        let a = actors[k];
        let mut hit: Option<Cell> = None;
        if a.animation == PusherAnimationKind::Extend {
            if let Some(b) = world.blocks.get(a.pos) {
                let head = a.pos.add(b.forward);
                if fragile.contains(head) {
                    r.insert(head);
                    hit = Some(head);
                }
            }
        }
        proof {
            let before = actors@.take(k as int);
            let after = actors@.take(k + 1);
            assert forall|q: Cell| #[trigger] r@.contains(q) <==> old(r)@.contains(q) || head_shatters(world.blocks@, after, fragile@, q) by {
                if head_shatters(world.blocks@, before, fragile@, q) {
                    let j = choose|j: int|
                        0 <= j < before.len() && (#[trigger] before[j]).animation == PusherAnimationKind::Extend && world.blocks@.contains_key(
                            before[j].pos,
                        ) && q == before[j].pos.plus(world.blocks@[before[j].pos].forward) && fragile@.contains(q);
                    assert(after[j] == before[j]);
                }
                if head_shatters(world.blocks@, after, fragile@, q) {
                    let j = choose|j: int|
                        0 <= j < after.len() && (#[trigger] after[j]).animation == PusherAnimationKind::Extend && world.blocks@.contains_key(
                            after[j].pos,
                        ) && q == after[j].pos.plus(world.blocks@[after[j].pos].forward) && fragile@.contains(q);
                    if j < k {
                        assert(before[j] == after[j]);
                    } else {
                        assert(after[j] == a);
                    }
                }
                if hit == Some(q) {
                    assert(after[k as int] == a);
                }
            }
        }
        k = k + 1;
    }
    proof {
        assert(actors@.take(k as int) =~= actors@);
    }
}

fn add_cell_shatters(world: &StructureWorld, structure: &CellSet, offset: Cell, fragile: &CellSet, solid: &CellSet, r: &mut CellSet)
    requires
        world.blocks.wf(),
        structure.wf(),
        old(r).wf(),
        forall|p: Cell| #[trigger] structure@.contains(p) ==> p.add_fits(offset),
    ensures
        final(r).wf(),
        forall|q: Cell| #[trigger] final(r)@.contains(q) <==> old(r)@.contains(q) || exists|p: Cell| #[trigger] structure@.contains(p)
            && cell_shatters(world.blocks@, structure@, offset, fragile@, solid@, p, q),
{
    let cells = structure.to_vec();
    proof {
        structure.lemma_elems();
    }
    let mut i: usize = 0;
    while i < cells.len()
        invariant
            i <= cells@.len(),
            cells@ == structure.elems(),
            structure@ == cells@.to_set(),
            world.blocks.wf(),
            r.wf(),
            forall|p: Cell| #[trigger] structure@.contains(p) ==> p.add_fits(offset),
            forall|q: Cell| #[trigger] r@.contains(q) <==> old(r)@.contains(q) || exists|j: int| 0 <= j < i && cell_shatters(
                world.blocks@,
                structure@,
                offset,
                fragile@,
                solid@,
                #[trigger] cells@[j],
                q,
            ),
        decreases cells@.len() - i,
    {
        let p = cells[i];
        assert(structure@.contains(p));
        let target = p.add(offset);
        if !structure.contains(target) && fragile.contains(target) {
            r.insert(target);
        }
        if fragile.contains(p) && target.y >= 0 && !structure.contains(target) && !fragile.contains(target) && (solid.contains(target)
            || world.blocks.contains_key(target)) {
            r.insert(p);
        }
        proof {
            assert forall|q: Cell| #[trigger] r@.contains(q) <==> old(r)@.contains(q) || exists|j: int| 0 <= j < i + 1 && cell_shatters(
                world.blocks@,
                structure@,
                offset,
                fragile@,
                solid@,
                #[trigger] cells@[j],
                q,
            ) by {
                if cell_shatters(world.blocks@, structure@, offset, fragile@, solid@, p, q) {
                    assert(cells@[i as int] == p);
                }
            }
        }
        i = i + 1;
    }
    proof {
        assert forall|q: Cell| #[trigger] r@.contains(q) <==> old(r)@.contains(q) || exists|p: Cell| #[trigger] structure@.contains(p)
            && cell_shatters(world.blocks@, structure@, offset, fragile@, solid@, p, q) by {
            if exists|p: Cell| #[trigger] structure@.contains(p) && cell_shatters(world.blocks@, structure@, offset, fragile@, solid@, p, q) {
                let p = choose|p: Cell| #[trigger] structure@.contains(p) && cell_shatters(world.blocks@, structure@, offset, fragile@, solid@, p, q);
                assert(cells@.contains(p));
                let j = choose|j: int| 0 <= j < cells@.len() && cells@[j] == p;
                assert(cell_shatters(world.blocks@, structure@, offset, fragile@, solid@, cells@[j], q));
            }
            if exists|j: int| 0 <= j < cells@.len() && cell_shatters(world.blocks@, structure@, offset, fragile@, solid@, #[trigger] cells@[j], q) {
                let j = choose|j: int| 0 <= j < cells@.len() && cell_shatters(world.blocks@, structure@, offset, fragile@, solid@, #[trigger] cells@[j], q);
                assert(structure@.contains(cells@[j]));
            }
        }
    }
}

/// The cells the planned `moves` shatter before they execute, with `fragile` the cells
/// holding a fragile material and `solid` the cells holding a system block that
/// collides.
pub fn fragile_shatter_cells(world: &StructureWorld, moves: &Vec<StructureMove>, fragile: &CellSet, solid: &CellSet) -> (r: CellSet)
    requires
        world.blocks.wf(),
        forall|i: int| 0 <= i < moves@.len() ==> (#[trigger] moves@[i]).wf() && move_fits(world.blocks@, moves@[i]@),
    ensures
        r.wf(),
        r@ == shattered_cells(world.blocks@, moves@.map_values(|m: StructureMove| m@), fragile@, solid@),
{
    let ghost views = moves@.map_values(|m: StructureMove| m@);
    let mut r = CellSet::new();
    let mut i: usize = 0;
    while i < moves.len()
        invariant
            i <= moves@.len(),
            views == moves@.map_values(|m: StructureMove| m@),
            world.blocks.wf(),
            r.wf(),
            forall|i: int| 0 <= i < moves@.len() ==> (#[trigger] moves@[i]).wf() && move_fits(world.blocks@, moves@[i]@),
            forall|q: Cell| #[trigger] r@.contains(q) <==> exists|j: int| 0 <= j < i && #[trigger] move_shatters(
                world.blocks@,
                views[j],
                fragile@,
                solid@,
                q,
            ),
        decreases moves@.len() - i,
    {
        let ghost before = r@;
        let mv = &moves[i];
        assert(mv.wf() && move_fits(world.blocks@, mv@));
        assert(views[i as int] == mv@);
        match mv {
            StructureMove::Translate { structure, offset, actors, .. } => {
                let ghost sv = mv@;
                assert(sv matches MoveView::Translate { structure: s0, offset: o0, actors: a0, .. } && s0 == structure@ && o0 == *offset
                    && a0 == actors@);
                assert(structure.wf());
                assert forall|p: Cell| #[trigger] structure@.contains(p) implies p.add_fits(*offset) by {
                    assert(sv->Translate_structure.contains(p));
                }
                add_head_shatters(world, actors, fragile, &mut r);
                let ghost mid = r@;
                if *offset != Cell::zero() {
                    add_cell_shatters(world, structure, *offset, fragile, solid, &mut r);
                }
                assert forall|q: Cell| #[trigger] r@.contains(q) <==> before.contains(q) || move_shatters(
                    world.blocks@,
                    views[i as int],
                    fragile@,
                    solid@,
                    q,
                ) by {
                    assert(mid.contains(q) <==> before.contains(q) || head_shatters(world.blocks@, actors@, fragile@, q));
                }
            },
            StructureMove::Rotate { .. } => {
                assert(views[i as int] is Rotate);
            },
        }
        proof {
            assert(views[i as int] == moves@[i as int]@);
            assert forall|q: Cell| #[trigger] r@.contains(q) <==> exists|j: int| 0 <= j < i + 1 && #[trigger] move_shatters(
                world.blocks@,
                views[j],
                fragile@,
                solid@,
                q,
            ) by {
                if exists|j: int| 0 <= j < i + 1 && #[trigger] move_shatters(world.blocks@, views[j], fragile@, solid@, q) {
                    let j = choose|j: int| 0 <= j < i + 1 && #[trigger] move_shatters(world.blocks@, views[j], fragile@, solid@, q);
                    if j < i {
                        assert(before.contains(q));
                    }
                }
            }
        }
        i = i + 1;
    }
    proof {
        assert(r@ =~= shattered_cells(world.blocks@, views, fragile@, solid@));
    }
    r
}


/// Filtering twice keeps what both filters keep.
proof fn lemma_filter_filter<A>(s: Seq<A>, p: spec_fn(A) -> bool, q: spec_fn(A) -> bool)
    ensures
        s.filter(p).filter(q) == s.filter(|a: A| p(a) && q(a)),
    decreases s.len(),
{
    reveal(Seq::filter);
    if s.len() > 0 {
        let sp = s.drop_last();
        let l = s.last();
        let pq = |a: A| p(a) && q(a);
        lemma_filter_filter(sp, p, q);
        if p(l) {
            assert(sp.filter(p).push(l).drop_last() =~= sp.filter(p));
        }
        assert(s.filter(pq) == (if pq(l) { sp.filter(pq).push(l) } else { sp.filter(pq) }));
    }
}

/// The identities of the blocks at the cells `cells`, the unassigned identity left out.
pub open spec fn ids_at(blocks: Map<Cell, DeformBlock>, cells: Set<Cell>) -> Set<BlockId> {
    Set::new(|x: BlockId| x.0 != 0 && exists|p: Cell| #[trigger] cells.contains(p) && blocks.contains_key(p) && blocks[p].id == x)
}

/// The welds that hold none of the identities `ids`.
pub open spec fn welds_clear_of(welds: Seq<MaterialWeld>, ids: Set<BlockId>) -> Seq<MaterialWeld> {
    welds.filter(|w: MaterialWeld| !(ids.contains(w.a) || ids.contains(w.b)))
}

/// The paints on no face of a block of `ids`.
pub open spec fn paints_clear_of(paints: Seq<(MaterialFace, PaintMaterialId)>, ids: Set<BlockId>) -> Seq<(MaterialFace, PaintMaterialId)> {
    paints.filter(|e: (MaterialFace, PaintMaterialId)| !ids.contains(e.0.block))
}

/// The wire panels on no face of a block of `ids`.
pub open spec fn panels_clear_of(panels: Seq<MaterialFace>, ids: Set<BlockId>) -> Seq<MaterialFace> {
    panels.filter(|f: MaterialFace| !ids.contains(f.block))
}

/// Every material, factory and scene mark stands on a block.
pub open spec fn marks_on_blocks(world: StructureWorld) -> bool {
    forall|p: Cell| #![trigger world.materials@.contains_key(p)] #![trigger world.factory@.contains(p)] #![trigger world.scene@.contains(p)]
        (world.materials@.contains_key(p) || world.factory@.contains(p) || world.scene@.contains(p)) ==> world.blocks@.contains_key(p)
}

/// Filtering by a predicate that keeps everything keeps the sequence.
proof fn lemma_filter_all<A>(s: Seq<A>, p: spec_fn(A) -> bool)
    requires
        forall|a: A| #[trigger] p(a),
    ensures
        s.filter(p) == s,
    decreases s.len(),
{
    reveal(Seq::filter);
    if s.len() > 0 {
        lemma_filter_all(s.drop_last(), p);
        assert(s.drop_last().push(s.last()) =~= s);
    }
}

/// Removes the blocks at `cells` one by one (as [`StructureWorld::remove`] does) and gives
/// back the material blocks among them with their cells, in the order of `cells`.
pub fn remove_cells(world: &mut StructureWorld, faces: &mut FaceAttachments, cells: &Vec<Cell>) -> (debris: Vec<(Cell, DeformBlock)>)
    requires
        old(world).blocks.wf(),
        old(world).factory.wf(),
        old(world).scene.wf(),
        old(world).materials.wf(),
        cells@.no_duplicates(),
        marks_on_blocks(*old(world)),
    ensures
        final(world).blocks.wf(),
        final(world).factory.wf(),
        final(world).scene.wf(),
        final(world).materials.wf(),
        final(world).blocks@ == old(world).blocks@.remove_keys(cells@.to_set()),
        final(world).factory@ == old(world).factory@.difference(cells@.to_set()),
        final(world).scene@ == old(world).scene@.difference(cells@.to_set()),
        final(world).materials@ == old(world).materials@.remove_keys(cells@.to_set()),
        final(world).acceptors == old(world).acceptors,
        final(world).next_block_id == old(world).next_block_id,
        final(world).topology_revision == advanced(
            old(world).topology_revision,
            cells@.filter(|p: Cell| old(world).blocks@.contains_key(p)).len(),
        ),
        final(world).welds@ == welds_clear_of(old(world).welds@, ids_at(old(world).blocks@, cells@.to_set())),
        final(faces).paints@ == paints_clear_of(old(faces).paints@, ids_at(old(world).blocks@, cells@.to_set())),
        final(faces).panels@ == panels_clear_of(old(faces).panels@, ids_at(old(world).blocks@, cells@.to_set())),
        final(faces).stamps == old(faces).stamps,
        final(faces).children == old(faces).children,
        debris@ == cells@.filter(|p: Cell| old(world).blocks@.contains_key(p) && old(world).materials@.contains_key(p)).map_values(
            |p: Cell| (p, old(world).blocks@[p]),
        ),
{
    let ghost w0 = *world;
    let ghost f0 = *faces;
    let ghost keep = |p: Cell| w0.blocks@.contains_key(p) && w0.materials@.contains_key(p);
    let ghost held = |p: Cell| w0.blocks@.contains_key(p);
    let mut debris: Vec<(Cell, DeformBlock)> = Vec::new();
    let mut i: usize = 0;
    proof {
        let e = ids_at(w0.blocks@, cells@.take(0).to_set());
        assert(e =~= Set::<BlockId>::empty());
        lemma_filter_all(w0.welds@, |w: MaterialWeld| !(e.contains(w.a) || e.contains(w.b)));
        lemma_filter_all(f0.paints@, |x: (MaterialFace, PaintMaterialId)| !e.contains(x.0.block));
        lemma_filter_all(f0.panels@, |f: MaterialFace| !e.contains(f.block));
        assert(cells@.take(0).filter(keep) =~= Seq::<Cell>::empty()) by {
            reveal(Seq::filter);
        }
        assert(cells@.take(0).filter(held) =~= Seq::<Cell>::empty()) by {
            reveal(Seq::filter);
        }
        vstd::arithmetic::div_mod::lemma_small_mod(w0.topology_revision as nat, 0x1_0000_0000_0000_0000nat);
        assert(w0.blocks@.remove_keys(cells@.take(0).to_set()) =~= w0.blocks@);
        assert(w0.materials@.remove_keys(cells@.take(0).to_set()) =~= w0.materials@);
        assert(w0.factory@.difference(cells@.take(0).to_set()) =~= w0.factory@);
        assert(w0.scene@.difference(cells@.take(0).to_set()) =~= w0.scene@);
    }
    while i < cells.len()
        invariant
            i <= cells@.len(),
            cells@.no_duplicates(),
            marks_on_blocks(w0),
            keep == (|p: Cell| w0.blocks@.contains_key(p) && w0.materials@.contains_key(p)),
            world.blocks.wf(),
            world.factory.wf(),
            world.scene.wf(),
            world.materials.wf(),
            world.blocks@ == w0.blocks@.remove_keys(cells@.take(i as int).to_set()),
            world.factory@ == w0.factory@.difference(cells@.take(i as int).to_set()),
            world.scene@ == w0.scene@.difference(cells@.take(i as int).to_set()),
            world.materials@ == w0.materials@.remove_keys(cells@.take(i as int).to_set()),
            world.acceptors == w0.acceptors,
            world.next_block_id == w0.next_block_id,
            held == (|p: Cell| w0.blocks@.contains_key(p)),
            world.topology_revision == advanced(w0.topology_revision, cells@.take(i as int).filter(held).len()),
            world.welds@ == welds_clear_of(w0.welds@, ids_at(w0.blocks@, cells@.take(i as int).to_set())),
            faces.paints@ == paints_clear_of(f0.paints@, ids_at(w0.blocks@, cells@.take(i as int).to_set())),
            faces.panels@ == panels_clear_of(f0.panels@, ids_at(w0.blocks@, cells@.take(i as int).to_set())),
            faces.stamps == f0.stamps,
            faces.children == f0.children,
            debris@ == cells@.take(i as int).filter(keep).map_values(|p: Cell| (p, w0.blocks@[p])),
        decreases cells@.len() - i,
    {
        let p = cells[i];
        let ghost t0 = cells@.take(i as int);
        let ghost t1 = cells@.take(i + 1);
        let ghost ids0 = ids_at(w0.blocks@, t0.to_set());
        let ghost ids1 = ids_at(w0.blocks@, t1.to_set());
        let ghost welds_before = world.welds@;
        let ghost paints_before = faces.paints@;
        let ghost panels_before = faces.panels@;
        proof {
            assert(t1 =~= t0.push(p));
            t0.lemma_push_to_set_commute(p);
            assert(!t0.contains(p)) by {
                if t0.contains(p) {
                    let j = choose|j: int| 0 <= j < t0.len() && t0[j] == p;
                    assert(cells@[j] == cells@[i as int]);
                }
            }
        }
        let is_material = world.materials.contains_key(p);
        assert(is_material == w0.materials@.contains_key(p));
        assert(world.blocks@.contains_key(p) == w0.blocks@.contains_key(p));
        assert(world.blocks@.contains_key(p) ==> world.blocks@[p] == w0.blocks@[p]);
        assert(!w0.blocks@.contains_key(p) ==> !w0.materials@.contains_key(p) && !w0.factory@.contains(p) && !w0.scene@.contains(p));
        let removed = world.remove(faces, p);
        if let Some(b) = removed {
            if is_material {
                debris.push((p, b));
            }
        }
        proof {
            assert(t1.to_set() == t0.to_set().insert(p));
            assert(world.blocks@ =~= w0.blocks@.remove_keys(t1.to_set()));
            assert(world.materials@ =~= w0.materials@.remove_keys(t1.to_set()));
            assert(world.factory@ =~= w0.factory@.difference(t1.to_set()));
            assert(world.scene@ =~= w0.scene@.difference(t1.to_set()));
            assert(t1.drop_last() =~= t0);
            assert(t1.filter(keep) == (if keep(p) { t0.filter(keep).push(p) } else { t0.filter(keep) })) by {
                reveal(Seq::filter);
            }
            assert(t1.filter(held) == (if held(p) { t0.filter(held).push(p) } else { t0.filter(held) })) by {
                reveal(Seq::filter);
            }
            lemma_advanced_once_more(w0.topology_revision, t0.filter(held).len());
            let fv = |p: Cell| (p, w0.blocks@[p]);
            assert(keep(p) == (w0.blocks@.contains_key(p) && w0.materials@.contains_key(p)));
            if w0.blocks@.contains_key(p) && w0.materials@.contains_key(p) {
                assert(t0.filter(keep).push(p).map_values(fv) =~= t0.filter(keep).map_values(fv).push(fv(p)));
                assert(removed == Some(w0.blocks@[p]));
            }
            assert(debris@ =~= t1.filter(keep).map_values(fv));
            if w0.blocks@.contains_key(p) && w0.blocks@[p].id.0 != 0 {
                let x = w0.blocks@[p].id;
                assert forall|y: BlockId| ids1.contains(y) <==> ids0.insert(x).contains(y) by {
                    if ids1.contains(y) && y != x {
                        let q = choose|q: Cell| #[trigger] t1.to_set().contains(q) && w0.blocks@.contains_key(q) && w0.blocks@[q].id == y;
                        assert(t0.to_set().contains(q));
                    }
                    if ids0.contains(y) {
                        let q = choose|q: Cell| #[trigger] t0.to_set().contains(q) && w0.blocks@.contains_key(q) && w0.blocks@[q].id == y;
                        assert(t1.to_set().contains(q));
                    }
                    if y == x {
                        assert(t1.to_set().contains(p));
                    }
                }
                assert(ids1 =~= ids0.insert(x));
                assert(removed == Some(w0.blocks@[p]));
                assert(world.welds@ == welds_without(welds_before, x));
                let p0 = |w: MaterialWeld| !(ids0.contains(w.a) || ids0.contains(w.b));
                let q0 = |w: MaterialWeld| !w.contains_spec(x);
                let p1 = |w: MaterialWeld| !(ids1.contains(w.a) || ids1.contains(w.b));
                assert(world.welds@ == w0.welds@.filter(p0).filter(q0));
                lemma_filter_filter(w0.welds@, p0, q0);
                assert(w0.welds@.filter(p0).filter(q0) == w0.welds@.filter(|w: MaterialWeld| p0(w) && q0(w)));
                assert((|w: MaterialWeld| p0(w) && q0(w)) == p1);
                assert(world.welds@ == welds_clear_of(w0.welds@, ids1));
                let pp0 = |e: (MaterialFace, PaintMaterialId)| !ids0.contains(e.0.block);
                let pq0 = |e: (MaterialFace, PaintMaterialId)| e.0.block != x;
                let pp1 = |e: (MaterialFace, PaintMaterialId)| !ids1.contains(e.0.block);
                assert(faces.paints@ == f0.paints@.filter(pp0).filter(pq0));
                lemma_filter_filter(f0.paints@, pp0, pq0);
                assert(f0.paints@.filter(pp0).filter(pq0) == f0.paints@.filter(|e: (MaterialFace, PaintMaterialId)| pp0(e) && pq0(e)));
                assert((|e: (MaterialFace, PaintMaterialId)| pp0(e) && pq0(e)) == pp1);
                let np0 = |f: MaterialFace| !ids0.contains(f.block);
                let nq0 = |f: MaterialFace| f.block != x;
                let np1 = |f: MaterialFace| !ids1.contains(f.block);
                assert(faces.panels@ == f0.panels@.filter(np0).filter(nq0));
                lemma_filter_filter(f0.panels@, np0, nq0);
                assert(f0.panels@.filter(np0).filter(nq0) == f0.panels@.filter(|f: MaterialFace| np0(f) && nq0(f)));
                assert((|f: MaterialFace| np0(f) && nq0(f)) == np1);
            } else {
                assert forall|y: BlockId| ids1.contains(y) <==> ids0.contains(y) by {
                    if ids1.contains(y) {
                        let q = choose|q: Cell| #[trigger] t1.to_set().contains(q) && w0.blocks@.contains_key(q) && w0.blocks@[q].id == y;
                        assert(t0.to_set().contains(q));
                    }
                    if ids0.contains(y) {
                        let q = choose|q: Cell| #[trigger] t0.to_set().contains(q) && w0.blocks@.contains_key(q) && w0.blocks@[q].id == y;
                        assert(t1.to_set().contains(q));
                    }
                }
                assert(ids1 =~= ids0);
            }
        }
        i = i + 1;
    }
    proof {
        assert(cells@.take(i as int) =~= cells@);
    }
    debris
}


/// The cells of `s` that are not in `cells`.
fn without_cells(s: &CellSet, cells: &Vec<Cell>) -> (r: CellSet)
    requires
        s.wf(),
    ensures
        r.wf(),
        r@ == s@.difference(cells@.to_set()),
{
    let mut r = s.clone();
    let mut i: usize = 0;
    while i < cells.len()
        invariant
            i <= cells@.len(),
            r.wf(),
            r@ == s@.difference(cells@.take(i as int).to_set()),
        decreases cells@.len() - i,
    {
        r.remove(cells[i]);
        proof {
            assert(cells@.take(i + 1) =~= cells@.take(i as int).push(cells@[i as int]));
            cells@.take(i as int).lemma_push_to_set_commute(cells@[i as int]);
            assert(r@ =~= s@.difference(cells@.take(i + 1).to_set()));
        }
        i = i + 1;
    }
    proof {
        assert(cells@.take(i as int) =~= cells@);
    }
    r
}

/// Some cell of `gone` belonged to the structure `k`.
pub open spec fn lost_cells(index: Map<Cell, StructureId>, gone: Set<Cell>, k: u64) -> bool {
    exists|p: Cell| #[trigger] gone.contains(p) && index.contains_key(p) && index[p].0 == k
}

/// `after` is the table `before` where every structure owning a cell of `hit` keeps
/// its members outside `gone` (and drops its recorded gravity supports), and every other
/// structure is unchanged.
pub open spec fn table_cut(
    before: Map<u64, Structure>,
    index: Map<Cell, StructureId>,
    hit: Set<Cell>,
    gone: Set<Cell>,
    after: Map<u64, Structure>,
) -> bool {
    &&& after.dom() == before.dom()
    &&& forall|k: u64| #[trigger] before.contains_key(k) && !lost_cells(index, hit, k) ==> after[k] == before[k]
    &&& forall|k: u64| #[trigger] before.contains_key(k) && lost_cells(index, hit, k) ==> {
        &&& after[k].positions@ == before[k].positions@.difference(gone)
        &&& after[k].id == before[k].id
        &&& after[k].kind == before[k].kind
        &&& after[k].activity == before[k].activity
        &&& after[k].freedom == before[k].freedom
        &&& after[k].deform_groups == before[k].deform_groups
        &&& after[k].head_of == before[k].head_of
        &&& after[k].scene_touching == before[k].scene_touching
        &&& after[k].gravity_support@.len() == 0
    }
}

/// `after` is the table `before` with the cells `gone` taken out of the structures that
/// owned them.
pub open spec fn table_without(before: Map<u64, Structure>, index: Map<Cell, StructureId>, gone: Set<Cell>, after: Map<u64, Structure>) -> bool {
    table_cut(before, index, gone, gone, after)
}

/// Takes the cells `cells` out of the structures that own them.
pub fn remove_from_structures(structures: &mut StructureState, cells: &Vec<Cell>)
    requires
        old(structures).wf(),
    ensures
        final(structures).wf(),
        final(structures).last_id() == old(structures).last_id(),
        final(structures).held() == old(structures).held(),
        final(structures).moving() == old(structures).moving(),
        table_without(old(structures).table(), old(structures).index(), cells@.to_set(), final(structures).table()),
{
    let ghost t0 = structures.table();
    let ghost x0 = structures.index();
    let ghost gone = cells@.to_set();
    proof {
        structures.lemma_wf_facts();
        assert(table_cut(t0, x0, cells@.take(0).to_set(), cells@.to_set(), t0));
    }
    let mut i: usize = 0;
    while i < cells.len()
        invariant
            i <= cells@.len(),
            gone == cells@.to_set(),
            structures.wf(),
            structures.last_id() == old(structures).last_id(),
            structures.held() == old(structures).held(),
            structures.moving() == old(structures).moving(),
            t0 == old(structures).table(),
            x0 == old(structures).index(),
            forall|p: Cell| #[trigger] x0.contains_key(p) ==> t0.contains_key(x0[p].0) && t0[x0[p].0].positions@.contains(p) && t0[x0[p].0].id
                == x0[p],
            forall|k: u64| #[trigger] t0.contains_key(k) ==> t0[k].id.0 == k && forall|p: Cell| #[trigger] t0[k].positions@.contains(p)
                ==> x0.contains_key(p) && x0[p].0 == k,
            table_cut(t0, x0, cells@.take(i as int).to_set(), gone, structures.table()),
        decreases cells@.len() - i,
    {
        let ghost before = structures.table();
        let ghost done = cells@.take(i as int).to_set();
        let p = cells[i];
        proof {
            structures.lemma_wf_facts();
            assert(cells@.take(i + 1) =~= cells@.take(i as int).push(p));
            cells@.take(i as int).lemma_push_to_set_commute(p);
        }
        let id = structures.id_at(p);
        match id {
            Some(sid) => {
                proof {
                    let k = sid.0;
                    assert(before.contains_key(k) && before[k].positions@.contains(p));
                    assert(x0.contains_key(p) && x0[p].0 == k) by {
                        if !lost_cells(x0, done, k) {
                            assert(before[k] == t0[k]);
                        }
                    }
                    assert(!lost_cells(x0, done, k)) by {
                        if lost_cells(x0, done, k) {
                            assert(!before[k].positions@.contains(p));
                        }
                    }
                }
                let old_positions = structures.structure_positions(sid).unwrap().clone();
                let new_positions = without_cells(&old_positions, cells);
                proof {
                    let k = sid.0;
                    assert(old_positions@ == t0[k].positions@);
                    assert(old_positions@.contains(p));
                    assert forall|a: Cell, b: Cell|
                        #![trigger old_positions@.contains(a), old_positions@.contains(b)]
                        old_positions@.contains(a) && old_positions@.contains(b) && structures.index().contains_key(a)
                            && structures.index().contains_key(b) implies structures.index()[a] == structures.index()[b] by {
                        assert(structures.table()[k].positions@.contains(a) && structures.table()[k].positions@.contains(b));
                        assert(entry_ok(k, structures.table()[k], structures.last_id(), structures.index()));
                    }
                    assert forall|a: Cell, c: Cell|
                        #![trigger old_positions@.contains(a), old_positions@.contains(c)]
                        old_positions@.contains(a) && structures.index().contains_key(a) && structures.table().contains_key(
                            structures.index()[a].0,
                        ) && structures.table()[structures.index()[a].0].positions@.contains(c) implies old_positions@.contains(c) by {
                        assert(entry_ok(k, structures.table()[k], structures.last_id(), structures.index()));
                        assert(structures.table()[k].positions@.contains(a));
                    }
                }
                structures.replace_structure_positions(&old_positions, new_positions);
                proof {
                    let k = sid.0;
                    let after = structures.table();
                    let d1 = cells@.take(i + 1).to_set();
                    assert forall|k2: u64| #[trigger] t0.contains_key(k2) && !lost_cells(x0, d1, k2) implies after[k2] == t0[k2] by {
                        if k2 == k {
                            assert(d1.contains(p));
                        }
                        assert(!lost_cells(x0, done, k2)) by {
                            if lost_cells(x0, done, k2) {
                                let q = choose|q: Cell| #[trigger] done.contains(q) && x0.contains_key(q) && x0[q].0 == k2;
                                assert(d1.contains(q));
                            }
                        }
                    }
                    assert forall|k2: u64| #[trigger] t0.contains_key(k2) && lost_cells(x0, d1, k2) implies {
                        &&& after[k2].positions@ == t0[k2].positions@.difference(gone)
                        &&& after[k2].id == t0[k2].id
                        &&& after[k2].kind == t0[k2].kind
                        &&& after[k2].activity == t0[k2].activity
                        &&& after[k2].freedom == t0[k2].freedom
                        &&& after[k2].deform_groups == t0[k2].deform_groups
                        &&& after[k2].head_of == t0[k2].head_of
                        &&& after[k2].scene_touching == t0[k2].scene_touching
                        &&& after[k2].gravity_support@.len() == 0
                    } by {
                        if k2 != k {
                            let q = choose|q: Cell| #[trigger] d1.contains(q) && x0.contains_key(q) && x0[q].0 == k2;
                            if q == p {
                                assert(x0[p].0 == k);
                            }
                            assert(done.contains(q));
                        }
                    }
                }
            },
            None => {
                proof {
                    let d1 = cells@.take(i + 1).to_set();
                    assert forall|k2: u64| #[trigger] t0.contains_key(k2) && lost_cells(x0, d1, k2) implies lost_cells(x0, done, k2) by {
                        let q = choose|q: Cell| #[trigger] d1.contains(q) && x0.contains_key(q) && x0[q].0 == k2;
                        if q == p {
                            if !lost_cells(x0, done, k2) {
                                assert(before[k2] == t0[k2]);
                                assert(t0[k2].positions@.contains(p));
                            }
                        } else {
                            assert(done.contains(q));
                        }
                    }
                    assert forall|k2: u64| #[trigger] t0.contains_key(k2) && lost_cells(x0, done, k2) implies lost_cells(x0, d1, k2) by {
                        let q = choose|q: Cell| #[trigger] done.contains(q) && x0.contains_key(q) && x0[q].0 == k2;
                        assert(d1.contains(q));
                    }
                }
            },
        }
        i = i + 1;
    }
    proof {
        assert(cells@.take(i as int) =~= cells@);
    }
}


/// The move `mv` with the cells `gone` taken out of the structure it moves.
pub open spec fn move_without(mv: MoveView, gone: Set<Cell>) -> MoveView {
    match mv {
        MoveView::Translate { structure_id, structure, offset, actors, mark, source, source_pos } => MoveView::Translate {
            structure_id,
            structure: structure.difference(gone),
            offset,
            actors,
            mark,
            source,
            source_pos,
        },
        MoveView::Rotate { structure_id, structure, pivot, clockwise, source, source_pos } => MoveView::Rotate {
            structure_id,
            structure: structure.difference(gone),
            pivot,
            clockwise,
            source,
            source_pos,
        },
    }
}

fn move_without_cells(mv: StructureMove, cells: &Vec<Cell>) -> (r: StructureMove)
    requires
        mv.wf(),
    ensures
        r.wf(),
        r@ == move_without(mv@, cells@.to_set()),
{
    match mv {
        StructureMove::Translate { structure_id, structure, offset, actors, mark, source, source_pos } => {
            let kept = without_cells(&structure, cells);
            StructureMove::Translate { structure_id, structure: kept, offset, actors, mark, source, source_pos }
        },
        StructureMove::Rotate { structure_id, structure, pivot, clockwise, source, source_pos } => {
            let kept = without_cells(&structure, cells);
            StructureMove::Rotate { structure_id, structure: kept, pivot, clockwise, source, source_pos }
        },
    }
}

/// Takes the cells `cells` out of every planned move, keeping the moves and their order.
pub fn moves_without_cells(moves: &mut Vec<StructureMove>, cells: &Vec<Cell>)
    requires
        forall|i: int| 0 <= i < old(moves)@.len() ==> (#[trigger] old(moves)@[i]).wf(),
    ensures
        final(moves)@.len() == old(moves)@.len(),
        forall|i: int| 0 <= i < final(moves)@.len() ==> (#[trigger] final(moves)@[i]).wf() && final(moves)@[i]@ == move_without(
            old(moves)@[i]@,
            cells@.to_set(),
        ),
{
    let ghost m0 = moves@;
    let mut out: Vec<StructureMove> = Vec::new();
    while moves.len() > 0
        invariant
            out@.len() + moves@.len() == m0.len(),
            moves@ == m0.skip(out@.len() as int),
            forall|i: int| 0 <= i < m0.len() ==> (#[trigger] m0[i]).wf(),
            forall|i: int| 0 <= i < out@.len() ==> (#[trigger] out@[i]).wf() && out@[i]@ == move_without(m0[i]@, cells@.to_set()),
        decreases moves@.len(),
    {
        proof {
            assert(moves@[0] == m0[out@.len() as int]);
        }
        let m = moves.remove(0);
        let r = move_without_cells(m, cells);
        out.push(r);
        proof {
            assert(moves@ =~= m0.skip(out@.len() as int));
        }
    }
    *moves = out;
}

/// Shatters what the planned `moves` break before they execute, with `fragile` the
/// cells holding a fragile material, `solid` those holding a colliding system block and
/// `fragile_stamps` the stamps that are fragile. The cells of [`fragile_shatter_cells`]
/// lose their blocks as [`StructureWorld::remove`] removes them, their structures and
/// every planned move lose them, and the material blocks among them come back as the
/// first debris; the fragile stamps the moves drive into a block ([`shattered_stamps`])
/// come off their faces and come back as the second, with the cell each struck.
/// Nothing changes when nothing shatters.
pub fn apply_fragile_shatter_before_execute(
    world: &mut StructureWorld,
    faces: &mut FaceAttachments,
    moves: &mut Vec<StructureMove>,
    structures: &mut StructureState,
    fragile: &CellSet,
    solid: &CellSet,
    fragile_stamps: &Vec<StampMaterialId>,
) -> (debris: (Vec<(Cell, DeformBlock)>, Vec<(MaterialFace, Cell, StampMaterialId)>))
    requires
        old(world).blocks.wf(),
        old(world).factory.wf(),
        old(world).scene.wf(),
        old(world).materials.wf(),
        marks_on_blocks(*old(world)),
        forall|i: int| 0 <= i < old(moves)@.len() ==> (#[trigger] old(moves)@[i]).wf() && move_fits(old(world).blocks@, old(moves)@[i]@)
            && move_stamps_fit(old(world).blocks@, old(faces).stamps@, old(moves)@[i]@),
        old(structures).wf(),
        assigned_ids_unique(old(world).blocks@),
        faces_unique(old(faces).stamps@),
    ensures
        ({
            let gone = shattered_cells(old(world).blocks@, old(moves)@.map_values(|m: StructureMove| m@), fragile@, solid@);
            let shot = shattered_stamps(
                old(world).blocks@,
                solid@,
                old(faces).stamps@,
                fragile_stamps@.to_set(),
                old(moves)@.map_values(|m: StructureMove| m@),
            );
            &&& final(world).blocks.wf()
            &&& final(world).factory.wf()
            &&& final(world).scene.wf()
            &&& final(world).materials.wf()
            &&& final(world).blocks@ == old(world).blocks@.remove_keys(gone)
            &&& final(world).factory@ == old(world).factory@.difference(gone)
            &&& final(world).scene@ == old(world).scene@.difference(gone)
            &&& final(world).materials@ == old(world).materials@.remove_keys(gone)
            &&& final(world).acceptors == old(world).acceptors
            &&& final(world).next_block_id == old(world).next_block_id
            &&& final(world).welds@ == welds_clear_of(old(world).welds@, ids_at(old(world).blocks@, gone))
            &&& final(faces).paints@ == paints_clear_of(old(faces).paints@, ids_at(old(world).blocks@, gone))
            &&& final(faces).panels@ == panels_clear_of(old(faces).panels@, ids_at(old(world).blocks@, gone))
            &&& final(faces).stamps@ == old(faces).stamps@.filter(|e: (MaterialFace, StampMaterialId)| !shot.contains_key(e.0))
            &&& final(faces).children == old(faces).children
            &&& debris.0@.no_duplicates()
            &&& forall|e: (Cell, DeformBlock)| #[trigger] debris.0@.contains(e) <==> gone.contains(e.0) && old(world).blocks@.contains_key(e.0)
                && old(world).materials@.contains_key(e.0) && e.1 == old(world).blocks@[e.0]
            &&& shot_unique(debris.1@)
            &&& shot_map(debris.1@) == shot
            &&& final(world).topology_revision == advanced(
                old(world).topology_revision,
                Set::new(|p: Cell| gone.contains(p) && old(world).blocks@.contains_key(p)).len() + if shot.dom().is_empty() {
                    0nat
                } else {
                    1nat
                },
            )
            &&& final(moves)@.len() == old(moves)@.len()
            &&& forall|i: int| 0 <= i < final(moves)@.len() ==> (#[trigger] final(moves)@[i]).wf() && final(moves)@[i]@ == move_without(
                old(moves)@[i]@,
                gone,
            )
            &&& final(structures).wf()
            &&& final(structures).last_id() == old(structures).last_id()
            &&& final(structures).held() == old(structures).held()
            &&& final(structures).moving() == old(structures).moving()
            &&& table_without(old(structures).table(), old(structures).index(), gone, final(structures).table())
            &&& gone.is_empty() ==> debris.0@.len() == 0
        }),
{
    let ghost w0 = *world;
    let ghost m0 = moves@;
    let shot = fragile_stamp_hits(&world.blocks, solid, &faces.stamps, fragile_stamps, moves);
    let shatter = fragile_shatter_cells(world, moves, fragile, solid);
    let cells = shatter.to_vec();
    proof {
        shatter.lemma_elems();
    }
    let debris = remove_cells(world, faces, &cells);
    moves_without_cells(moves, &cells);
    remove_from_structures(structures, &cells);
    retain_unshot_stamps(&mut faces.stamps, &shot);
    let ghost removed_revision = world.topology_revision;
    if shot.len() > 0 {
        world.topology_revision = advance(world.topology_revision);
    }
    proof {
        let held = |p: Cell| w0.blocks@.contains_key(p);
        lemma_filter_card(cells@, held);
        assert(cells@.to_set() == shatter@);
        let lost = Set::new(|p: Cell| shatter@.contains(p) && w0.blocks@.contains_key(p));
        assert(Set::new(|x: Cell| cells@.to_set().contains(x) && held(x)) =~= lost);
        if shot@.len() > 0 {
            assert(shot_map(shot@).contains_key(shot@[0].0));
            lemma_advanced_once_more(w0.topology_revision, lost.len());
        } else {
            assert(shot_map(shot@).dom() =~= Set::<MaterialFace>::empty());
            assert(lost.len() + 0nat == lost.len());
        }
    }
    proof {
        let keep = |p: Cell| w0.blocks@.contains_key(p) && w0.materials@.contains_key(p);
        let fv = |p: Cell| (p, w0.blocks@[p]);
        let kept = cells@.filter(keep);
        assert(debris@ == kept.map_values(fv));
        assert forall|e: (Cell, DeformBlock)| #[trigger] debris@.contains(e) <==> shatter@.contains(e.0) && w0.blocks@.contains_key(e.0)
            && w0.materials@.contains_key(e.0) && e.1 == w0.blocks@[e.0] by {
            if debris@.contains(e) {
                let j = choose|j: int| 0 <= j < debris@.len() && debris@[j] == e;
                assert(kept.contains(kept[j]));
                cells@.lemma_filter_contains_rev(keep, kept[j]);
                cells@.lemma_filter_pred(keep, j);
            }
            if shatter@.contains(e.0) && w0.blocks@.contains_key(e.0) && w0.materials@.contains_key(e.0) && e.1 == w0.blocks@[e.0] {
                let j = choose|j: int| 0 <= j < cells@.len() && cells@[j] == e.0;
                cells@.lemma_filter_contains(keep, j);
                let k = choose|k: int| 0 <= k < kept.len() && kept[k] == e.0;
                assert(debris@[k] == e);
            }
        }
        assert(debris@.no_duplicates()) by {
            assert forall|a: int, b: int| 0 <= a < debris@.len() && 0 <= b < debris@.len() && a != b implies debris@[a] != debris@[b] by {
                lemma_filter_unique(cells@, keep, a, b);
            }
        }
        if shatter@.is_empty() {
            assert(cells@.len() == 0);
            assert(kept.len() == 0) by {
                cells@.lemma_filter_len(keep);
            }
        }
    }
    (debris, shot)
}

/// Filtering a sequence without duplicates keeps it without duplicates.
proof fn lemma_filter_unique<A>(s: Seq<A>, p: spec_fn(A) -> bool, a: int, b: int)
    requires
        s.no_duplicates(),
        0 <= a < s.filter(p).len(),
        0 <= b < s.filter(p).len(),
        a != b,
    ensures
        s.filter(p)[a] != s.filter(p)[b],
    decreases s.len(),
{
    reveal(Seq::filter);
    let sp = s.drop_last();
    let l = s.last();
    assert(sp.no_duplicates());
    let fp = sp.filter(p);
    if p(l) {
        assert(s.filter(p) == fp.push(l));
        let last = fp.len() as int;
        if a < last && b < last {
            lemma_filter_unique(sp, p, a, b);
        } else if a < last {
            assert(s.filter(p)[a] == fp[a]);
            assert(fp.contains(fp[a]));
            sp.lemma_filter_contains_rev(p, fp[a]);
            assert(!sp.contains(l));
        } else {
            assert(s.filter(p)[b] == fp[b]);
            assert(fp.contains(fp[b]));
            sp.lemma_filter_contains_rev(p, fp[b]);
            assert(!sp.contains(l));
        }
    } else {
        lemma_filter_unique(sp, p, a, b);
    }
}


/// No two stamps stand on one face.
pub open spec fn faces_unique(stamps: Seq<(MaterialFace, StampMaterialId)>) -> bool {
    forall|i: int, j: int| 0 <= i < stamps.len() && 0 <= j < stamps.len() && i != j ==> (#[trigger] stamps[i]).0 != (#[trigger] stamps[j]).0
}

/// The stamp on `face`.
pub open spec fn stamp_on(stamps: Seq<(MaterialFace, StampMaterialId)>, face: MaterialFace) -> StampMaterialId {
    stamps[choose|i: int| 0 <= i < stamps.len() && (#[trigger] stamps[i]).0 == face].1
}

/// The stamps that hit a block when the move `mv` executes, with the cells they hit.
pub open spec fn move_stamp_hits(
    blocks: Map<Cell, DeformBlock>,
    solid: Set<Cell>,
    stamps: Seq<(MaterialFace, StampMaterialId)>,
    mv: MoveView,
) -> Seq<(MaterialFace, Cell)> {
    match mv {
        MoveView::Translate { structure, offset, .. } => stamp_collisions_spec(blocks, solid, structure, stamps, offset),
        MoveView::Rotate { structure, pivot, clockwise, .. } => stamp_collisions_for_rotation_spec(
            blocks,
            solid,
            structure,
            stamps,
            pivot,
            clockwise,
        ),
    }
}

/// `m` with each hit of a fragile stamp recorded in order: its face to the cell it hit
/// and the stamp (a later hit on a face replaces an earlier one).
pub open spec fn record_hits(
    m: Map<MaterialFace, (Cell, StampMaterialId)>,
    hits: Seq<(MaterialFace, Cell)>,
    stamps: Seq<(MaterialFace, StampMaterialId)>,
    fragile_stamps: Set<StampMaterialId>,
) -> Map<MaterialFace, (Cell, StampMaterialId)>
    decreases hits.len(),
{
    if hits.len() == 0 {
        m
    } else {
        let before = record_hits(m, hits.drop_last(), stamps, fragile_stamps);
        let h = hits.last();
        if fragile_stamps.contains(stamp_on(stamps, h.0)) {
            before.insert(h.0, (h.1, stamp_on(stamps, h.0)))
        } else {
            before
        }
    }
}

/// The fragile stamps the planned moves shatter: by face, the cell the last hit on it
/// struck and the stamp.
pub open spec fn shattered_stamps(
    blocks: Map<Cell, DeformBlock>,
    solid: Set<Cell>,
    stamps: Seq<(MaterialFace, StampMaterialId)>,
    fragile_stamps: Set<StampMaterialId>,
    moves: Seq<MoveView>,
) -> Map<MaterialFace, (Cell, StampMaterialId)>
    decreases moves.len(),
{
    if moves.len() == 0 {
        Map::empty()
    } else {
        record_hits(
            shattered_stamps(blocks, solid, stamps, fragile_stamps, moves.drop_last()),
            move_stamp_hits(blocks, solid, stamps, moves.last()),
            stamps,
            fragile_stamps,
        )
    }
}

/// The stamp collisions of every planned move can be computed.
pub open spec fn move_stamps_fit(blocks: Map<Cell, DeformBlock>, stamps: Seq<(MaterialFace, StampMaterialId)>, mv: MoveView) -> bool {
    match mv {
        MoveView::Translate { structure, offset, .. } => stamps_fit(blocks, structure, stamps, offset),
        MoveView::Rotate { structure, pivot, clockwise, .. } => stamps_turn_fit(blocks, structure, stamps, pivot, clockwise),
    }
}

fn stamp_on_face(stamps: &Vec<(MaterialFace, StampMaterialId)>, face: MaterialFace) -> (r: StampMaterialId)
    requires
        faces_unique(stamps@),
        exists|i: int| 0 <= i < stamps@.len() && (#[trigger] stamps@[i]).0 == face,
    ensures
        r == stamp_on(stamps@, face),
{
    let mut i: usize = 0;
    while i < stamps.len()
        invariant
            i <= stamps@.len(),
            faces_unique(stamps@),
            exists|i: int| 0 <= i < stamps@.len() && (#[trigger] stamps@[i]).0 == face,
            forall|j: int| 0 <= j < i ==> (#[trigger] stamps@[j]).0 != face,
        decreases stamps@.len() - i,
    {
        if stamps[i].0 == face {
            proof {
                let c = choose|c: int| 0 <= c < stamps@.len() && (#[trigger] stamps@[c]).0 == face;
                if c != i {
                    assert(stamps@[c].0 != stamps@[i as int].0);
                }
            }
            return stamps[i].1;
        }
        i = i + 1;
    }
    proof {
        let c = choose|c: int| 0 <= c < stamps@.len() && (#[trigger] stamps@[c]).0 == face;
        assert(stamps@[c].0 != face);
    }
    StampMaterialId(0)
}

/// The view of a list of shattered stamps as a map by face.
pub open spec fn shot_map(shot: Seq<(MaterialFace, Cell, StampMaterialId)>) -> Map<MaterialFace, (Cell, StampMaterialId)> {
    Map::new(
        |f: MaterialFace| exists|i: int| 0 <= i < shot.len() && (#[trigger] shot[i]).0 == f,
        |f: MaterialFace| {
            let i = choose|i: int| 0 <= i < shot.len() && (#[trigger] shot[i]).0 == f;
            (shot[i].1, shot[i].2)
        },
    )
}

/// No two entries of the list share a face.
pub open spec fn shot_unique(shot: Seq<(MaterialFace, Cell, StampMaterialId)>) -> bool {
    forall|i: int, j: int| 0 <= i < shot.len() && 0 <= j < shot.len() && i != j ==> (#[trigger] shot[i]).0 != (#[trigger] shot[j]).0
}

fn record_hit(shot: &mut Vec<(MaterialFace, Cell, StampMaterialId)>, face: MaterialFace, target: Cell, stamp: StampMaterialId)
    requires
        shot_unique(old(shot)@),
    ensures
        shot_unique(final(shot)@),
        shot_map(final(shot)@) == shot_map(old(shot)@).insert(face, (target, stamp)),
{
    let ghost s0 = shot@;
    let mut i: usize = 0;
    while i < shot.len()
        invariant
            i <= shot@.len(),
            shot@ == s0,
            s0 == old(shot)@,
            shot_unique(s0),
            forall|j: int| 0 <= j < i ==> (#[trigger] shot@[j]).0 != face,
        decreases shot@.len() - i,
    {
        if shot[i].0 == face {
            shot.set(i, (face, target, stamp));
            proof {
                assert forall|a: int, b: int| 0 <= a < shot@.len() && 0 <= b < shot@.len() && a != b implies (#[trigger] shot@[a]).0
                    != (#[trigger] shot@[b]).0 by {
                    assert(s0[a].0 != s0[b].0);
                }
                assert forall|f: MaterialFace| #[trigger] shot_map(shot@).contains_key(f) <==> shot_map(s0).insert(face, (target, stamp)).contains_key(f) by {
                    if f != face && shot_map(s0).contains_key(f) {
                        let j = choose|j: int| 0 <= j < s0.len() && (#[trigger] s0[j]).0 == f;
                        assert(shot@[j].0 == f);
                    }
                    if f == face {
                        assert(shot@[i as int].0 == f);
                    }
                    if shot_map(shot@).contains_key(f) && f != face {
                        let j = choose|j: int| 0 <= j < shot@.len() && (#[trigger] shot@[j]).0 == f;
                        assert(s0[j].0 == f);
                    }
                }
                assert forall|f: MaterialFace| #[trigger] shot_map(shot@).contains_key(f) implies shot_map(shot@)[f] == shot_map(s0).insert(
                    face,
                    (target, stamp),
                )[f] by {
                    let j = choose|j: int| 0 <= j < shot@.len() && (#[trigger] shot@[j]).0 == f;
                    if f == face {
                        if j != i {
                            assert(shot@[j].0 != shot@[i as int].0);
                        }
                    } else {
                        let j0 = choose|j: int| 0 <= j < s0.len() && (#[trigger] s0[j]).0 == f;
                        assert(shot@[j0].0 == f);
                        if j0 != j {
                            assert(s0[j0].0 != s0[j].0);
                        }
                    }
                }
                assert(shot_map(shot@) =~= shot_map(s0).insert(face, (target, stamp)));
            }
            return;
        }
        i = i + 1;
    }
    shot.push((face, target, stamp));
    proof {
        let n = s0.len() as int;
        assert forall|a: int, b: int| 0 <= a < shot@.len() && 0 <= b < shot@.len() && a != b implies (#[trigger] shot@[a]).0
            != (#[trigger] shot@[b]).0 by {
            if a < n && b < n {
                assert(s0[a].0 != s0[b].0);
            }
        }
        assert forall|f: MaterialFace| #[trigger] shot_map(shot@).contains_key(f) <==> shot_map(s0).insert(face, (target, stamp)).contains_key(f) by {
            if f != face && shot_map(s0).contains_key(f) {
                let j = choose|j: int| 0 <= j < s0.len() && (#[trigger] s0[j]).0 == f;
                assert(shot@[j].0 == f);
            }
            if f == face {
                assert(shot@[n].0 == f);
            }
            if shot_map(shot@).contains_key(f) && f != face {
                let j = choose|j: int| 0 <= j < shot@.len() && (#[trigger] shot@[j]).0 == f;
                assert(s0[j].0 == f);
            }
        }
        assert forall|f: MaterialFace| #[trigger] shot_map(shot@).contains_key(f) implies shot_map(shot@)[f] == shot_map(s0).insert(
            face,
            (target, stamp),
        )[f] by {
            let j = choose|j: int| 0 <= j < shot@.len() && (#[trigger] shot@[j]).0 == f;
            if f == face {
                if j != n {
                    assert(shot@[j].0 != shot@[n].0);
                }
            } else {
                let j0 = choose|j: int| 0 <= j < s0.len() && (#[trigger] s0[j]).0 == f;
                assert(shot@[j0].0 == f);
                if j0 != j {
                    assert(shot@[j0].0 != shot@[j].0);
                }
            }
        }
        assert(shot_map(shot@) =~= shot_map(s0).insert(face, (target, stamp)));
    }
}


/// Some stamp stands on `face`.
pub open spec fn on_some_stamp(stamps: Seq<(MaterialFace, StampMaterialId)>, face: MaterialFace) -> bool {
    exists|i: int| 0 <= i < stamps.len() && (#[trigger] stamps[i]).0 == face
}

fn has_stamp(ids: &Vec<StampMaterialId>, x: StampMaterialId) -> (r: bool)
    ensures
        r == ids@.contains(x),
{
    let mut i: usize = 0;
    while i < ids.len()
        invariant
            i <= ids@.len(),
            forall|j: int| 0 <= j < i ==> ids@[j] != x,
        decreases ids@.len() - i,
    {
        if ids[i].0 == x.0 {
            assert(ids@[i as int] == x);
            return true;
        }
        i = i + 1;
    }
    false
}

/// Records the hits of fragile stamps among `hits`, in order (see [`record_hits`]).
fn record_fragile_hits(
    shot: &mut Vec<(MaterialFace, Cell, StampMaterialId)>,
    hits: &Vec<(MaterialFace, Cell)>,
    stamps: &Vec<(MaterialFace, StampMaterialId)>,
    fragile_stamps: &Vec<StampMaterialId>,
)
    requires
        shot_unique(old(shot)@),
        faces_unique(stamps@),
        forall|j: int| 0 <= j < hits@.len() ==> on_some_stamp(stamps@, (#[trigger] hits@[j]).0),
    ensures
        shot_unique(final(shot)@),
        shot_map(final(shot)@) == record_hits(shot_map(old(shot)@), hits@, stamps@, fragile_stamps@.to_set()),
{
    let ghost m0 = shot_map(shot@);
    let mut j: usize = 0;
    while j < hits.len()
        invariant
            j <= hits@.len(),
            shot_unique(shot@),
            faces_unique(stamps@),
            m0 == shot_map(old(shot)@),
            forall|j: int| 0 <= j < hits@.len() ==> on_some_stamp(stamps@, (#[trigger] hits@[j]).0),
            shot_map(shot@) == record_hits(m0, hits@.take(j as int), stamps@, fragile_stamps@.to_set()),
        decreases hits@.len() - j,
    {
        let h = hits[j];
        proof {
            assert(on_some_stamp(stamps@, hits@[j as int].0));
        }
        let stamp = stamp_on_face(stamps, h.0);
        if has_stamp(fragile_stamps, stamp) {
            record_hit(shot, h.0, h.1, stamp);
        }
        proof {
            let t1 = hits@.take(j + 1);
            assert(t1.drop_last() =~= hits@.take(j as int));
            assert(t1.last() == h);
            assert(fragile_stamps@.to_set().contains(stamp) == fragile_stamps@.contains(stamp));
        }
        j = j + 1;
    }
    proof {
        assert(hits@.take(j as int) =~= hits@);
    }
}

/// Every hit of a move's stamp collisions is on the face of one of the stamps.
proof fn lemma_hits_on_stamps(blocks: Map<Cell, DeformBlock>, solid: Set<Cell>, stamps: Seq<(MaterialFace, StampMaterialId)>, mv: MoveView)
    ensures
        forall|j: int| 0 <= j < move_stamp_hits(blocks, solid, stamps, mv).len() ==> on_some_stamp(
            stamps,
            (#[trigger] move_stamp_hits(blocks, solid, stamps, mv)[j]).0,
        ),
{
    let hits = move_stamp_hits(blocks, solid, stamps, mv);
    assert forall|j: int| 0 <= j < hits.len() implies on_some_stamp(stamps, (#[trigger] hits[j]).0) by {
        match mv {
            MoveView::Translate { structure, offset, .. } => {
                let f = |e: (MaterialFace, StampMaterialId)| stamp_hits(blocks, solid, structure, stamps, offset, e.0);
                if offset != Cell::zero_spec() {
                    let kept = stamps.filter(f);
                    assert(kept.contains(kept[j]));
                    stamps.lemma_filter_contains_rev(f, kept[j]);
                    let i = choose|i: int| 0 <= i < stamps.len() && stamps[i] == kept[j];
                    assert(stamps[i].0 == hits[j].0);
                }
            },
            MoveView::Rotate { structure, pivot, clockwise, .. } => {
                let f = |e: (MaterialFace, StampMaterialId)| stamp_hits_turning(blocks, solid, structure, stamps, pivot, clockwise, e.0);
                let kept = stamps.filter(f);
                assert(kept.contains(kept[j]));
                stamps.lemma_filter_contains_rev(f, kept[j]);
                let i = choose|i: int| 0 <= i < stamps.len() && stamps[i] == kept[j];
                assert(stamps[i].0 == hits[j].0);
            },
        }
    }
}

/// The fragile stamps the planned `moves` shatter, each face once with the cell its last
/// hit struck and its stamp (see [`shattered_stamps`]).
pub fn fragile_stamp_hits(
    blocks: &crate::cellmap::CellMap<DeformBlock>,
    solid: &CellSet,
    stamps: &Vec<(MaterialFace, StampMaterialId)>,
    fragile_stamps: &Vec<StampMaterialId>,
    moves: &Vec<StructureMove>,
) -> (shot: Vec<(MaterialFace, Cell, StampMaterialId)>)
    requires
        blocks.wf(),
        assigned_ids_unique(blocks@),
        faces_unique(stamps@),
        forall|i: int| 0 <= i < moves@.len() ==> (#[trigger] moves@[i]).wf() && move_stamps_fit(blocks@, stamps@, moves@[i]@),
    ensures
        shot_unique(shot@),
        shot_map(shot@) == shattered_stamps(blocks@, solid@, stamps@, fragile_stamps@.to_set(), moves@.map_values(|m: StructureMove| m@)),
{
    let ghost views = moves@.map_values(|m: StructureMove| m@);
    let mut shot: Vec<(MaterialFace, Cell, StampMaterialId)> = Vec::new();
    proof {
        assert(shot_map(shot@) =~= Map::<MaterialFace, (Cell, StampMaterialId)>::empty());
        assert(views.take(0) =~= Seq::<MoveView>::empty());
    }
    let mut i: usize = 0;
    while i < moves.len()
        invariant
            i <= moves@.len(),
            views == moves@.map_values(|m: StructureMove| m@),
            blocks.wf(),
            assigned_ids_unique(blocks@),
            faces_unique(stamps@),
            forall|i: int| 0 <= i < moves@.len() ==> (#[trigger] moves@[i]).wf() && move_stamps_fit(blocks@, stamps@, moves@[i]@),
            shot_unique(shot@),
            shot_map(shot@) == shattered_stamps(blocks@, solid@, stamps@, fragile_stamps@.to_set(), views.take(i as int)),
        decreases moves@.len() - i,
    {
        let mv = &moves[i];
        assert(mv.wf() && move_stamps_fit(blocks@, stamps@, mv@));
        assert(views[i as int] == mv@);
        let hits = match mv {
            StructureMove::Translate { structure, offset, .. } => {
                let ghost sv = mv@;
                assert(sv matches MoveView::Translate { structure: s0, offset: o0, .. } && s0 == structure@ && o0 == *offset);
                stamp_collisions(blocks, solid, structure, stamps, *offset)
            },
            StructureMove::Rotate { structure, pivot, clockwise, .. } => {
                let ghost sv = mv@;
                assert(sv matches MoveView::Rotate { structure: s0, pivot: p0, clockwise: c0, .. } && s0 == structure@ && p0 == *pivot && c0
                    == *clockwise);
                stamp_collisions_for_rotation(blocks, solid, structure, stamps, *pivot, *clockwise)
            },
        };
        proof {
            assert(hits@ == move_stamp_hits(blocks@, solid@, stamps@, views[i as int]));
            lemma_hits_on_stamps(blocks@, solid@, stamps@, views[i as int]);
        }
        record_fragile_hits(&mut shot, &hits, stamps, fragile_stamps);
        proof {
            let t1 = views.take(i + 1);
            assert(t1.drop_last() =~= views.take(i as int));
            assert(t1.last() == views[i as int]);
        }
        i = i + 1;
    }
    proof {
        assert(views.take(i as int) =~= views);
    }
    shot
}


fn shot_has_face(shot: &Vec<(MaterialFace, Cell, StampMaterialId)>, face: MaterialFace) -> (r: bool)
    ensures
        r == shot_map(shot@).contains_key(face),
{
    let mut i: usize = 0;
    while i < shot.len()
        invariant
            i <= shot@.len(),
            forall|j: int| 0 <= j < i ==> (#[trigger] shot@[j]).0 != face,
        decreases shot@.len() - i,
    {
        if shot[i].0 == face {
            assert(shot@[i as int].0 == face);
            return true;
        }
        i = i + 1;
    }
    false
}

/// Takes off the stamps on the faces of `shot`.
fn retain_unshot_stamps(stamps: &mut Vec<(MaterialFace, StampMaterialId)>, shot: &Vec<(MaterialFace, Cell, StampMaterialId)>)
    ensures
        final(stamps)@ == old(stamps)@.filter(|e: (MaterialFace, StampMaterialId)| !shot_map(shot@).contains_key(e.0)),
{
    let ghost keep = |e: (MaterialFace, StampMaterialId)| !shot_map(shot@).contains_key(e.0);
    let mut kept: Vec<(MaterialFace, StampMaterialId)> = Vec::new();
    let mut i: usize = 0;
    while i < stamps.len()
        invariant
            i <= stamps@.len(),
            stamps@ == old(stamps)@,
            keep == (|e: (MaterialFace, StampMaterialId)| !shot_map(shot@).contains_key(e.0)),
            kept@ == stamps@.take(i as int).filter(keep),
        decreases stamps@.len() - i,
    {
        let e = stamps[i];
        if !shot_has_face(shot, e.0) {
            kept.push(e);
        }
        proof {
            reveal(Seq::filter);
            assert(stamps@.take(i + 1).drop_last() =~= stamps@.take(i as int));
        }
        i = i + 1;
    }
    proof {
        assert(stamps@.take(i as int) =~= stamps@);
    }
    *stamps = kept;
}


/// Filtering a sequence without duplicates keeps as many members as the set of its
/// members that pass.
proof fn lemma_filter_card<A>(s: Seq<A>, p: spec_fn(A) -> bool)
    requires
        s.no_duplicates(),
    ensures
        s.filter(p).len() == Set::new(|x: A| s.to_set().contains(x) && p(x)).len(),
{
    let f = s.filter(p);
    assert(f.no_duplicates()) by {
        assert forall|a: int, b: int| 0 <= a < f.len() && 0 <= b < f.len() && a != b implies f[a] != f[b] by {
            lemma_filter_unique(s, p, a, b);
        }
    }
    f.unique_seq_to_set();
    assert forall|x: A| f.to_set().contains(x) <==> s.to_set().contains(x) && p(x) by {
        if f.to_set().contains(x) {
            assert(f.contains(x));
            s.lemma_filter_contains_rev(p, x);
            let j = choose|j: int| 0 <= j < f.len() && f[j] == x;
            s.lemma_filter_pred(p, j);
        }
        if s.to_set().contains(x) && p(x) {
            let j = choose|j: int| 0 <= j < s.len() && s[j] == x;
            s.lemma_filter_contains(p, j);
        }
    }
    assert(f.to_set() =~= Set::new(|x: A| s.to_set().contains(x) && p(x)));
}

} // verus!
