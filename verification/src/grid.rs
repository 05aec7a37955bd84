//! Edits of the block grid itself: giving a placed block its runtime identity, and
//! removing a block with what hangs on it (its welds, paints and wire panels).
use vstd::prelude::*;

use crate::cell::Cell;
use crate::cellmap::{CellMap, CellSet};
use crate::deform_graph::DeformBlock;
use crate::ids::{BlockId, MaterialFace, MaterialWeld, PaintMaterialId};
use crate::rebuild::StructureWorld;
use crate::rotation::FaceAttachments;

verus! {

/// The identity a placed block ends with: none for a block that is neither a factory nor
/// a material block; the next free identity for one placed without an identity; its own
/// identity otherwise.
pub open spec fn assigned_id(next: u64, id: BlockId, identified: bool) -> BlockId {
    if !identified {
        BlockId(0)
    } else if id.0 == 0 {
        BlockId(if next < 1 { 1 } else { next })
    } else {
        id
    }
}

/// The world's next free identity after a placed block was given its identity.
pub open spec fn next_after_assign(next: u64, id: BlockId, identified: bool) -> int {
    if !identified {
        next as int
    } else if id.0 == 0 {
        (if next < 1 { 1 } else { next as int }) + 1
    } else {
        let bumped: int = if id.0 == u64::MAX { u64::MAX as int } else { id.0 + 1 };
        if next >= bumped { next as int } else { bumped }
    }
}

/// The revision `r` advanced `n` times, wrapping.
pub open spec fn advanced(r: u64, n: nat) -> u64 {
    ((r + n) % 0x1_0000_0000_0000_0000) as u64
}

/// Advancing once more.
pub proof fn lemma_advanced_once_more(r: u64, n: nat)
    ensures
        advanced(advanced(r, n), 1) == advanced(r, n + 1),
{
    let m: int = 0x1_0000_0000_0000_0000;
    vstd::arithmetic::div_mod::lemma_add_mod_noop(r + n, 1, m);
    vstd::arithmetic::div_mod::lemma_small_mod(1, m as nat);
}

/// The revision after one change of topology.
pub fn advance(r: u64) -> (a: u64)
    ensures
        a == advanced(r, 1),
{
    if r == u64::MAX {
        assert((u64::MAX + 1) % 0x1_0000_0000_0000_0000int == 0);
        0
    } else {
        proof {
            vstd::arithmetic::div_mod::lemma_small_mod((r + 1) as nat, 0x1_0000_0000_0000_0000nat);
        }
        r + 1
    }
}

/// The welds that do not hold `id`.
pub open spec fn welds_without(welds: Seq<MaterialWeld>, id: BlockId) -> Seq<MaterialWeld> {
    welds.filter(|w: MaterialWeld| !w.contains_spec(id))
}

/// The paints that are not on a face of `id`.
pub open spec fn paints_without(paints: Seq<(MaterialFace, PaintMaterialId)>, id: BlockId) -> Seq<(MaterialFace, PaintMaterialId)> {
    paints.filter(|e: (MaterialFace, PaintMaterialId)| e.0.block != id)
}

/// The wire panels that are not on a face of `id`.
pub open spec fn panels_without(panels: Seq<MaterialFace>, id: BlockId) -> Seq<MaterialFace> {
    panels.filter(|f: MaterialFace| f.block != id)
}

fn retain_welds(welds: &mut Vec<MaterialWeld>, id: BlockId)
    ensures
        final(welds)@ == welds_without(old(welds)@, id),
{
    let mut kept: Vec<MaterialWeld> = Vec::new();
    let mut i: usize = 0;
    while i < welds.len()
        invariant
            i <= welds@.len(),
            welds@ == old(welds)@,
            kept@ == welds_without(welds@.take(i as int), id),
        decreases welds@.len() - i,
    {
        let w = welds[i];
        if !w.contains(id) {
            kept.push(w);
        }
        proof {
            reveal(Seq::filter);
            assert(welds@.take(i + 1).drop_last() =~= welds@.take(i as int));
        }
        i = i + 1;
    }
    proof {
        assert(welds@.take(i as int) =~= welds@);
    }
    *welds = kept;
}

fn retain_paints(paints: &mut Vec<(MaterialFace, PaintMaterialId)>, id: BlockId)
    ensures
        final(paints)@ == paints_without(old(paints)@, id),
{
    let mut kept: Vec<(MaterialFace, PaintMaterialId)> = Vec::new();
    let mut i: usize = 0;
    while i < paints.len()
        invariant
            i <= paints@.len(),
            paints@ == old(paints)@,
            kept@ == paints_without(paints@.take(i as int), id),
        decreases paints@.len() - i,
    {
        let e = paints[i];
        if e.0.block.0 != id.0 {
            kept.push(e);
        }
        proof {
            reveal(Seq::filter);
            assert(paints@.take(i + 1).drop_last() =~= paints@.take(i as int));
        }
        i = i + 1;
    }
    proof {
        assert(paints@.take(i as int) =~= paints@);
    }
    *paints = kept;
}

fn retain_panels(panels: &mut Vec<MaterialFace>, id: BlockId)
    ensures
        final(panels)@ == panels_without(old(panels)@, id),
{
    let mut kept: Vec<MaterialFace> = Vec::new();
    let mut i: usize = 0;
    while i < panels.len()
        invariant
            i <= panels@.len(),
            panels@ == old(panels)@,
            kept@ == panels_without(panels@.take(i as int), id),
        decreases panels@.len() - i,
    {
        let f = panels[i];
        if f.block.0 != id.0 {
            kept.push(f);
        }
        proof {
            reveal(Seq::filter);
            assert(panels@.take(i + 1).drop_last() =~= panels@.take(i as int));
        }
        i = i + 1;
    }
    proof {
        assert(panels@.take(i as int) =~= panels@);
    }
    *panels = kept;
}

impl StructureWorld {
    /// Gives a block placed with identity `id` its runtime identity: only factory and
    /// material blocks (`identified`) get one; a block without one takes the next free
    /// identity, and a block that has one moves the next free identity past it.
    pub fn assign_block_id(&mut self, id: BlockId, identified: bool) -> (r: BlockId)
        requires
            identified && id.0 == 0 ==> old(self).next_block_id < u64::MAX,
        ensures
            r == assigned_id(old(self).next_block_id, id, identified),
            final(self).next_block_id == next_after_assign(old(self).next_block_id, id, identified),
            final(self).blocks == old(self).blocks,
            final(self).factory == old(self).factory,
            final(self).scene == old(self).scene,
            final(self).materials == old(self).materials,
            final(self).welds == old(self).welds,
            final(self).acceptors == old(self).acceptors,
            final(self).topology_revision == old(self).topology_revision,
    {
        if !identified {
            return BlockId(0);
        }
        if id.0 == 0 {
            if self.next_block_id < 1 {
                self.next_block_id = 1;
            }
            let r = BlockId(self.next_block_id);
            self.next_block_id = self.next_block_id + 1;
            r
        } else {
            let bumped = id.0.saturating_add(1);
            if self.next_block_id < bumped {
                self.next_block_id = bumped;
            }
            id
        }
    }

    /// Removes the block at `pos` and gives it back: the cell loses its block and its
    /// factory, scene and material marks, and when the block had an identity, the welds
    /// holding it and the paints and wire panels on its faces go with it; the topology
    /// revision advances. Nothing changes where no block stands.
    pub fn remove(&mut self, faces: &mut FaceAttachments, pos: Cell) -> (r: Option<DeformBlock>)
        requires
            old(self).blocks.wf(),
            old(self).factory.wf(),
            old(self).scene.wf(),
            old(self).materials.wf(),
        ensures
            r == (if old(self).blocks@.contains_key(pos) { Some(old(self).blocks@[pos]) } else { None::<DeformBlock> }),
            final(self).blocks.wf(),
            final(self).factory.wf(),
            final(self).scene.wf(),
            final(self).materials.wf(),
            r is None ==> {
                &&& final(self).blocks@ == old(self).blocks@
                &&& final(self).factory == old(self).factory
                &&& final(self).scene == old(self).scene
                &&& final(self).materials == old(self).materials
                &&& final(self).welds == old(self).welds
                &&& final(self).acceptors == old(self).acceptors
                &&& final(self).next_block_id == old(self).next_block_id
                &&& final(self).topology_revision == old(self).topology_revision
                &&& *final(faces) == *old(faces)
            },
            r is Some ==> {
                &&& final(self).blocks@ == old(self).blocks@.remove(pos)
                &&& final(self).factory@ == old(self).factory@.remove(pos)
                &&& final(self).scene@ == old(self).scene@.remove(pos)
                &&& final(self).materials@ == old(self).materials@.remove(pos)
                &&& final(self).acceptors == old(self).acceptors
                &&& final(self).next_block_id == old(self).next_block_id
                &&& final(self).topology_revision == advanced(old(self).topology_revision, 1)
                &&& final(faces).stamps == old(faces).stamps
                &&& final(faces).children == old(faces).children
                &&& final(self).welds@ == (if r.unwrap().id.0 == 0 { old(self).welds@ } else { welds_without(old(self).welds@, r.unwrap().id) })
                &&& final(faces).paints@ == (if r.unwrap().id.0 == 0 { old(faces).paints@ } else { paints_without(old(faces).paints@, r.unwrap().id) })
                &&& final(faces).panels@ == (if r.unwrap().id.0 == 0 { old(faces).panels@ } else { panels_without(old(faces).panels@, r.unwrap().id) })
            },
    {
        let removed = self.blocks.remove(pos);
        match removed {
            None => None,
            Some(b) => {
                self.factory.remove(pos);
                self.scene.remove(pos);
                self.materials.remove(pos);
                if b.id.0 != 0 {
                    retain_welds(&mut self.welds, b.id);
                    retain_paints(&mut faces.paints, b.id);
                    retain_panels(&mut faces.panels, b.id);
                }
                self.topology_revision = advance(self.topology_revision);
                Some(b)
            },
        }
    }

    /// Empties the grid: its blocks with their marks, the welds, the paints and wire
    /// panels, and the acceptor structures go, and the topology revision advances;
    /// nothing changes when all of these are already empty. Stamps and factory children
    /// are left as they are.
    pub fn clear(&mut self, faces: &mut FaceAttachments)
        requires
            old(self).blocks.wf(),
        ensures
            ({
                let was_empty = old(self).blocks@.dom().is_empty() && old(self).acceptors@.len() == 0 && old(faces).paints@.len() == 0
                    && old(faces).panels@.len() == 0;
                &&& was_empty ==> *final(self) == *old(self) && *final(faces) == *old(faces)
                &&& !was_empty ==> {
                    &&& final(self).blocks.wf()
                    &&& final(self).factory.wf()
                    &&& final(self).scene.wf()
                    &&& final(self).materials.wf()
                    &&& final(self).blocks@ == Map::<Cell, DeformBlock>::empty()
                    &&& final(self).factory@ == Set::<Cell>::empty()
                    &&& final(self).scene@ == Set::<Cell>::empty()
                    &&& final(self).materials@ == Map::<Cell, BlockId>::empty()
                    &&& final(self).welds@.len() == 0
                    &&& final(self).acceptors@.len() == 0
                    &&& final(self).next_block_id == old(self).next_block_id
                    &&& final(self).topology_revision == advanced(old(self).topology_revision, 1)
                    &&& final(faces).paints@.len() == 0
                    &&& final(faces).panels@.len() == 0
                    &&& final(faces).stamps == old(faces).stamps
                    &&& final(faces).children == old(faces).children
                }
            }),
    {
        if !self.blocks.is_empty() || self.acceptors.len() > 0 || faces.paints.len() > 0 || faces.panels.len() > 0 {
            self.blocks = CellMap::new();
            self.factory = CellSet::new();
            self.scene = CellSet::new();
            self.materials = CellMap::new();
            self.welds = Vec::new();
            self.acceptors = Vec::new();
            faces.paints = Vec::new();
            faces.panels = Vec::new();
            self.topology_revision = advance(self.topology_revision);
        }
    }
}

} // verus!
