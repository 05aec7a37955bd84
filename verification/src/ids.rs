//! Runtime identities of blocks and structures, and the attachments keyed by them.
use vstd::prelude::*;

use crate::cell::Cell;

verus! {

/// Runtime identity of a factory or material block; zero means unassigned.
#[derive(Clone, Copy, Debug, PartialEq, Eq, Structural, Hash)]
pub struct BlockId(pub u64);

impl BlockId {
    pub open spec fn is_none_spec(self) -> bool {
        self.0 == 0
    }

    pub fn none() -> (r: BlockId)
        ensures
            r.0 == 0,
    {
        BlockId(0)
    }

    pub fn is_none(self) -> (r: bool)
        ensures
            r == self.is_none_spec(),
    {
        self.0 == 0
    }
}

/// Runtime identity of a structure: assigned on rebuild, kept while its members move.
#[derive(Clone, Copy, Debug, PartialEq, Eq, Structural, Hash)]
pub struct StructureId(pub u64);

impl StructureId {
    pub open spec fn is_none_spec(self) -> bool {
        self.0 == 0
    }

    /// The reserved identity that names no structure.
    pub fn none() -> (r: StructureId)
        ensures
            r.0 == 0,
    {
        StructureId(0)
    }

    pub fn is_none(self) -> (r: bool)
        ensures
            r == (self.0 == 0),
    {
        self.0 == 0
    }
}

impl Default for StructureId {
    /// The reserved identity that names no structure.
    fn default() -> (r: StructureId)
        ensures
            r.0 == 0,
    {
        StructureId(0)
    }
}

/// Identity of an acceptor structure.
#[derive(Clone, Copy, Debug, PartialEq, Eq, Structural, Hash)]
pub struct AcceptorId(pub u64);

/// Identity of a material kind.
#[derive(Clone, Copy, Debug, PartialEq, Eq, Structural, Hash)]
pub struct MaterialBlockId(pub u32);

/// Identity of a stamp kind.
#[derive(Clone, Copy, Debug, PartialEq, Eq, Structural, Hash)]
pub struct StampMaterialId(pub u32);

/// Identity of a paint kind.
#[derive(Clone, Copy, Debug, PartialEq, Eq, Structural, Hash)]
pub struct PaintMaterialId(pub u32);

/// Face key: a block instance and a world normal.
#[derive(Clone, Copy, Debug, PartialEq, Eq, Structural, Hash)]
pub struct MaterialFace {
    pub block: BlockId,
    pub normal: Cell,
}

impl MaterialFace {
    pub fn new(block: BlockId, normal: Cell) -> (r: MaterialFace)
        ensures
            r == (MaterialFace { block, normal }),
    {
        MaterialFace { block, normal }
    }
}

/// A factory child hanging on one face of its parent block.
#[derive(Clone, Copy, Debug, PartialEq, Eq, Structural, Hash)]
pub struct MaterialAttachment {
    pub parent: BlockId,
    /// World normal from the parent to the child.
    pub parent_face_normal: Cell,
}

/// A weld between two material blocks, stored with the smaller identity first.
#[derive(Clone, Copy, Debug, PartialEq, Eq, Structural, Hash)]
pub struct MaterialWeld {
    pub a: BlockId,
    pub b: BlockId,
}

impl MaterialWeld {
    /// The weld joining `a` and `b`, whatever their order.
    pub open spec fn new_spec(a: BlockId, b: BlockId) -> MaterialWeld {
        if a.0 <= b.0 {
            MaterialWeld { a, b }
        } else {
            MaterialWeld { a: b, b: a }
        }
    }

    pub open spec fn other_spec(self, id: BlockId) -> Option<BlockId> {
        if self.a == id {
            Some(self.b)
        } else if self.b == id {
            Some(self.a)
        } else {
            None
        }
    }

    pub open spec fn contains_spec(self, id: BlockId) -> bool {
        self.a == id || self.b == id
    }

    pub fn new(a: BlockId, b: BlockId) -> (w: MaterialWeld)
        ensures
            w == MaterialWeld::new_spec(a, b),
            w.a.0 <= w.b.0,
    {
        if a.0 <= b.0 {
            MaterialWeld { a, b }
        } else {
            MaterialWeld { a: b, b: a }
        }
    }

    pub fn other(self, id: BlockId) -> (r: Option<BlockId>)
        ensures
            r == self.other_spec(id),
    {
        if self.a == id {
            Some(self.b)
        } else if self.b == id {
            Some(self.a)
        } else {
            None
        }
    }

    pub fn contains(self, id: BlockId) -> (r: bool)
        ensures
            r == self.contains_spec(id),
    {
        self.a == id || self.b == id
    }
}

/// A weld does not depend on the order of its ends, each end leads to the other,
/// and an identity has a partner exactly when the weld contains it.
pub proof fn lemma_weld_symmetric(a: BlockId, b: BlockId, id: BlockId)
    ensures
        MaterialWeld::new_spec(a, b) == MaterialWeld::new_spec(b, a),
        MaterialWeld::new_spec(a, b).contains_spec(a),
        MaterialWeld::new_spec(a, b).contains_spec(b),
        MaterialWeld::new_spec(a, b).other_spec(a) == Some(b),
        MaterialWeld::new_spec(a, b).other_spec(b) == Some(a),
        MaterialWeld::new_spec(a, b).other_spec(id) is Some <==> MaterialWeld::new_spec(
            a,
            b,
        ).contains_spec(id),
{
}

} // verus!
