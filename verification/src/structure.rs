//! Connected structures: their kinds, freedoms, bounds and scene anchoring.
use vstd::prelude::*;

use crate::cell::Cell;
use crate::cellmap::CellSet;
use crate::ids::{AcceptorId, BlockId, StructureId};

verus! {

#[derive(Clone, Copy, Debug, PartialEq, Eq, Structural)]
pub enum FactoryActivity {
    Active,
    Inactive,
}

#[derive(Clone, Copy, Debug, PartialEq, Eq, Structural)]
pub enum StructureFreedom {
    Fixed,
    All,
}

#[derive(Clone, Copy, Debug, PartialEq, Eq, Structural)]
pub enum StructureKind {
    Material,
    Factory,
}

impl StructureFreedom {
    /// Whether a structure with this freedom may translate by `offset`
    /// (the offset does not matter: only full freedom allows it).
    pub fn can_translate(self, offset: Cell) -> (r: bool)
        ensures
            r == (self == StructureFreedom::All),
    {
        match self {
            StructureFreedom::All => true,
            StructureFreedom::Fixed => false,
        }
    }
}

/// Coaxial deformable subset: the forward/reverse actions over one node set act together.
#[derive(Clone, Debug)]
pub struct DeformGroup {
    pub actions: Vec<(BlockId, bool)>,
    pub nodes: Vec<BlockId>,
}

impl DeformGroup {
    pub fn new() -> (g: DeformGroup)
        ensures
            g.actions@.len() == 0,
            g.nodes@.len() == 0,
    {
        DeformGroup { actions: Vec::new(), nodes: Vec::new() }
    }
}

/// The two sides of the cut that one pusher action makes.
#[derive(Clone, Debug)]
pub struct DeformSides {
    pub separated: bool,
    pub actor_side: CellSet,
    pub target_side: CellSet,
    pub actor_anchored: bool,
    pub target_anchored: bool,
}

/// Integer bounding box of a structure's members.
#[derive(Clone, Copy, Debug, PartialEq, Eq, Structural)]
pub struct GridBounds {
    pub min: Cell,
    pub max: Cell,
}

/// `b` is the smallest box holding every cell of `s`: each cell lies inside,
/// and each face of the box touches some cell.
pub open spec fn is_bounds_of(b: GridBounds, s: Set<Cell>) -> bool {
    &&& forall|p: Cell|
        #![trigger s.contains(p)]
        s.contains(p) ==> b.min.x <= p.x <= b.max.x && b.min.y <= p.y <= b.max.y && b.min.z
            <= p.z <= b.max.z
    &&& exists|p: Cell| s.contains(p) && p.x == b.min.x
    &&& exists|p: Cell| s.contains(p) && p.y == b.min.y
    &&& exists|p: Cell| s.contains(p) && p.z == b.min.z
    &&& exists|p: Cell| s.contains(p) && p.x == b.max.x
    &&& exists|p: Cell| s.contains(p) && p.y == b.max.y
    &&& exists|p: Cell| s.contains(p) && p.z == b.max.z
}

impl GridBounds {
    /// The bounding box of the cells; none for an empty set.
    pub fn from_positions(positions: &CellSet) -> (r: Option<GridBounds>)
        requires
            positions.wf(),
        ensures
            r is None <==> positions@.is_empty(),
            r matches Some(b) ==> is_bounds_of(b, positions@),
    {
        let cells = positions.to_vec();
        proof {
            positions.lemma_elems();
        }
        if cells.len() == 0 {
            assert(positions@ =~= Set::<Cell>::empty());
            return None;
        }
        let first = cells[0];
        let mut b = GridBounds { min: first, max: first };
        let ghost s = cells@;
        let ghost mut wminx = 0int;
        let ghost mut wminy = 0int;
        let ghost mut wminz = 0int;
        let ghost mut wmaxx = 0int;
        let ghost mut wmaxy = 0int;
        let ghost mut wmaxz = 0int;
        let mut i: usize = 1;
        while i < cells.len()
            invariant
                s == cells@,
                1 <= i <= s.len(),
                forall|j: int|
                    0 <= j < i ==> b.min.x <= (#[trigger] s[j]).x <= b.max.x && b.min.y <= s[j].y
                        <= b.max.y && b.min.z <= s[j].z <= b.max.z,
                0 <= wminx < i && s[wminx].x == b.min.x,
                0 <= wminy < i && s[wminy].y == b.min.y,
                0 <= wminz < i && s[wminz].z == b.min.z,
                0 <= wmaxx < i && s[wmaxx].x == b.max.x,
                0 <= wmaxy < i && s[wmaxy].y == b.max.y,
                0 <= wmaxz < i && s[wmaxz].z == b.max.z,
            decreases s.len() - i,
        {
            let p = cells[i];
            proof {
                if p.x < b.min.x {
                    wminx = i as int;
                }
                if p.y < b.min.y {
                    wminy = i as int;
                }
                if p.z < b.min.z {
                    wminz = i as int;
                }
                if p.x > b.max.x {
                    wmaxx = i as int;
                }
                if p.y > b.max.y {
                    wmaxy = i as int;
                }
                if p.z > b.max.z {
                    wmaxz = i as int;
                }
            }
            b = GridBounds { min: b.min.min(p), max: b.max.max(p) };
            i = i + 1;
        }
        proof {
            assert forall|p: Cell| #![trigger positions@.contains(p)] positions@.contains(p) implies b.min.x
                <= p.x <= b.max.x && b.min.y <= p.y <= b.max.y && b.min.z <= p.z <= b.max.z by {
                let j = choose|j: int| 0 <= j < s.len() && s[j] == p;
                assert(b.min.x <= s[j].x);
            }
            assert(positions@.contains(s[wminx]));
            assert(positions@.contains(s[wminy]));
            assert(positions@.contains(s[wminz]));
            assert(positions@.contains(s[wmaxx]));
            assert(positions@.contains(s[wmaxy]));
            assert(positions@.contains(s[wmaxz]));
            assert(positions@.contains(s[0]));
        }
        Some(b)
    }
}

/// One connected structure (factory or material).
#[derive(Clone, Debug)]
pub struct Structure {
    pub id: StructureId,
    pub kind: StructureKind,
    pub positions: CellSet,
    pub bounds: Option<GridBounds>,
    pub activity: FactoryActivity,
    pub freedom: StructureFreedom,
    pub deform_groups: Vec<DeformGroup>,
    /// Pusher body to logical head, by body.
    pub head_of: Vec<(BlockId, BlockId)>,
    /// Members that touched the scene when the structure was built (anchored).
    pub scene_touching: CellSet,
    /// Recorded gravity supports: a member and the direction of the block holding it.
    pub gravity_support: Vec<(Cell, Cell)>,
}

impl Structure {
    /// Pushable exactly when no member is anchored to the scene.
    pub fn is_pushable(&self) -> (r: bool)
        requires
            self.scene_touching.wf(),
        ensures
            r == (self.scene_touching@ == Set::<Cell>::empty()),
    {
        self.scene_touching.is_empty()
    }

    /// Whether any of the given cells is anchored to the scene.
    pub fn is_scene_anchored_subset(&self, positions: &CellSet) -> (r: bool)
        requires
            positions.wf(),
        ensures
            r == exists|p: Cell| positions@.contains(p) && self.scene_touching@.contains(p),
    {
        let cells = positions.to_vec();
        proof {
            positions.lemma_elems();
        }
        let mut i: usize = 0;
        while i < cells.len()
            invariant
                cells@ == positions.elems(),
                positions@ == positions.elems().to_set(),
                i <= cells@.len(),
                forall|j: int| 0 <= j < i ==> !self.scene_touching@.contains(#[trigger] cells@[j]),
            decreases cells@.len() - i,
        {
            if self.scene_touching.contains(cells[i]) {
                assert(positions@.contains(cells@[i as int]));
                return true;
            }
            i = i + 1;
        }
        assert forall|p: Cell| positions@.contains(p) implies !self.scene_touching@.contains(p) by {
            let j = choose|j: int| 0 <= j < cells@.len() && cells@[j] == p;
        }
        false
    }
}

/// Runtime counter of an acceptor structure.
#[derive(Clone, Debug)]
pub struct AcceptorStructure {
    pub id: AcceptorId,
    pub positions: CellSet,
    pub count: u32,
}

/// An acceptor structure as the world stores it: its identity and its cells.
#[derive(Clone, Debug)]
pub struct StoredAcceptorStructure {
    pub id: AcceptorId,
    pub positions: Vec<Cell>,
}

} // verus!
