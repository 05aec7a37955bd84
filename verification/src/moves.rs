//! Planned structure moves: translations and rotations with their sources.
use vstd::prelude::*;

use crate::cell::Cell;
use crate::cellmap::{CellMap, CellSet};
use crate::ids::{BlockId, StructureId};

verus! {

#[derive(Clone, Copy, Debug, PartialEq, Eq, Structural)]
pub enum MovementMark {
    Conveyor,
    Push,
    Vertical,
}

#[derive(Clone, Copy, Debug, PartialEq, Eq, Structural)]
pub enum PusherAnimationKind {
    Extend,
    Retract,
}

/// A pusher whose head moves with a translation.
#[derive(Clone, Copy, Debug, PartialEq, Eq, Structural)]
pub struct PusherActor {
    pub id: BlockId,
    pub pos: Cell,
    pub animation: PusherAnimationKind,
}

/// A planned move of one structure (or a subset of it).
#[derive(Debug)]
pub enum StructureMove {
    Translate {
        structure_id: StructureId,
        structure: CellSet,
        offset: Cell,
        /// Pushers extending or retracting together with this translation.
        actors: Vec<PusherActor>,
        mark: MovementMark,
        source: Option<BlockId>,
        source_pos: Option<Cell>,
    },
    Rotate {
        structure_id: StructureId,
        structure: CellSet,
        pivot: Cell,
        clockwise: bool,
        source: Option<BlockId>,
        source_pos: Option<Cell>,
    },
}

/// Abstract value of a planned move: cells as a set, actors in order.
pub enum MoveView {
    Translate {
        structure_id: StructureId,
        structure: Set<Cell>,
        offset: Cell,
        actors: Seq<PusherActor>,
        mark: MovementMark,
        source: Option<BlockId>,
        source_pos: Option<Cell>,
    },
    Rotate {
        structure_id: StructureId,
        structure: Set<Cell>,
        pivot: Cell,
        clockwise: bool,
        source: Option<BlockId>,
        source_pos: Option<Cell>,
    },
}

impl MoveView {
    /// The same move attributed to the source block `b` at `p`.
    pub open spec fn with_source_spec(self, b: BlockId, p: Cell) -> MoveView {
        match self {
            MoveView::Translate { structure_id, structure, offset, actors, mark, .. } => MoveView::Translate {
                structure_id,
                structure,
                offset,
                actors,
                mark,
                source: Some(b),
                source_pos: Some(p),
            },
            MoveView::Rotate { structure_id, structure, pivot, clockwise, .. } => MoveView::Rotate {
                structure_id,
                structure,
                pivot,
                clockwise,
                source: Some(b),
                source_pos: Some(p),
            },
        }
    }

    pub open spec fn structure_id(self) -> StructureId {
        match self {
            MoveView::Translate { structure_id, .. } => structure_id,
            MoveView::Rotate { structure_id, .. } => structure_id,
        }
    }

    pub open spec fn source(self) -> Option<BlockId> {
        match self {
            MoveView::Translate { source, .. } => source,
            MoveView::Rotate { source, .. } => source,
        }
    }

    pub open spec fn source_pos(self) -> Option<Cell> {
        match self {
            MoveView::Translate { source_pos, .. } => source_pos,
            MoveView::Rotate { source_pos, .. } => source_pos,
        }
    }

    pub open spec fn cells(self) -> Set<Cell> {
        match self {
            MoveView::Translate { structure, .. } => structure,
            MoveView::Rotate { structure, .. } => structure,
        }
    }
}

impl StructureMove {
    pub open spec fn wf(&self) -> bool {
        match self {
            StructureMove::Translate { structure, .. } => structure.wf(),
            StructureMove::Rotate { structure, .. } => structure.wf(),
        }
    }

    pub open spec fn view(&self) -> MoveView {
        match self {
            StructureMove::Translate {
                structure_id,
                structure,
                offset,
                actors,
                mark,
                source,
                source_pos,
            } => MoveView::Translate {
                structure_id: *structure_id,
                structure: structure@,
                offset: *offset,
                actors: actors@,
                mark: *mark,
                source: *source,
                source_pos: *source_pos,
            },
            StructureMove::Rotate { structure_id, structure, pivot, clockwise, source, source_pos } =>
                MoveView::Rotate {
                structure_id: *structure_id,
                structure: structure@,
                pivot: *pivot,
                clockwise: *clockwise,
                source: *source,
                source_pos: *source_pos,
            },
        }
    }

    /// A translation tagged with `mark`, no pushers and no source.
    pub fn translate_marked(
        structure_id: StructureId,
        structure: CellSet,
        offset: Cell,
        mark: MovementMark,
    ) -> (m: StructureMove)
        ensures
            m@ == (MoveView::Translate {
                structure_id,
                structure: structure@,
                offset,
                actors: Seq::empty(),
                mark,
                source: None,
                source_pos: None,
            }),
            m.wf() == structure.wf(),
    {
        StructureMove::Translate {
            structure_id,
            structure,
            offset,
            actors: Vec::new(),
            mark,
            source: None,
            source_pos: None,
        }
    }

    /// A translation driven by one pusher.
    pub fn translate_by_pusher_actor(
        structure_id: StructureId,
        structure: CellSet,
        offset: Cell,
        actor: PusherActor,
        mark: MovementMark,
    ) -> (m: StructureMove)
        ensures
            m@ == (MoveView::Translate {
                structure_id,
                structure: structure@,
                offset,
                actors: seq![actor],
                mark,
                source: None,
                source_pos: None,
            }),
            m.wf() == structure.wf(),
    {
        let mut actors = Vec::new();
        actors.push(actor);
        assert(actors@ =~= seq![actor]);
        StructureMove::Translate {
            structure_id,
            structure,
            offset,
            actors,
            mark,
            source: None,
            source_pos: None,
        }
    }

    /// A quarter turn about `pivot`, no source.
    pub fn rotate(structure_id: StructureId, structure: CellSet, pivot: Cell, clockwise: bool) -> (m:
        StructureMove)
        ensures
            m@ == (MoveView::Rotate {
                structure_id,
                structure: structure@,
                pivot,
                clockwise,
                source: None,
                source_pos: None,
            }),
            m.wf() == structure.wf(),
    {
        StructureMove::Rotate { structure_id, structure, pivot, clockwise, source: None, source_pos: None }
    }

    /// The same move attributed to the device `source` at `source_pos`.
    pub fn with_source(self, source: BlockId, source_pos: Cell) -> (m: StructureMove)
        ensures
            m.wf() == self.wf(),
            m@ == (match self@ {
                MoveView::Translate { structure_id, structure, offset, actors, mark, .. } =>
                    MoveView::Translate {
                    structure_id,
                    structure,
                    offset,
                    actors,
                    mark,
                    source: Some(source),
                    source_pos: Some(source_pos),
                },
                MoveView::Rotate { structure_id, structure, pivot, clockwise, .. } =>
                    MoveView::Rotate {
                    structure_id,
                    structure,
                    pivot,
                    clockwise,
                    source: Some(source),
                    source_pos: Some(source_pos),
                },
            }),
    {
        match self {
            StructureMove::Translate { structure_id, structure, offset, actors, mark, .. } =>
                StructureMove::Translate {
                structure_id,
                structure,
                offset,
                actors,
                mark,
                source: Some(source),
                source_pos: Some(source_pos),
            },
            StructureMove::Rotate { structure_id, structure, pivot, clockwise, .. } =>
                StructureMove::Rotate {
                structure_id,
                structure,
                pivot,
                clockwise,
                source: Some(source),
                source_pos: Some(source_pos),
            },
        }
    }

    /// Keeps the source only when both the block and its cell are known.
    pub fn with_optional_source(self, source: Option<BlockId>, source_pos: Option<Cell>) -> (m: StructureMove)
        ensures
            m.wf() == self.wf(),
            m@ == (match (source, source_pos) {
                (Some(b), Some(p)) => self@.with_source_spec(b, p),
                _ => self@,
            }),
    {
        match (source, source_pos) {
            (Some(b), Some(p)) => self.with_source(b, p),
            _ => self,
        }
    }

    /// A translation carried out by one more pusher: the pusher joins the actors and
    /// the translation takes `mark`; its source is kept only when fully known.  A
    /// rotation is returned unchanged.
    pub fn with_pusher_actor(
        self,
        actor_id: BlockId,
        actor: Cell,
        mark: MovementMark,
        animation: PusherAnimationKind,
    ) -> (m: StructureMove)
        ensures
            m.wf() == self.wf(),
            m@ == (match self@ {
                MoveView::Translate { structure_id, structure, offset, actors, source, source_pos, .. } => {
                    let base = MoveView::Translate {
                        structure_id,
                        structure,
                        offset,
                        actors: actors.push(PusherActor { id: actor_id, pos: actor, animation }),
                        mark,
                        source: None,
                        source_pos: None,
                    };
                    match (source, source_pos) {
                        (Some(b), Some(p)) => base.with_source_spec(b, p),
                        _ => base,
                    }
                },
                other => other,
            }),
    {
        match self {
            StructureMove::Translate { structure_id, structure, offset, mut actors, source, source_pos, .. } => {
                actors.push(PusherActor { id: actor_id, pos: actor, animation });
                StructureMove::Translate {
                    structure_id,
                    structure,
                    offset,
                    actors,
                    mark,
                    source: None,
                    source_pos: None,
                }.with_optional_source(source, source_pos)
            },
            other => other,
        }
    }

    pub fn source(&self) -> (r: Option<BlockId>)
        ensures
            r == self@.source(),
    {
        match self {
            StructureMove::Translate { source, .. } => *source,
            StructureMove::Rotate { source, .. } => *source,
        }
    }

    pub fn source_pos(&self) -> (r: Option<Cell>)
        ensures
            r == self@.source_pos(),
    {
        match self {
            StructureMove::Translate { source_pos, .. } => *source_pos,
            StructureMove::Rotate { source_pos, .. } => *source_pos,
        }
    }

    pub fn structure_id(&self) -> (r: StructureId)
        ensures
            r == self@.structure_id(),
    {
        match self {
            StructureMove::Translate { structure_id, .. } => *structure_id,
            StructureMove::Rotate { structure_id, .. } => *structure_id,
        }
    }

    pub fn structure(&self) -> (r: &CellSet)
        ensures
            r@ == self@.cells(),
            self.wf() ==> r.wf(),
    {
        match self {
            StructureMove::Translate { structure, .. } => structure,
            StructureMove::Rotate { structure, .. } => structure,
        }
    }
}

/// How far a translation is expanded before its collision check.
#[derive(Clone, Copy, Debug, PartialEq, Eq, Structural)]
pub enum MovementExpansionMode {
    Normal,
    Gravity,
}

/// Sourceless vertical moves are gravity falls; everything else expands normally.
pub fn movement_expansion_mode(mark: MovementMark, source: Option<BlockId>) -> (r:
    MovementExpansionMode)
    ensures
        r == (if mark == MovementMark::Vertical && source is None {
            MovementExpansionMode::Gravity
        } else {
            MovementExpansionMode::Normal
        }),
{
    if mark == MovementMark::Vertical && source.is_none() {
        MovementExpansionMode::Gravity
    } else {
        MovementExpansionMode::Normal
    }
}

/// Offset of a translation; zero for a rotation.
pub fn translate_offset(movement: &StructureMove) -> (r: Cell)
    ensures
        r == (match movement@ {
            MoveView::Translate { offset, .. } => offset,
            MoveView::Rotate { .. } => Cell::zero_spec(),
        }),
{
    match movement {
        StructureMove::Translate { offset, .. } => *offset,
        StructureMove::Rotate { .. } => Cell::zero(),
    }
}

/// Marks every cell of a moving structure as held this turn and tags it with the
/// move's offset.
pub fn apply_motion_tags(
    structure: &CellSet,
    offset: Cell,
    motion_held: &mut CellSet,
    motion_tags: &mut CellMap<Cell>,
)
    requires
        structure.wf(),
        old(motion_held).wf(),
        old(motion_tags).wf(),
    ensures
        final(motion_held).wf(),
        final(motion_tags).wf(),
        final(motion_held)@ == old(motion_held)@.union(structure@),
        final(motion_tags)@ == old(motion_tags)@.union_prefer_right(Map::new(|p: Cell| structure@.contains(p), |p: Cell| offset)),
{
    let cells = structure.to_vec();
    proof {
        structure.lemma_elems();
    }
    let mut i: usize = 0;
    while i < cells.len()
        invariant
            cells@ == structure.elems(),
            structure@ == cells@.to_set(),
            i <= cells@.len(),
            motion_held.wf(),
            motion_tags.wf(),
            motion_held@ == old(motion_held)@.union(cells@.take(i as int).to_set()),
            motion_tags@ == old(motion_tags)@.union_prefer_right(Map::new(|p: Cell| cells@.take(i as int).contains(p), |p: Cell| offset)),
        decreases cells@.len() - i,
    {
        let p = cells[i];
        motion_held.insert(p);
        motion_tags.insert(p, offset);
        proof {
            assert(cells@.take(i + 1) =~= cells@.take(i as int).push(p));
            cells@.take(i as int).lemma_push_to_set_commute(p);
            assert forall|q: Cell| cells@.take(i + 1).contains(q) <==> (cells@.take(i as int).contains(q) || q == p) by {
                if cells@.take(i + 1).contains(q) {
                    let t = choose|t: int| 0 <= t < i + 1 && #[trigger] cells@.take(i + 1)[t] == q;
                    if t < i {
                        assert(cells@.take(i as int)[t] == q);
                    }
                }
                if cells@.take(i as int).contains(q) {
                    let t = choose|t: int| 0 <= t < i && #[trigger] cells@.take(i as int)[t] == q;
                    assert(cells@.take(i + 1)[t] == q);
                }
                if q == p {
                    assert(cells@.take(i + 1)[i as int] == q);
                }
            }
            assert(motion_held@ =~= old(motion_held)@.union(cells@.take(i + 1).to_set()));
            assert(motion_tags@ =~= old(motion_tags)@.union_prefer_right(Map::new(|q: Cell| cells@.take(i + 1).contains(q), |q: Cell| offset)));
        }
        i = i + 1;
    }
    proof {
        assert(cells@.take(i as int) =~= cells@);
        assert(motion_held@ =~= old(motion_held)@.union(structure@));
        assert forall|q: Cell| cells@.contains(q) <==> structure@.contains(q) by {}
        assert(motion_tags@ =~= old(motion_tags)@.union_prefer_right(Map::new(|q: Cell| structure@.contains(q), |q: Cell| offset)));
    }
}

} // verus!
