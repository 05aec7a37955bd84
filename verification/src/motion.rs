//! What a turn hands to playback: how each block and each pusher moved.
use vstd::prelude::*;

use crate::cell::{Cell, Facing};
use crate::cellmap::CellMap;
use crate::ids::BlockId;
use crate::pusher::{extended_in, PusherState};

verus! {

/// The kind of motion of one block.
#[derive(Clone, Copy, Debug, PartialEq, Eq, Structural)]
pub enum BlockMotionKind {
    Move,
    Rotate { pivot: Cell, clockwise: bool },
    SpawnScale,
}

/// How one block moved this turn.
#[derive(Clone, Copy, Debug, PartialEq, Eq, Structural)]
pub struct BlockMotion {
    pub block_id: BlockId,
    pub from_pos: Cell,
    pub to_pos: Cell,
    pub from_facing: Facing,
    pub to_facing: Facing,
    pub kind: BlockMotionKind,
}

/// How a pusher's extension changed this turn: extended or retracted before and after
/// (playback fills in the timing).
#[derive(Clone, Copy, Debug, PartialEq, Eq, Structural)]
pub struct PusherMotion {
    pub from_extended: bool,
    pub to_extended: bool,
}

/// The extension animation of every pusher that stays extended: each block of
/// `blocks` whose pusher is extended, held out.
pub open spec fn sustained(entries: Map<u64, crate::pusher::PusherStateEntry>, blocks: Map<Cell, BlockId>) -> Map<Cell, PusherMotion> {
    Map::new(
        |p: Cell| blocks.contains_key(p) && extended_in(entries, blocks[p]),
        |p: Cell| PusherMotion { from_extended: true, to_extended: true },
    )
}

impl PusherState {
    /// The animation of the pushers that stay extended, by cell: held out from start to end.
    pub fn sustained_animations(&self, blocks: &CellMap<BlockId>) -> (r: CellMap<PusherMotion>)
        requires
            blocks.wf(),
        ensures
            r.wf(),
            r@ == sustained(self.entries(), blocks@),
    {
        let keys = blocks.keys();
        let mut r: CellMap<PusherMotion> = CellMap::new();
        let mut i: usize = 0;
        while i < keys.len()
            invariant
                blocks.wf(),
                r.wf(),
                i <= keys@.len(),
                keys@.to_set() == blocks@.dom(),
                r@ == sustained(self.entries(), blocks@).restrict(keys@.take(i as int).to_set()),
            decreases keys@.len() - i,
        {
            let p = keys[i];
            proof {
                assert(keys@.to_set().contains(p));
            }
            let id = blocks.get(p).unwrap();
            if self.is_extended(id) {
                r.insert(p, PusherMotion { from_extended: true, to_extended: true });
            }
            proof {
                keys@.take(i as int).lemma_push_to_set_commute(p);
                assert(keys@.take(i + 1) =~= keys@.take(i as int).push(p));
                assert(r@ =~= sustained(self.entries(), blocks@).restrict(keys@.take(i + 1).to_set()));
            }
            i = i + 1;
        }
        proof {
            assert(keys@.take(i as int) =~= keys@);
            assert(r@ =~= sustained(self.entries(), blocks@));
        }
        r
    }
}

} // verus!
