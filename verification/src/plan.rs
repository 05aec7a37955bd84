//! Ordering and merging of the turn's planned moves.
use vstd::prelude::*;

use crate::cell::Cell;
use crate::cellmap::CellSet;
use crate::history::{count_in, pruned, MovementHistory};
use crate::ids::{BlockId, StructureId};
use crate::moves::{MoveView, MovementMark, PusherActor, StructureMove};
use crate::structure_state::StructureState;

verus! {

/// Priority of a move by kind: push first, then lift, fall, rotation, conveyor.
pub open spec fn kind_priority_spec(m: MoveView) -> u8 {
    match m {
        MoveView::Translate { mark: MovementMark::Push, .. } => 0,
        MoveView::Translate { mark: MovementMark::Vertical, source: Some(_), .. } => 1,
        MoveView::Translate { mark: MovementMark::Vertical, source: None, .. } => 2,
        MoveView::Rotate { .. } => 3,
        MoveView::Translate { mark: MovementMark::Conveyor, .. } => 4,
    }
}

/// Priority of a move by kind: push first, then lift, fall, rotation, conveyor.
pub fn movement_kind_priority(movement: &StructureMove) -> (r: u8)
    ensures
        r == kind_priority_spec(movement@),
{
    match movement {
        StructureMove::Translate { mark: MovementMark::Push, .. } => 0,
        StructureMove::Translate { mark: MovementMark::Vertical, source: Some(_), .. } => 1,
        StructureMove::Translate { mark: MovementMark::Vertical, source: None, .. } => 2,
        StructureMove::Rotate { .. } => 3,
        StructureMove::Translate { mark: MovementMark::Conveyor, .. } => 4,
    }
}

/// Tie-break between conveyors by the source position, compared field by field.
#[derive(Clone, Copy, Debug, PartialEq, Eq, Structural)]
pub struct ConveyorSourcePriority {
    pub positive_x: i32,
    pub negative_x: i32,
    pub positive_y: i32,
    pub negative_y: i32,
    pub positive_z: i32,
    pub negative_z: i32,
}

impl ConveyorSourcePriority {
    pub open spec fn neutral_spec() -> ConveyorSourcePriority {
        ConveyorSourcePriority {
            positive_x: 0,
            negative_x: 0,
            positive_y: 0,
            negative_y: 0,
            positive_z: 0,
            negative_z: 0,
        }
    }

    /// All fields zero: no conveyor tie-break.
    pub fn neutral() -> (r: ConveyorSourcePriority)
        ensures
            r == ConveyorSourcePriority::neutral_spec(),
    {
        ConveyorSourcePriority {
            positive_x: 0,
            negative_x: 0,
            positive_y: 0,
            negative_y: 0,
            positive_z: 0,
            negative_z: 0,
        }
    }
}

/// Conveyor tie-break of a move: sourced conveyor moves rank by their source position,
/// every other move is neutral.
pub open spec fn conveyor_priority_spec(m: MoveView) -> ConveyorSourcePriority {
    match m {
        MoveView::Translate { mark: MovementMark::Conveyor, source_pos: Some(p), .. } =>
            ConveyorSourcePriority {
            positive_x: -p.x as i32,
            negative_x: p.x,
            positive_y: -p.y as i32,
            negative_y: p.y,
            positive_z: -p.z as i32,
            negative_z: p.z,
        },
        _ => ConveyorSourcePriority::neutral_spec(),
    }
}

/// The source position of a conveyor move, when it has one, can be negated (the
/// conveyor tie-break negates it).
pub open spec fn source_pos_negatable(m: MoveView) -> bool {
    match m {
        MoveView::Translate { mark: MovementMark::Conveyor, source_pos: Some(p), .. } => p.neg_fits(),
        _ => true,
    }
}

pub fn conveyor_source_priority(movement: &StructureMove) -> (r: ConveyorSourcePriority)
    requires
        source_pos_negatable(movement@),
    ensures
        r == conveyor_priority_spec(movement@),
{
    let source = match movement.source_pos() {
        Some(p) => p,
        None => return ConveyorSourcePriority::neutral(),
    };
    match movement {
        StructureMove::Translate { mark: MovementMark::Conveyor, .. } => {},
        _ => return ConveyorSourcePriority::neutral(),
    }
    ConveyorSourcePriority {
        positive_x: -source.x,
        negative_x: source.x,
        positive_y: -source.y,
        negative_y: source.y,
        positive_z: -source.z,
        negative_z: source.z,
    }
}

/// Ordering key of a move: kind, how often its source already moved it, conveyor tie-break.
#[derive(Clone, Copy, Debug, PartialEq, Eq, Structural)]
pub struct PriorityKey {
    pub kind: u8,
    pub count: u32,
    pub conveyor: ConveyorSourcePriority,
}

/// `a` before `b` when they differ, else the comparison of what follows.
pub open spec fn lex(a: int, b: int, rest: bool) -> bool {
    if a != b {
        a < b
    } else {
        rest
    }
}

/// Field-by-field strict order of conveyor tie-breaks.
pub open spec fn conveyor_lt(a: ConveyorSourcePriority, b: ConveyorSourcePriority) -> bool {
    lex(
        a.positive_x as int,
        b.positive_x as int,
        lex(
            a.negative_x as int,
            b.negative_x as int,
            lex(
                a.positive_y as int,
                b.positive_y as int,
                lex(
                    a.negative_y as int,
                    b.negative_y as int,
                    lex(
                        a.positive_z as int,
                        b.positive_z as int,
                        lex(a.negative_z as int, b.negative_z as int, false),
                    ),
                ),
            ),
        ),
    )
}

/// `a` orders strictly before `b`: by kind, then count, then conveyor tie-break.
pub open spec fn key_lt(a: PriorityKey, b: PriorityKey) -> bool {
    lex(a.kind as int, b.kind as int, lex(a.count as int, b.count as int, conveyor_lt(a.conveyor, b.conveyor)))
}

/// Key of a move under the given history.
pub open spec fn key_spec(m: MoveView, h: Map<u64, Map<u64, u32>>) -> PriorityKey {
    PriorityKey {
        kind: kind_priority_spec(m),
        count: match m.source() {
            Some(b) => count_in(h, m.structure_id().0, b.0) as u32,
            None => 0,
        },
        conveyor: conveyor_priority_spec(m),
    }
}

pub fn movement_priority_key(movement: &StructureMove, history: &MovementHistory) -> (r: PriorityKey)
    requires
        source_pos_negatable(movement@),
    ensures
        r == key_spec(movement@, history@),
{
    let kind = movement_kind_priority(movement);
    let count = match movement.source() {
        Some(_) => history.count(movement),
        None => 0,
    };
    let conveyor = conveyor_source_priority(movement);
    PriorityKey { kind, count, conveyor }
}

fn lt_i32(a: i32, b: i32, rest: bool) -> (r: bool)
    ensures
        r == (if a != b { a < b } else { rest }),
{
    if a != b {
        a < b
    } else {
        rest
    }
}

/// Whether `a` orders strictly before `b`.
pub fn key_less(a: &PriorityKey, b: &PriorityKey) -> (r: bool)
    ensures
        r == key_lt(*a, *b),
{
    let ca = a.conveyor;
    let cb = b.conveyor;
    let t6 = lt_i32(ca.negative_z, cb.negative_z, false);
    let t5 = lt_i32(ca.positive_z, cb.positive_z, t6);
    let t4 = lt_i32(ca.negative_y, cb.negative_y, t5);
    let t3 = lt_i32(ca.positive_y, cb.positive_y, t4);
    let t2 = lt_i32(ca.negative_x, cb.negative_x, t3);
    let t1 = lt_i32(ca.positive_x, cb.positive_x, t2);
    let r = if a.kind != b.kind {
        a.kind < b.kind
    } else if a.count != b.count {
        a.count < b.count
    } else {
        t1
    };
    r
}

/// Index of the first entry ordering strictly after `k`, scanning from `j`.
pub open spec fn first_after(t: Seq<(PriorityKey, MoveView)>, k: PriorityKey, j: int) -> int
    decreases t.len() - j,
{
    if j >= t.len() || j < 0 {
        t.len() as int
    } else if key_lt(k, t[j].0) {
        j
    } else {
        first_after(t, k, j + 1)
    }
}

/// Stable insertion: `x` goes after every entry whose key does not exceed its key.
pub open spec fn insert_sorted(t: Seq<(PriorityKey, MoveView)>, x: (PriorityKey, MoveView)) -> Seq<
    (PriorityKey, MoveView),
> {
    t.insert(first_after(t, x.0, 0), x)
}

/// Stable sort by key.
pub open spec fn sort_spec(s: Seq<(PriorityKey, MoveView)>) -> Seq<(PriorityKey, MoveView)>
    decreases s.len(),
{
    if s.len() == 0 {
        s
    } else {
        insert_sorted(sort_spec(s.drop_last()), s.last())
    }
}

/// Pairs each move's view with its key.
pub open spec fn keyed(moves: Seq<MoveView>, h: Map<u64, Map<u64, u32>>) -> Seq<(PriorityKey, MoveView)> {
    moves.map_values(|m: MoveView| (key_spec(m, h), m))
}

pub open spec fn views(moves: Seq<StructureMove>) -> Seq<MoveView> {
    moves.map_values(|m: StructureMove| m@)
}

pub open spec fn all_wf(moves: Seq<StructureMove>) -> bool {
    forall|i: int| 0 <= i < moves.len() ==> (#[trigger] moves[i]).wf()
}

pub open spec fn all_negatable(moves: Seq<StructureMove>) -> bool {
    forall|i: int| 0 <= i < moves.len() ==> source_pos_negatable((#[trigger] moves[i])@)
}

/// Sorts the moves by priority under the history; moves with equal keys keep their order.
pub fn sort_by_priority(moves: Vec<StructureMove>, history: &MovementHistory) -> (r: Vec<StructureMove>)
    requires
        all_negatable(moves@),
    ensures
        keyed(views(r@), history@) == sort_spec(keyed(views(moves@), history@)),
        all_wf(moves@) ==> all_wf(r@),
        all_negatable(r@),
{
    let mut input = moves;
    let ghost s = input@;
    assert(s.len() == input.len());
    let ghost ks = keyed(views(s), history@);
    let mut out: Vec<StructureMove> = Vec::new();
    let mut out_keys: Vec<PriorityKey> = Vec::new();
    let mut i: usize = 0;
    while input.len() > 0
        invariant
            i + input@.len() == s.len(),
            s.len() <= usize::MAX,
            input@ == s.skip(i as int),
            all_negatable(s),
            out@.len() == out_keys@.len(),
            forall|j: int| 0 <= j < out@.len() ==> (#[trigger] out_keys@[j]) == key_spec(out@[j]@, history@),
            keyed(views(out@), history@) == sort_spec(ks.take(i as int)),
            ks == keyed(views(s), history@),
            all_wf(s) ==> all_wf(out@),
            all_negatable(out@),
            forall|j: int| 0 <= j < out@.len() ==> exists|k: int| 0 <= k < i && #[trigger] out@[j] == s[k],
        decreases input@.len(),
    {
        let m = input.remove(0);
        assert(m == s[i as int]);
        let k = movement_priority_key(&m, history);
        let ghost t = keyed(views(out@), history@);
        let mut j: usize = 0;
        while j < out_keys.len() && !key_less(&k, &out_keys[j])
            invariant
                j <= out_keys@.len(),
                out@.len() == out_keys@.len(),
                t == keyed(views(out@), history@),
                forall|q: int| 0 <= q < out@.len() ==> (#[trigger] out_keys@[q]) == key_spec(out@[q]@, history@),
                first_after(t, k, 0) == first_after(t, k, j as int),
            decreases out_keys@.len() - j,
        {
            assert(t[j as int].0 == out_keys@[j as int]);
            j = j + 1;
        }
        proof {
            if j < out_keys.len() {
                assert(t[j as int].0 == out_keys@[j as int]);
            }
            assert(first_after(t, k, 0) == j);
        }
        let ghost before = out@;
        out.insert(j, m);
        out_keys.insert(j, k);
        proof {
            assert(ks.take(i + 1).drop_last() =~= ks.take(i as int));
            assert(ks.take(i + 1).last() == (k, m@));
            assert(keyed(views(out@), history@) =~= insert_sorted(t, (k, m@)));
            assert forall|q: int| 0 <= q < out@.len() implies exists|r: int| 0 <= r < i + 1 && #[trigger] out@[q] == s[r] by {
                if q < j {
                    assert(out@[q] == before[q]);
                } else if q > j {
                    assert(out@[q] == before[q - 1]);
                }
            }
            assert forall|q: int| 0 <= q < out@.len() implies (#[trigger] out_keys@[q]) == key_spec(out@[q]@, history@) by {
                if q < j {
                    assert(out@[q] == before[q]);
                } else if q > j {
                    assert(out@[q] == before[q - 1]);
                }
            }
            assert(s.skip(i + 1) =~= input@);
        }
        i = i + 1;
    }
    proof {
        assert(ks.take(i as int) =~= ks);
        assert forall|q: int| 0 <= q < out@.len() implies source_pos_negatable((#[trigger] out@[q])@) by {
            let r = choose|r: int| 0 <= r < i && out@[q] == s[r];
        }
        if all_wf(s) {
            assert forall|q: int| 0 <= q < out@.len() implies (#[trigger] out@[q]).wf() by {
                let r = choose|r: int| 0 <= r < i && out@[q] == s[r];
            }
        }
    }
    out
}

/// `m` is a push translation of structure `id` by `off`.
pub open spec fn is_push_of(m: MoveView, id: StructureId, off: Cell) -> bool {
    m matches MoveView::Translate { structure_id, offset, mark: MovementMark::Push, .. }
        && structure_id == id && offset == off
}

/// First index at or after `j` holding a push of `id` by `off`.
pub open spec fn find_push(out: Seq<MoveView>, id: StructureId, off: Cell, j: int) -> Option<int>
    decreases out.len() - j,
{
    if j < 0 || j >= out.len() {
        None
    } else if is_push_of(out[j], id, off) {
        Some(j)
    } else {
        find_push(out, id, off, j + 1)
    }
}

/// `e` with the cells and pushers of `m` added.
pub open spec fn merge_push(e: MoveView, m: MoveView) -> MoveView {
    match (e, m) {
        (
            MoveView::Translate { structure_id, structure, offset, actors, mark, source, source_pos },
            MoveView::Translate { structure: s2, actors: a2, .. },
        ) => MoveView::Translate {
            structure_id,
            structure: structure.union(s2),
            offset,
            actors: actors + a2,
            mark,
            source,
            source_pos,
        },
        _ => e,
    }
}

/// One step of merging pushes of the same structure by the same offset.
pub open spec fn coalesce_step(out: Seq<MoveView>, m: MoveView) -> Seq<MoveView> {
    match m {
        MoveView::Translate { structure_id, offset, mark: MovementMark::Push, .. } => match find_push(
            out,
            structure_id,
            offset,
            0,
        ) {
            Some(j) => out.update(j, merge_push(out[j], m)),
            None => out.push(m),
        },
        _ => out.push(m),
    }
}

/// Pushes of one structure by one offset merged into the first of them, in order.
pub open spec fn coalesce_spec(s: Seq<MoveView>) -> Seq<MoveView>
    decreases s.len(),
{
    if s.len() == 0 {
        s
    } else {
        coalesce_step(coalesce_spec(s.drop_last()), s.last())
    }
}

fn find_push_index(out: &Vec<StructureMove>, id: StructureId, off: Cell) -> (r: Option<usize>)
    ensures
        r matches Some(j) ==> j < out@.len() && find_push(views(out@), id, off, 0) == Some(j as int),
        r is None ==> find_push(views(out@), id, off, 0) is None,
{
    let ghost v = views(out@);
    let mut j: usize = 0;
    while j < out.len()
        invariant
            j <= out@.len(),
            v == views(out@),
            find_push(v, id, off, 0) == find_push(v, id, off, j as int),
        decreases out@.len() - j,
    {
        let hit = match &out[j] {
            StructureMove::Translate { structure_id, offset, mark: MovementMark::Push, .. } =>
                *structure_id == id && *offset == off,
            _ => false,
        };
        assert(hit == is_push_of(v[j as int], id, off));
        if hit {
            return Some(j);
        }
        assert(find_push(v, id, off, j as int) == find_push(v, id, off, j + 1));
        j = j + 1;
    }
    None
}

/// Adds the cells and pushers of a same-key push to an existing push.
fn merge_into(e: StructureMove, structure: &CellSet, actors: Vec<PusherActor>) -> (r: StructureMove)
    requires
        e.wf(),
    ensures
        r.wf(),
        r@ == (match e@ {
            MoveView::Translate { structure_id, structure: s1, offset, actors: a1, mark, source, source_pos } =>
                MoveView::Translate {
                structure_id,
                structure: s1.union(structure@),
                offset,
                actors: a1 + actors@,
                mark,
                source,
                source_pos,
            },
            _ => e@,
        }),
{
    match e {
        StructureMove::Translate {
            structure_id,
            structure: mut cells,
            offset,
            actors: mut existing,
            mark,
            source,
            source_pos,
        } => {
            cells.extend(structure);
            let ghost a1 = existing@;
            let mut i: usize = 0;
            while i < actors.len()
                invariant
                    i <= actors@.len(),
                    existing@ == a1 + actors@.take(i as int),
                decreases actors@.len() - i,
            {
                existing.push(actors[i]);
                i = i + 1;
                assert(existing@ =~= a1 + actors@.take(i as int));
            }
            assert(actors@.take(i as int) =~= actors@);
            StructureMove::Translate {
                structure_id,
                structure: cells,
                offset,
                actors: existing,
                mark,
                source,
                source_pos,
            }
        },
        other => other,
    }
}

/// Merges push translations of the same structure by the same offset into the first of
/// them (cells united, pushers concatenated), so pushers stuck to one structure act together.
pub fn coalesce_same_push_moves(moves: Vec<StructureMove>) -> (r: Vec<StructureMove>)
    requires
        all_wf(moves@),
    ensures
        views(r@) == coalesce_spec(views(moves@)),
        all_wf(r@),
{
    let mut input = moves;
    let ghost s = input@;
    assert(s.len() == input.len());
    let mut out: Vec<StructureMove> = Vec::new();
    let mut i: usize = 0;
    while input.len() > 0
        invariant
            i + input@.len() == s.len(),
            s.len() <= usize::MAX,
            input@ == s.skip(i as int),
            all_wf(s),
            all_wf(out@),
            views(out@) == coalesce_spec(views(s).take(i as int)),
        decreases input@.len(),
    {
        let m = input.remove(0);
        assert(m == s[i as int]);
        let ghost before = views(out@);
        proof {
            assert(views(s).take(i + 1).drop_last() =~= views(s).take(i as int));
            assert(views(s).take(i + 1).last() == m@);
        }
        match m {
            StructureMove::Translate {
                structure_id,
                structure,
                offset,
                actors,
                mark: MovementMark::Push,
                source,
                source_pos,
            } => {
                let ghost mv = MoveView::Translate {
                    structure_id,
                    structure: structure@,
                    offset,
                    actors: actors@,
                    mark: MovementMark::Push,
                    source,
                    source_pos,
                };
                match find_push_index(&out, structure_id, offset) {
                    Some(j) => {
                        let ghost out0 = out@;
                        let e = out.remove(j);
                        assert(e == out0[j as int]);
                        let merged = merge_into(e, &structure, actors);
                        out.insert(j, merged);
                        proof {
                            assert(find_push(before, structure_id, offset, 0) == Some(j as int));
                            assert(views(out@) =~= before.update(j as int, merge_push(before[j as int], mv)));
                            assert(views(out@) == coalesce_step(before, mv));
                            assert forall|q: int| 0 <= q < out@.len() implies (#[trigger] out@[q]).wf() by {
                                if q < j {
                                    assert(out@[q] == out0[q]);
                                } else if q > j {
                                    assert(out@[q] == out0[q]);
                                }
                            }
                        }
                    },
                    None => {
                        out.push(
                            StructureMove::Translate {
                                structure_id,
                                structure,
                                offset,
                                actors,
                                mark: MovementMark::Push,
                                source,
                                source_pos,
                            },
                        );
                        proof {
                            assert(find_push(before, structure_id, offset, 0) is None);
                            assert(views(out@) =~= before.push(mv));
                            assert(views(out@) == coalesce_step(before, mv));
                        }
                    },
                }
            },
            other => {
                out.push(other);
                proof {
                    assert(views(out@) =~= before.push(other@));
                    assert(views(out@) == coalesce_step(before, other@));
                }
            },
        }
        proof {
            assert(s.skip(i + 1) =~= input@);
        }
        i = i + 1;
    }
    assert(views(s).take(i as int) =~= views(s));
    out
}

/// A lift: a sourced vertical translation.
pub open spec fn is_lift(m: MoveView) -> bool {
    m matches MoveView::Translate { mark: MovementMark::Vertical, source: Some(_), .. }
}

/// A gravity fall: a sourceless vertical translation.
pub open spec fn is_fall(m: MoveView) -> bool {
    m matches MoveView::Translate { mark: MovementMark::Vertical, source: None, .. }
}

/// Cells moved by some lift of the plan.
pub open spec fn lift_cells(s: Seq<MoveView>) -> Set<Cell> {
    Set::new(|p: Cell| exists|i: int| 0 <= i < s.len() && is_lift(s[i]) && #[trigger] s[i].cells().contains(p))
}

/// A fall overlapping a lifted cell is held up by the lift and dropped.
pub open spec fn suppressed(m: MoveView, lift: Set<Cell>) -> bool {
    is_fall(m) && exists|p: Cell| #[trigger] m.cells().contains(p) && lift.contains(p)
}

/// The plan without the falls that lifts hold up, in order.
pub open spec fn keep_unsuppressed(s: Seq<MoveView>, lift: Set<Cell>) -> Seq<MoveView>
    decreases s.len(),
{
    if s.len() == 0 {
        s
    } else if suppressed(s.last(), lift) {
        keep_unsuppressed(s.drop_last(), lift)
    } else {
        keep_unsuppressed(s.drop_last(), lift).push(s.last())
    }
}

/// The views of a keyed sequence.
pub open spec fn unkeyed(s: Seq<(PriorityKey, MoveView)>) -> Seq<MoveView> {
    s.map_values(|e: (PriorityKey, MoveView)| e.1)
}

/// The whole planning step on views: drop held-up falls, sort stably by priority under
/// the pruned history, merge same-key pushes.
pub open spec fn merged_plan_spec(all: Seq<MoveView>, h: Map<u64, Map<u64, u32>>) -> Seq<MoveView> {
    coalesce_spec(unkeyed(sort_spec(keyed(keep_unsuppressed(all, lift_cells(all)), h))))
}

fn intersects(a: &CellSet, b: &CellSet) -> (r: bool)
    requires
        a.wf(),
    ensures
        r == exists|p: Cell| #[trigger] a@.contains(p) && b@.contains(p),
{
    let cells = a.to_vec();
    proof {
        a.lemma_elems();
    }
    let mut i: usize = 0;
    while i < cells.len()
        invariant
            cells@ == a.elems(),
            a@ == a.elems().to_set(),
            i <= cells@.len(),
            forall|j: int| 0 <= j < i ==> !b@.contains(#[trigger] cells@[j]),
        decreases cells@.len() - i,
    {
        if b.contains(cells[i]) {
            assert(a@.contains(cells@[i as int]));
            return true;
        }
        i = i + 1;
    }
    assert forall|p: Cell| a@.contains(p) implies !b@.contains(p) by {
        let j = choose|j: int| 0 <= j < cells@.len() && cells@[j] == p;
    }
    false
}

/// Merges gravity and device moves into one ordered plan: lifts hold up overlapping
/// falls, the rest is sorted by priority (kind, then how often the source already moved
/// the structure, then conveyor position) and same-key pushes are merged.  The history
/// first forgets structures and sources that no longer exist.
pub fn merge_structure_movement_plan(
    planned_moves: Vec<StructureMove>,
    device_moves: Vec<StructureMove>,
    history: &mut MovementHistory,
    structures: &StructureState,
    living_blocks: &[BlockId],
) -> (r: Vec<StructureMove>)
    requires
        all_wf(planned_moves@),
        all_wf(device_moves@),
        all_negatable(planned_moves@),
        all_negatable(device_moves@),
    ensures
        final(history)@ == pruned(
            old(history)@,
            structures.table().dom(),
            living_blocks@.map_values(|x: BlockId| x.0).to_set(),
        ),
        views(r@) == merged_plan_spec(views(planned_moves@ + device_moves@), final(history)@),
        all_wf(r@),
        keys_ordered(views(r@), final(history)@),
        pushes_unique(views(r@)),
        falls_clear_of_lifts(views(r@), views(planned_moves@ + device_moves@)),
{
    let living_structures = structures.structure_ids();
    proof {
        let lv = living_structures@.map_values(|x: StructureId| x.0);
        assert forall|k: u64| lv.to_set().contains(k) <==> structures.table().dom().contains(k) by {
            if structures.table().dom().contains(k) {
                assert(living_structures@.contains(StructureId(k)));
                let j = choose|j: int| 0 <= j < living_structures@.len() && living_structures@[j] == StructureId(k);
                assert(lv[j] == k);
            }
            if lv.to_set().contains(k) {
                let j = choose|j: int| 0 <= j < lv.len() && #[trigger] lv[j] == k;
                assert(living_structures@.contains(living_structures@[j]));
            }
        }
        assert(lv.to_set() =~= structures.table().dom());
    }
    history.prune_missing(living_structures.as_slice(), living_blocks);
    let ghost all = planned_moves@ + device_moves@;
    let mut moves = planned_moves;
    let mut rest = device_moves;
    let ghost p0 = moves@;
    let ghost d0 = rest@;
    assert(d0.len() == rest.len());
    let mut k: usize = 0;
    while rest.len() > 0
        invariant
            k + rest@.len() == d0.len(),
            d0.len() <= usize::MAX,
            rest@ == d0.skip(k as int),
            moves@ == p0 + d0.take(k as int),
        decreases rest@.len(),
    {
        let m = rest.remove(0);
        assert(m == d0[k as int]);
        moves.push(m);
        proof {
            assert(moves@ =~= p0 + d0.take(k + 1));
            assert(d0.skip(k + 1) =~= rest@);
        }
        k = k + 1;
    }
    assert(d0.take(k as int) =~= d0);
    assert(moves@ == all);
    assert(all_wf(all)) by {
        assert forall|q: int| 0 <= q < all.len() implies (#[trigger] all[q]).wf() by {
            if q >= p0.len() {
                assert(all[q] == d0[q - p0.len()]);
            }
        }
    }
    assert(all_negatable(all)) by {
        assert forall|q: int| 0 <= q < all.len() implies source_pos_negatable((#[trigger] all[q])@) by {
            if q >= p0.len() {
                assert(all[q] == d0[q - p0.len()]);
            }
        }
    }
    let ghost av = views(all);
    let mut lift = CellSet::new();
    let mut i: usize = 0;
    while i < moves.len()
        invariant
            moves@ == all,
            av == views(all),
            all_wf(all),
            i <= all.len(),
            lift.wf(),
            lift@ == lift_cells(av.take(i as int)),
        decreases all.len() - i,
    {
        let ghost l0 = lift@;
        let is_l = match &moves[i] {
            StructureMove::Translate { mark: MovementMark::Vertical, source: Some(_), .. } => true,
            _ => false,
        };
        if is_l {
            lift.extend(moves[i].structure());
        }
        proof {
            let t0 = av.take(i as int);
            let t1 = av.take(i + 1);
            assert(t1 =~= t0.push(av[i as int]));
            assert(av[i as int] == all[i as int]@);
            assert forall|p: Cell| lift@.contains(p) <==> lift_cells(t1).contains(p) by {
                if lift_cells(t1).contains(p) {
                    let j = choose|j: int| 0 <= j < t1.len() && is_lift(t1[j]) && #[trigger] t1[j].cells().contains(p);
                    if j < i {
                        assert(t0[j] == t1[j]);
                        assert(lift_cells(t0).contains(p));
                    }
                }
                if lift_cells(t0).contains(p) {
                    let j = choose|j: int| 0 <= j < t0.len() && is_lift(t0[j]) && #[trigger] t0[j].cells().contains(p);
                    assert(t1[j] == t0[j]);
                }
                if is_l && all[i as int]@.cells().contains(p) {
                    assert(t1[i as int] == av[i as int]);
                }
            }
            assert(lift@ =~= lift_cells(t1));
        }
        i = i + 1;
    }
    assert(av.take(i as int) =~= av);
    let ghost lc = lift_cells(av);
    let mut input = moves;
    let mut kept: Vec<StructureMove> = Vec::new();
    let mut q: usize = 0;
    assert(all.len() == input.len());
    while input.len() > 0
        invariant
            q + input@.len() == all.len(),
            all.len() <= usize::MAX,
            input@ == all.skip(q as int),
            av == views(all),
            all_wf(all),
            all_negatable(all),
            all_wf(kept@),
            all_negatable(kept@),
            lift.wf(),
            lift@ == lc,
            views(kept@) == keep_unsuppressed(av.take(q as int), lc),
        decreases input@.len(),
    {
        let m = input.remove(0);
        assert(m == all[q as int]);
        assert(m.wf());
        let drop = match &m {
            StructureMove::Translate { mark: MovementMark::Vertical, source: None, structure, .. } => {
                let d = intersects(structure, &lift);
                assert(m@.cells() == structure@);
                assert(is_fall(m@));
                assert(d == exists|p: Cell| #[trigger] m@.cells().contains(p) && lc.contains(p));
                d
            },
            _ => false,
        };
        assert(drop == suppressed(m@, lc));
        let ghost k0 = views(kept@);
        if !drop {
            kept.push(m);
            assert(views(kept@) =~= k0.push(all[q as int]@));
        }
        proof {
            assert(av.take(q + 1).drop_last() =~= av.take(q as int));
            assert(av.take(q + 1).last() == all[q as int]@);
            assert(all.skip(q + 1) =~= input@);
        }
        q = q + 1;
    }
    assert(av.take(q as int) =~= av);
    let sorted = sort_by_priority(kept, history);
    proof {
        let ks = keyed(views(sorted@), history@);
        assert(unkeyed(ks) =~= views(sorted@));
    }
    let r = coalesce_same_push_moves(sorted);
    proof {
        lemma_merged_plan_ordered(views(all), history@);
        lemma_merged_falls_clear(views(all), history@);
    }
    r
}

/// Keys never go down along the sequence.
pub open spec fn sorted_by_key(t: Seq<(PriorityKey, MoveView)>) -> bool {
    forall|i: int, j: int| 0 <= i < j < t.len() ==> !key_lt(#[trigger] t[j].0, #[trigger] t[i].0)
}

/// The key order is a strict total order.
pub proof fn lemma_key_order(a: PriorityKey, b: PriorityKey, c: PriorityKey)
    ensures
        !key_lt(a, a),
        key_lt(a, b) ==> !key_lt(b, a),
        key_lt(a, b) && key_lt(b, c) ==> key_lt(a, c),
        !key_lt(a, b) && !key_lt(b, a) ==> a == b,
{
}

proof fn lemma_first_after(t: Seq<(PriorityKey, MoveView)>, k: PriorityKey, j: int)
    requires
        0 <= j <= t.len(),
    ensures
        j <= first_after(t, k, j) <= t.len(),
        forall|i: int| j <= i < first_after(t, k, j) ==> !key_lt(k, #[trigger] t[i].0),
        first_after(t, k, j) < t.len() ==> key_lt(k, t[first_after(t, k, j)].0),
    decreases t.len() - j,
{
    if j < t.len() && !key_lt(k, t[j].0) {
        lemma_first_after(t, k, j + 1);
    }
}

#[verifier::spinoff_prover]
#[verifier::rlimit(40)]
proof fn lemma_insert_sorted(t: Seq<(PriorityKey, MoveView)>, x: (PriorityKey, MoveView))
    requires
        sorted_by_key(t),
    ensures
        sorted_by_key(insert_sorted(t, x)),
        insert_sorted(t, x).to_multiset() == t.to_multiset().insert(x),
        insert_sorted(t, x).len() == t.len() + 1,
{
    let j = first_after(t, x.0, 0);
    lemma_first_after(t, x.0, 0);
    let u = insert_sorted(t, x);
    t.insert_ensures(j, x);
    vstd::seq_lib::to_multiset_insert(t, j, x);
    assert forall|a: int, b: int| 0 <= a < b < u.len() implies !key_lt(#[trigger] u[b].0, #[trigger] u[a].0) by {
        let ka = u[a].0;
        let kb = u[b].0;
        if a < j && b < j {
            assert(u[a] == t[a] && u[b] == t[b]);
        } else if a < j && b == j {
            assert(u[a] == t[a]);
            lemma_key_order(kb, ka, ka);
        } else if a < j && b > j {
            assert(u[a] == t[a] && u[b] == t[b - 1]);
        } else if a == j {
            assert(u[b] == t[b - 1]);
            assert(key_lt(x.0, t[j].0));
            if b - 1 > j {
                assert(!key_lt(t[b - 1].0, t[j].0));
            }
            lemma_key_order(x.0, t[j].0, t[b - 1].0);
            lemma_key_order(t[b - 1].0, t[j].0, t[j].0);
            lemma_key_order(t[j].0, t[b - 1].0, t[b - 1].0);
        } else {
            assert(u[a] == t[a - 1] && u[b] == t[b - 1]);
        }
    }
}

/// The stable priority sort orders keys and keeps exactly the same entries.
pub proof fn lemma_sort_sorted_permutation(s: Seq<(PriorityKey, MoveView)>)
    ensures
        sorted_by_key(sort_spec(s)),
        sort_spec(s).to_multiset() == s.to_multiset(),
        sort_spec(s).len() == s.len(),
    decreases s.len(),
{
    if s.len() == 0 {
    } else {
        lemma_sort_sorted_permutation(s.drop_last());
        lemma_insert_sorted(sort_spec(s.drop_last()), s.last());
        assert(s =~= s.drop_last().push(s.last()));
        vstd::seq_lib::to_multiset_build(s.drop_last(), s.last());
    }
}


/// Keys never go down along the plan (under the history `h`).
pub open spec fn keys_ordered(t: Seq<MoveView>, h: Map<u64, Map<u64, u32>>) -> bool {
    forall|i: int, j: int| 0 <= i < j < t.len() ==> !key_lt(#[trigger] key_spec(t[j], h), #[trigger] key_spec(t[i], h))
}

/// No two pushes of the plan move one structure by one offset.
pub open spec fn pushes_unique(t: Seq<MoveView>) -> bool {
    forall|i: int, j: int| 0 <= i < t.len() && 0 <= j < t.len() && i != j ==> match #[trigger] t[i] {
        MoveView::Translate { structure_id, offset, mark: MovementMark::Push, .. } => !is_push_of(#[trigger] t[j], structure_id, offset),
        _ => true,
    }
}

proof fn lemma_find_push(out: Seq<MoveView>, id: StructureId, off: Cell, j: int)
    requires
        0 <= j,
    ensures
        find_push(out, id, off, j) matches Some(x) ==> j <= x < out.len() && is_push_of(out[x], id, off),
        find_push(out, id, off, j) is None ==> forall|i: int| j <= i < out.len() ==> !is_push_of(#[trigger] out[i], id, off),
    decreases out.len() - j,
{
    if j < out.len() && !is_push_of(out[j], id, off) {
        lemma_find_push(out, id, off, j + 1);
    }
}

/// Merging a push into another keeps its key.
proof fn lemma_merge_push_key(e: MoveView, m: MoveView, h: Map<u64, Map<u64, u32>>)
    ensures
        key_spec(merge_push(e, m), h) == key_spec(e, h),
        (e matches MoveView::Translate { structure_id, offset, mark: MovementMark::Push, .. } ==> is_push_of(
            merge_push(e, m),
            structure_id,
            offset,
        )),
        (forall|id: StructureId, off: Cell| is_push_of(merge_push(e, m), id, off) ==> is_push_of(e, id, off)),
{
}

proof fn lemma_coalesce_step_shape(c: Seq<MoveView>, m: MoveView)
    ensures
        coalesce_step(c, m).len() == c.len() || coalesce_step(c, m).len() == c.len() + 1,
        forall|i: int| 0 <= i < c.len() ==> #[trigger] coalesce_step(c, m)[i] == c[i] || coalesce_step(c, m)[i] == merge_push(c[i], m),
        coalesce_step(c, m).len() == c.len() + 1 ==> coalesce_step(c, m)[c.len() as int] == m,
{
    match m {
        MoveView::Translate { structure_id, offset, mark: MovementMark::Push, .. } => {
            lemma_find_push(c, structure_id, offset, 0);
        },
        _ => {},
    }
}

/// Coalescing keeps the keys in order, merges every pair of same-key pushes, and only
/// keeps keys of moves it was given.
proof fn lemma_coalesce_ordered(s: Seq<MoveView>, h: Map<u64, Map<u64, u32>>)
    ensures
        keys_ordered(s, h) ==> keys_ordered(coalesce_spec(s), h),
        pushes_unique(coalesce_spec(s)),
        forall|i: int| 0 <= i < coalesce_spec(s).len() ==> exists|j: int| 0 <= j < s.len() && #[trigger] key_spec(coalesce_spec(s)[i], h)
            == key_spec(s[j], h),
    decreases s.len(),
{
    if s.len() > 0 {
        let s0 = s.drop_last();
        let m = s.last();
        let c = coalesce_spec(s0);
        lemma_coalesce_ordered(s0, h);
        let c1 = coalesce_spec(s);
        assert(c1 == coalesce_step(c, m));
        lemma_coalesce_step_shape(c, m);
        let pushed = match m {
            MoveView::Translate { structure_id, offset, mark: MovementMark::Push, .. } => find_push(c, structure_id, offset, 0) is None,
            _ => true,
        };
        assert forall|i: int| 0 <= i < c1.len() implies exists|j: int| 0 <= j < s.len() && #[trigger] key_spec(c1[i], h) == key_spec(s[j], h) by {
            if i < c.len() {
                let j0 = choose|j: int| 0 <= j < s0.len() && #[trigger] key_spec(c[i], h) == key_spec(s0[j], h);
                lemma_merge_push_key(c[i], m, h);
                assert(s[j0] == s0[j0]);
                assert(c1[i] == c[i] || c1[i] == merge_push(c[i], m));
                assert(key_spec(c1[i], h) == key_spec(c[i], h));
            } else {
                assert(c1[i] == m);
                assert(key_spec(c1[i], h) == key_spec(s[s.len() - 1], h));
            }
        }
        if keys_ordered(s, h) {
            assert(keys_ordered(s0, h)) by {
                assert forall|i: int, j: int| 0 <= i < j < s0.len() implies !key_lt(#[trigger] key_spec(s0[j], h), #[trigger] key_spec(s0[i], h)) by {
                    assert(s0[i] == s[i] && s0[j] == s[j]);
                }
            }
            assert forall|i: int, j: int| 0 <= i < j < c1.len() implies !key_lt(#[trigger] key_spec(c1[j], h), #[trigger] key_spec(c1[i], h)) by {
                lemma_merge_push_key(c[i], m, h);
                assert(c1[i] == c[i] || c1[i] == merge_push(c[i], m));
                assert(key_spec(c1[i], h) == key_spec(c[i], h));
                if j < c.len() {
                    lemma_merge_push_key(c[j], m, h);
                    assert(c1[j] == c[j] || c1[j] == merge_push(c[j], m));
                    assert(key_spec(c1[j], h) == key_spec(c[j], h));
                } else {
                    assert(c1[j] == m);
                    let j0 = choose|j0: int| 0 <= j0 < s0.len() && #[trigger] key_spec(c[i], h) == key_spec(s0[j0], h);
                    assert(s[j0] == s0[j0]);
                    assert(!key_lt(key_spec(s[s.len() - 1], h), key_spec(s[j0], h)));
                }
            }
        }
        match m {
            MoveView::Translate { structure_id, offset, mark: MovementMark::Push, .. } => {
                lemma_find_push(c, structure_id, offset, 0);
                match find_push(c, structure_id, offset, 0) {
                    Some(x) => {
                        assert forall|i: int, j: int| 0 <= i < c1.len() && 0 <= j < c1.len() && i != j implies match #[trigger] c1[i] {
                            MoveView::Translate { structure_id, offset, mark: MovementMark::Push, .. } => !is_push_of(#[trigger] c1[j], structure_id, offset),
                            _ => true,
                        } by {
                            lemma_merge_push_key(c[x], m, h);
                            if i == x {
                                assert(c1[j] == c[j]);
                            } else if j == x {
                                assert(c1[i] == c[i]);
                                if let MoveView::Translate { structure_id: id2, offset: o2, mark: MovementMark::Push, .. } = c[i] {
                                    if is_push_of(c1[j], id2, o2) {
                                        assert(is_push_of(c[x], id2, o2));
                                    }
                                }
                            } else {
                                assert(c1[i] == c[i] && c1[j] == c[j]);
                            }
                        }
                    },
                    None => {
                        assert forall|i: int, j: int| 0 <= i < c1.len() && 0 <= j < c1.len() && i != j implies match #[trigger] c1[i] {
                            MoveView::Translate { structure_id, offset, mark: MovementMark::Push, .. } => !is_push_of(#[trigger] c1[j], structure_id, offset),
                            _ => true,
                        } by {
                            if i < c.len() && j < c.len() {
                                assert(c1[i] == c[i] && c1[j] == c[j]);
                            } else if i == c.len() {
                                assert(c1[j] == c[j]);
                            } else {
                                assert(c1[i] == c[i]);
                                assert(c1[j] == m);
                                if let MoveView::Translate { structure_id: id2, offset: o2, mark: MovementMark::Push, .. } = c[i] {
                                    if is_push_of(m, id2, o2) {
                                        assert(is_push_of(c[i], structure_id, offset));
                                    }
                                }
                            }
                        }
                    },
                }
            },
            _ => {
                assert forall|i: int, j: int| 0 <= i < c1.len() && 0 <= j < c1.len() && i != j implies match #[trigger] c1[i] {
                    MoveView::Translate { structure_id, offset, mark: MovementMark::Push, .. } => !is_push_of(#[trigger] c1[j], structure_id, offset),
                    _ => true,
                } by {
                    if i < c.len() && j < c.len() {
                        assert(c1[i] == c[i] && c1[j] == c[j]);
                    } else if i < c.len() {
                        assert(c1[j] == m);
                    }
                }
            },
        }
    }
}

/// The merged plan is ordered by priority under the history `h` (kind, then how often
/// the source already moved the structure, then conveyor position), and holds at most
/// one push of any structure by any offset.
pub proof fn lemma_merged_plan_ordered(all: Seq<MoveView>, h: Map<u64, Map<u64, u32>>)
    ensures
        keys_ordered(merged_plan_spec(all, h), h),
        pushes_unique(merged_plan_spec(all, h)),
{
    let kept = keep_unsuppressed(all, lift_cells(all));
    let ks = keyed(kept, h);
    let st = sort_spec(ks);
    lemma_sort_sorted_permutation(ks);
    let u = unkeyed(st);
    assert forall|i: int| 0 <= i < st.len() implies (#[trigger] st[i]).0 == key_spec(st[i].1, h) by {
        vstd::seq_lib::to_multiset_contains(st, st[i]);
        assert(st.contains(st[i]));
        vstd::seq_lib::to_multiset_contains(ks, st[i]);
        let j = choose|j: int| 0 <= j < ks.len() && ks[j] == st[i];
    }
    assert(keys_ordered(u, h)) by {
        assert forall|i: int, j: int| 0 <= i < j < u.len() implies !key_lt(#[trigger] key_spec(u[j], h), #[trigger] key_spec(u[i], h)) by {
            assert(u[i] == st[i].1 && u[j] == st[j].1);
            assert(st[i].0 == key_spec(st[i].1, h));
            assert(st[j].0 == key_spec(st[j].1, h));
        }
    }
    lemma_coalesce_ordered(u, h);
}

/// A push translation.
pub open spec fn is_push(m: MoveView) -> bool {
    m matches MoveView::Translate { mark: MovementMark::Push, .. }
}

/// No fall of the plan moves a cell that a lift of `all` moves.
pub open spec fn falls_clear_of_lifts(t: Seq<MoveView>, all: Seq<MoveView>) -> bool {
    forall|i: int| 0 <= i < t.len() ==> !suppressed(#[trigger] t[i], lift_cells(all))
}

proof fn lemma_keep_unsuppressed(s: Seq<MoveView>, lift: Set<Cell>)
    ensures
        forall|i: int| 0 <= i < keep_unsuppressed(s, lift).len() ==> !suppressed(#[trigger] keep_unsuppressed(s, lift)[i], lift),
    decreases s.len(),
{
    if s.len() > 0 {
        lemma_keep_unsuppressed(s.drop_last(), lift);
        let k0 = keep_unsuppressed(s.drop_last(), lift);
        let k1 = keep_unsuppressed(s, lift);
        assert forall|i: int| 0 <= i < k1.len() implies !suppressed(#[trigger] k1[i], lift) by {
            if suppressed(s.last(), lift) {
                assert(k1 == k0);
            } else {
                assert(k1 == k0.push(s.last()));
                if i < k0.len() {
                    assert(k1[i] == k0[i]);
                }
            }
        }
    }
}

/// Coalescing only rewrites pushes: every other move it keeps is one it was given.
proof fn lemma_coalesce_keeps_others(s: Seq<MoveView>)
    ensures
        forall|i: int| 0 <= i < coalesce_spec(s).len() && !is_push(#[trigger] coalesce_spec(s)[i]) ==> s.contains(coalesce_spec(s)[i]),
    decreases s.len(),
{
    if s.len() > 0 {
        let s0 = s.drop_last();
        let m = s.last();
        let c = coalesce_spec(s0);
        lemma_coalesce_keeps_others(s0);
        lemma_coalesce_step_shape(c, m);
        let c1 = coalesce_spec(s);
        assert forall|i: int| 0 <= i < c1.len() && !is_push(#[trigger] c1[i]) implies s.contains(c1[i]) by {
            if i < c.len() {
                if c1[i] != c[i] {
                    assert(c1[i] == merge_push(c[i], m));
                    match m {
                        MoveView::Translate { structure_id, offset, mark: MovementMark::Push, .. } => {
                            lemma_find_push(c, structure_id, offset, 0);
                        },
                        _ => {},
                    }
                }
                if !is_push(c[i]) {
                    assert(s0.contains(c[i]));
                    let j = choose|j: int| 0 <= j < s0.len() && s0[j] == c[i];
                    assert(s[j] == s0[j]);
                }
            } else {
                assert(c1[i] == m);
                assert(s[s.len() - 1] == m);
            }
        }
    }
}

/// No fall of the merged plan moves a cell that a lift of the given moves moves.
pub proof fn lemma_merged_falls_clear(all: Seq<MoveView>, h: Map<u64, Map<u64, u32>>)
    ensures
        falls_clear_of_lifts(merged_plan_spec(all, h), all),
{
    let lift = lift_cells(all);
    let kept = keep_unsuppressed(all, lift);
    let ks = keyed(kept, h);
    let st = sort_spec(ks);
    lemma_sort_sorted_permutation(ks);
    lemma_keep_unsuppressed(all, lift);
    let u = unkeyed(st);
    lemma_coalesce_keeps_others(u);
    let t = merged_plan_spec(all, h);
    assert forall|i: int| 0 <= i < t.len() implies !suppressed(#[trigger] t[i], lift) by {
        if suppressed(t[i], lift) {
            assert(!is_push(t[i]));
            assert(u.contains(t[i]));
            let j = choose|j: int| 0 <= j < u.len() && u[j] == t[i];
            vstd::seq_lib::to_multiset_contains(st, st[j]);
            assert(st.contains(st[j]));
            vstd::seq_lib::to_multiset_contains(ks, st[j]);
            let k = choose|k: int| 0 <= k < ks.len() && ks[k] == st[j];
            assert(kept[k] == t[i]);
        }
    }
}

/// The priority order compares the kind first, then how often the source already moved
/// the structure, and only then the conveyor tie-break: a smaller kind comes first
/// whatever the counts, and within a kind a smaller count comes first.
pub proof fn lemma_priority_kind_first(a: PriorityKey, b: PriorityKey)
    ensures
        a.kind < b.kind ==> key_lt(a, b),
        a.kind == b.kind && a.count < b.count ==> key_lt(a, b),
        key_lt(a, b) ==> a.kind <= b.kind,
        key_lt(a, b) && a.kind == b.kind ==> a.count <= b.count,
{
}

/// A pushing translation.
pub open spec fn is_push_move(m: MoveView) -> bool {
    m matches MoveView::Translate { mark: MovementMark::Push, .. }
}

/// A lift: a vertical translation with a source block.
pub open spec fn is_lift_move(m: MoveView) -> bool {
    m matches MoveView::Translate { mark: MovementMark::Vertical, source: Some(_), .. }
}

/// A fall: a vertical translation without a source block.
pub open spec fn is_fall_move(m: MoveView) -> bool {
    m matches MoveView::Translate { mark: MovementMark::Vertical, source: None, .. }
}

/// A conveyor translation.
pub open spec fn is_conveyor_move(m: MoveView) -> bool {
    m matches MoveView::Translate { mark: MovementMark::Conveyor, .. }
}

/// Under any history, pushes come before lifts, lifts before falls, falls before
/// rotations and rotations before conveyor moves, however often their sources already
/// moved them.
pub proof fn lemma_move_kinds_order(a: MoveView, b: MoveView, h: Map<u64, Map<u64, u32>>)
    ensures
        is_push_move(a) && !is_push_move(b) ==> key_lt(key_spec(a, h), key_spec(b, h)),
        is_lift_move(a) && !is_push_move(b) && !is_lift_move(b) ==> key_lt(key_spec(a, h), key_spec(b, h)),
        is_fall_move(a) && (b is Rotate || is_conveyor_move(b)) ==> key_lt(key_spec(a, h), key_spec(b, h)),
        a is Rotate && is_conveyor_move(b) ==> key_lt(key_spec(a, h), key_spec(b, h)),
        is_conveyor_move(a) ==> !key_lt(key_spec(a, h), key_spec(b, h)) || is_conveyor_move(b),
{
}

/// The priority sort puts the moves in order of kind (pushes, lifts, falls, rotations,
/// conveyor moves), and within a kind in order of how often their sources already moved
/// them: no push comes after a move of another kind, and each entry carries its own key.
pub proof fn lemma_sorted_plan_kinds(moves: Seq<MoveView>, h: Map<u64, Map<u64, u32>>)
    ensures
        ({
            let t = sort_spec(keyed(moves, h));
            &&& forall|i: int| 0 <= i < t.len() ==> (#[trigger] t[i]).0 == key_spec(t[i].1, h) && moves.contains(t[i].1)
            &&& forall|i: int, j: int| 0 <= i < j < t.len() ==> kind_priority_spec((#[trigger] t[i]).1) <= kind_priority_spec((#[trigger] t[j]).1)
            &&& forall|i: int, j: int| 0 <= i < j < t.len() && kind_priority_spec((#[trigger] t[i]).1) == kind_priority_spec((#[trigger] t[j]).1)
                ==> t[i].0.count <= t[j].0.count
            &&& forall|i: int, j: int| 0 <= i < j < t.len() && is_push_move((#[trigger] t[j]).1) ==> is_push_move((#[trigger] t[i]).1)
        }),
{
    broadcast use vstd::seq_lib::to_multiset_contains;

    let k = keyed(moves, h);
    let t = sort_spec(k);
    lemma_sort_sorted_permutation(k);
    assert forall|i: int| 0 <= i < t.len() implies (#[trigger] t[i]).0 == key_spec(t[i].1, h) && moves.contains(t[i].1) by {
        assert(t.contains(t[i]));
        assert(t.to_multiset().count(t[i]) > 0);
        assert(k.contains(t[i]));
        let j = choose|j: int| 0 <= j < k.len() && k[j] == t[i];
        assert(moves[j] == t[i].1);
    }
    assert forall|i: int, j: int| 0 <= i < j < t.len() implies kind_priority_spec((#[trigger] t[i]).1) <= kind_priority_spec(
        (#[trigger] t[j]).1,
    ) && (kind_priority_spec(t[i].1) == kind_priority_spec(t[j].1) ==> t[i].0.count <= t[j].0.count) by {
        assert(t[i].0 == key_spec(t[i].1, h) && t[j].0 == key_spec(t[j].1, h));
        assert(!key_lt(t[j].0, t[i].0));
        lemma_priority_kind_first(t[j].0, t[i].0);
    }
    assert forall|i: int, j: int| 0 <= i < j < t.len() && is_push_move((#[trigger] t[j]).1) implies is_push_move((#[trigger] t[i]).1) by {
        assert(t[i].0 == key_spec(t[i].1, h) && t[j].0 == key_spec(t[j].1, h));
        assert(!key_lt(t[j].0, t[i].0));
        lemma_move_kinds_order(t[j].1, t[i].1, h);
    }
}


/// Between two conveyor moves of the same standing (same count), the one whose conveyor
/// lies further along +X comes first, then further along +Y, then further along +Z.
pub proof fn lemma_conveyor_tie_break(a: MoveView, b: MoveView, h: Map<u64, Map<u64, u32>>, pa: Cell, pb: Cell)
    requires
        a matches MoveView::Translate { mark: MovementMark::Conveyor, source_pos: Some(p), .. } && p == pa,
        b matches MoveView::Translate { mark: MovementMark::Conveyor, source_pos: Some(p), .. } && p == pb,
        pa.neg_fits(),
        pb.neg_fits(),
        key_spec(a, h).count == key_spec(b, h).count,
    ensures
        key_lt(key_spec(a, h), key_spec(b, h)) <==> (pa.x > pb.x || (pa.x == pb.x && (pa.y > pb.y || (pa.y == pb.y && pa.z > pb.z)))),
{
}


/// Within a kind, the move whose source already moved its structure fewer times (by the
/// history) comes first; a move without a source counts as never moved.
pub proof fn lemma_history_count_order(a: MoveView, b: MoveView, h: Map<u64, Map<u64, u32>>, ba: BlockId, bb: BlockId)
    requires
        kind_priority_spec(a) == kind_priority_spec(b),
    ensures
        a.source() == Some(ba) && b.source() == Some(bb) && count_in(h, a.structure_id().0, ba.0) < count_in(h, b.structure_id().0, bb.0)
            ==> key_lt(key_spec(a, h), key_spec(b, h)),
        a.source() is None && b.source() == Some(bb) && count_in(h, b.structure_id().0, bb.0) > 0 ==> key_lt(key_spec(a, h), key_spec(b, h)),
        a.source() == Some(ba) && count_in(h, a.structure_id().0, ba.0) == 0 ==> key_spec(a, h).count == 0,
{
}

} // verus!
