//! Laser reflection by mirrors and splitters.
use vstd::prelude::*;

use crate::cell::{mk, rotate_offset_y_spec, Cell, Facing};

verus! {

/// What ends a laser beam: nothing in range, a mirror it reflects on, or a solid block.
#[derive(Clone, Copy, Debug, PartialEq, Eq, Structural)]
pub enum LaserBeamStop {
    Open,
    Mirror,
    Solid,
}

/// How an optical block redirects a beam.
#[derive(Clone, Copy, Debug, PartialEq, Eq, Structural)]
pub enum LaserOpticsBehavior {
    Mirror,
    VerticalMirror,
    Splitter,
}

/// Horizontal mirror: east/west facings swap X and Z with the same sign,
/// north/south facings swap them with opposite signs; vertical beams pass.
pub open spec fn reflect_mirror_spec(facing: Facing, d: Cell) -> Option<Cell> {
    if d.y != 0 {
        None
    } else if facing == Facing::East || facing == Facing::West {
        if d == mk(1, 0, 0) {
            Some(mk(0, 0, 1))
        } else if d == mk(-1, 0, 0) {
            Some(mk(0, 0, -1))
        } else if d == mk(0, 0, 1) {
            Some(mk(1, 0, 0))
        } else if d == mk(0, 0, -1) {
            Some(mk(-1, 0, 0))
        } else {
            None
        }
    } else {
        if d == mk(1, 0, 0) {
            Some(mk(0, 0, -1))
        } else if d == mk(-1, 0, 0) {
            Some(mk(0, 0, 1))
        } else if d == mk(0, 0, 1) {
            Some(mk(-1, 0, 0))
        } else if d == mk(0, 0, -1) {
            Some(mk(1, 0, 0))
        } else {
            None
        }
    }
}

/// World axis of the model's local +X after turning by the facing.
pub open spec fn local_x_axis_spec(facing: Facing) -> Cell {
    match facing {
        Facing::North => mk(1, 0, 0),
        Facing::East => mk(0, 0, -1),
        Facing::South => mk(-1, 0, 0),
        Facing::West => mk(0, 0, 1),
    }
}

/// Vertical mirror: swaps the vertical axis with the facing's local X axis.
pub open spec fn reflect_vertical_mirror_spec(facing: Facing, d: Cell) -> Option<Cell> {
    let axis = local_x_axis_spec(facing);
    let neg_axis = axis.negated();
    if d == mk(0, 1, 0) {
        Some(neg_axis)
    } else if d == mk(0, -1, 0) {
        Some(axis)
    } else if d == axis {
        Some(mk(0, -1, 0))
    } else if d == neg_axis {
        Some(mk(0, 1, 0))
    } else {
        None
    }
}

/// A vector turned by the facing (north leaves it unchanged).
pub open spec fn rotate_by_facing_spec(facing: Facing, v: Cell) -> Cell {
    match facing {
        Facing::North => v,
        Facing::East => mk(v.z as int, v.y as int, -v.x),
        Facing::South => mk(-v.x, v.y as int, -v.z),
        Facing::West => mk(-v.z, v.y as int, v.x as int),
    }
}

/// The splitter's three axes for a facing (north: -X, +Y, +Z).
pub open spec fn triad_spec(facing: Facing) -> Seq<Cell> {
    seq![
        rotate_by_facing_spec(facing, mk(-1, 0, 0)),
        rotate_by_facing_spec(facing, mk(0, 1, 0)),
        rotate_by_facing_spec(facing, mk(0, 0, 1)),
    ]
}

/// Splitter: a beam along one axis of the triad leaves along the other two, with the
/// signs flipped when it comes in against the axis.
pub open spec fn reflect_splitter_spec(facing: Facing, d: Cell) -> Seq<Cell> {
    let t = triad_spec(facing);
    if d == t[0] {
        seq![t[1], t[2]]
    } else if d == t[0].negated() {
        seq![t[1].negated(), t[2].negated()]
    } else if d == t[1] {
        seq![t[2], t[0]]
    } else if d == t[1].negated() {
        seq![t[2].negated(), t[0].negated()]
    } else if d == t[2] {
        seq![t[0], t[1]]
    } else if d == t[2].negated() {
        seq![t[0].negated(), t[1].negated()]
    } else {
        seq![]
    }
}

/// Directions a beam leaves an optical block in.
pub open spec fn reflect_laser_spec(optics: LaserOpticsBehavior, facing: Facing, d: Cell) -> Seq<Cell> {
    match optics {
        LaserOpticsBehavior::Mirror => match reflect_mirror_spec(facing, d) {
            Some(o) => seq![o],
            None => seq![],
        },
        LaserOpticsBehavior::VerticalMirror => match reflect_vertical_mirror_spec(facing, d) {
            Some(o) => seq![o],
            None => seq![],
        },
        LaserOpticsBehavior::Splitter => reflect_splitter_spec(facing, d),
    }
}

fn reflect_mirror(block_facing: Facing, incoming: Cell) -> (r: Option<Cell>)
    ensures
        r == reflect_mirror_spec(block_facing, incoming),
{
    if incoming.y != 0 {
        return None;
    }
    let x = Cell { x: 1, y: 0, z: 0 };
    let nx = Cell { x: -1, y: 0, z: 0 };
    let z = Cell { x: 0, y: 0, z: 1 };
    let nz = Cell { x: 0, y: 0, z: -1 };
    match block_facing {
        Facing::East | Facing::West => {
            if incoming == x {
                Some(z)
            } else if incoming == nx {
                Some(nz)
            } else if incoming == z {
                Some(x)
            } else if incoming == nz {
                Some(nx)
            } else {
                None
            }
        },
        Facing::North | Facing::South => {
            if incoming == x {
                Some(nz)
            } else if incoming == nx {
                Some(z)
            } else if incoming == z {
                Some(nx)
            } else if incoming == nz {
                Some(x)
            } else {
                None
            }
        },
    }
}

fn local_x_axis(facing: Facing) -> (r: Cell)
    ensures
        r == local_x_axis_spec(facing),
{
    match facing {
        Facing::North => Cell { x: 1, y: 0, z: 0 },
        Facing::East => Cell { x: 0, y: 0, z: -1 },
        Facing::South => Cell { x: -1, y: 0, z: 0 },
        Facing::West => Cell { x: 0, y: 0, z: 1 },
    }
}

fn reflect_vertical_mirror(block_facing: Facing, incoming: Cell) -> (r: Option<Cell>)
    ensures
        r == reflect_vertical_mirror_spec(block_facing, incoming),
{
    let axis = local_x_axis(block_facing);
    let neg_axis = axis.neg();
    if incoming == (Cell { x: 0, y: 1, z: 0 }) {
        Some(neg_axis)
    } else if incoming == (Cell { x: 0, y: -1, z: 0 }) {
        Some(axis)
    } else if incoming == axis {
        Some(Cell { x: 0, y: -1, z: 0 })
    } else if incoming == neg_axis {
        Some(Cell { x: 0, y: 1, z: 0 })
    } else {
        None
    }
}

fn rotate_by_facing(facing: Facing, v: Cell) -> (r: Cell)
    requires
        v.neg_fits(),
    ensures
        r == rotate_by_facing_spec(facing, v),
{
    match facing {
        Facing::North => v,
        Facing::East => Cell { x: v.z, y: v.y, z: -v.x },
        Facing::South => Cell { x: -v.x, y: v.y, z: -v.z },
        Facing::West => Cell { x: -v.z, y: v.y, z: v.x },
    }
}

fn reflect_splitter(block_facing: Facing, incoming: Cell) -> (r: Vec<Cell>)
    ensures
        r@ == reflect_splitter_spec(block_facing, incoming),
{
    let t0 = rotate_by_facing(block_facing, Cell { x: -1, y: 0, z: 0 });
    let t1 = rotate_by_facing(block_facing, Cell { x: 0, y: 1, z: 0 });
    let t2 = rotate_by_facing(block_facing, Cell { x: 0, y: 0, z: 1 });
    let triad = [t0, t1, t2];
    let ghost t = triad_spec(block_facing);
    assert(triad@ =~= t);
    let mut i: usize = 0;
    while i < 3
        invariant
            triad@ == t,
            t == triad_spec(block_facing),
            i <= 3,
            forall|j: int| 0 <= j < i ==> incoming != t[j] && incoming != t[j].negated(),
        decreases 3 - i,
    {
        let a = triad[i];
        let b = triad[(i + 1) % 3];
        let c = triad[(i + 2) % 3];
        if incoming == a {
            let mut out = Vec::new();
            out.push(b);
            out.push(c);
            assert(out@ =~= seq![b, c]);
            return out;
        }
        if incoming == a.neg() {
            let mut out = Vec::new();
            out.push(b.neg());
            out.push(c.neg());
            assert(out@ =~= seq![b.negated(), c.negated()]);
            return out;
        }
        i = i + 1;
    }
    let out = Vec::new();
    assert(out@ =~= Seq::<Cell>::empty());
    out
}

/// Directions a beam travelling in `incoming` leaves the optical block in.
pub fn reflect_laser(optics: LaserOpticsBehavior, block_facing: Facing, incoming: Cell) -> (r: Vec<
    Cell,
>)
    ensures
        r@ == reflect_laser_spec(optics, block_facing, incoming),
{
    match optics {
        LaserOpticsBehavior::Mirror => {
            let mut out = Vec::new();
            match reflect_mirror(block_facing, incoming) {
                Some(o) => {
                    out.push(o);
                    assert(out@ =~= seq![o]);
                },
                None => {
                    assert(out@ =~= Seq::<Cell>::empty());
                },
            }
            out
        },
        LaserOpticsBehavior::VerticalMirror => {
            let mut out = Vec::new();
            match reflect_vertical_mirror(block_facing, incoming) {
                Some(o) => {
                    out.push(o);
                    assert(out@ =~= seq![o]);
                },
                None => {
                    assert(out@ =~= Seq::<Cell>::empty());
                },
            }
            out
        },
        LaserOpticsBehavior::Splitter => reflect_splitter(block_facing, incoming),
    }
}

/// Mirrors are reversible: a beam sent back along the reflected direction leaves along
/// the reverse of the direction it came in, and reflected beams stay unit axes.
pub proof fn lemma_mirror_reversible(facing: Facing, d: Cell)
    ensures
        reflect_mirror_spec(facing, d) matches Some(o) ==> o.is_unit_axis() && o.neg_fits()
            && reflect_mirror_spec(facing, o.negated()) == Some(d.negated()),
        reflect_vertical_mirror_spec(facing, d) matches Some(o) ==> o.is_unit_axis() && o.neg_fits()
            && reflect_vertical_mirror_spec(facing, o.negated()) == Some(d.negated()),
{
}

/// A splitter sends a beam along an axis of its triad out along the two other axes,
/// both perpendicular to the incoming beam (on another axis).
pub proof fn lemma_splitter_perpendicular(facing: Facing, d: Cell)
    ensures
        reflect_splitter_spec(facing, d).len() == 0 || reflect_splitter_spec(facing, d).len() == 2,
        forall|i: int|
            0 <= i < reflect_splitter_spec(facing, d).len() ==> {
                let o = #[trigger] reflect_splitter_spec(facing, d)[i];
                &&& o.is_unit_axis()
                &&& !((o.x != 0 && d.x != 0) || (o.y != 0 && d.y != 0) || (o.z != 0 && d.z != 0))
            },
{
}


/// A beam along a horizontal axis: +X, -X, +Z or -Z.
pub open spec fn horizontal_axis(d: Cell) -> bool {
    d == mk(1, 0, 0) || d == mk(-1, 0, 0) || d == mk(0, 0, 1) || d == mk(0, 0, -1)
}

/// A horizontal mirror swaps the X and Z components of a horizontal beam: with the same
/// sign when it faces east or west (so +X leaves as +Z), with opposite signs when it
/// faces north or south (so +X leaves as -Z). A mirror facing west reflects exactly like
/// one facing east, and south like north. Any other beam passes the mirror.
pub proof fn lemma_mirror_swaps_axes(facing: Facing, d: Cell)
    ensures
        horizontal_axis(d) && (facing == Facing::East || facing == Facing::West) ==> reflect_laser_spec(
            LaserOpticsBehavior::Mirror,
            facing,
            d,
        ) == seq![mk(d.z as int, 0, d.x as int)],
        horizontal_axis(d) && (facing == Facing::North || facing == Facing::South) ==> reflect_laser_spec(
            LaserOpticsBehavior::Mirror,
            facing,
            d,
        ) == seq![mk(-d.z, 0, -d.x)],
        !horizontal_axis(d) ==> reflect_laser_spec(LaserOpticsBehavior::Mirror, facing, d) == Seq::<Cell>::empty(),
        reflect_laser_spec(LaserOpticsBehavior::Mirror, Facing::West, d) == reflect_laser_spec(LaserOpticsBehavior::Mirror, Facing::East, d),
        reflect_laser_spec(LaserOpticsBehavior::Mirror, Facing::South, d) == reflect_laser_spec(LaserOpticsBehavior::Mirror, Facing::North, d),
        reflect_laser_spec(LaserOpticsBehavior::Mirror, Facing::East, mk(1, 0, 0)) == seq![mk(0, 0, 1)],
{
    if horizontal_axis(d) {
        if facing == Facing::East || facing == Facing::West {
            assert(reflect_laser_spec(LaserOpticsBehavior::Mirror, facing, d) =~= seq![mk(d.z as int, 0, d.x as int)]);
        } else {
            assert(reflect_laser_spec(LaserOpticsBehavior::Mirror, facing, d) =~= seq![mk(-d.z, 0, -d.x)]);
        }
    } else {
        assert(reflect_laser_spec(LaserOpticsBehavior::Mirror, facing, d) =~= Seq::<Cell>::empty());
    }
    assert(reflect_laser_spec(LaserOpticsBehavior::Mirror, Facing::East, mk(1, 0, 0)) =~= seq![mk(0, 0, 1)]);
}

/// A vertical mirror turns with its block: for a beam turned by the block's facing, it
/// gives the directions a north-facing vertical mirror gives for the unturned beam,
/// turned the same way; a north-facing one swaps the vertical axis with the X axis
/// (down becomes +X, +X becomes down).
pub proof fn lemma_vertical_mirror_turns_with_block(facing: Facing, d: Cell)
    requires
        d.is_unit_axis(),
    ensures
        reflect_laser_spec(LaserOpticsBehavior::VerticalMirror, facing, rotate_by_facing_spec(facing, d)) == reflect_laser_spec(
            LaserOpticsBehavior::VerticalMirror,
            Facing::North,
            d,
        ).map_values(|o: Cell| rotate_by_facing_spec(facing, o)),
        reflect_laser_spec(LaserOpticsBehavior::VerticalMirror, Facing::North, mk(0, -1, 0)) == seq![mk(1, 0, 0)],
        reflect_laser_spec(LaserOpticsBehavior::VerticalMirror, Facing::North, mk(1, 0, 0)) == seq![mk(0, -1, 0)],
        reflect_laser_spec(LaserOpticsBehavior::VerticalMirror, Facing::North, mk(0, 0, 1)) == Seq::<Cell>::empty(),
{
    let l = reflect_laser_spec(LaserOpticsBehavior::VerticalMirror, facing, rotate_by_facing_spec(facing, d));
    let r = reflect_laser_spec(LaserOpticsBehavior::VerticalMirror, Facing::North, d).map_values(|o: Cell| rotate_by_facing_spec(facing, o));
    assert(l =~= r);
    assert(reflect_laser_spec(LaserOpticsBehavior::VerticalMirror, Facing::North, mk(0, -1, 0)) =~= seq![mk(1, 0, 0)]);
    assert(reflect_laser_spec(LaserOpticsBehavior::VerticalMirror, Facing::North, mk(1, 0, 0)) =~= seq![mk(0, -1, 0)]);
    assert(reflect_laser_spec(LaserOpticsBehavior::VerticalMirror, Facing::North, mk(0, 0, 1)) =~= Seq::<Cell>::empty());
}

/// A splitter turns with its block in the same way; a north-facing one sends a beam
/// along one of -X, +Y, +Z out along the other two (and a beam against one of them out
/// against the other two).
pub proof fn lemma_splitter_turns_with_block(facing: Facing, d: Cell)
    requires
        d.is_unit_axis(),
    ensures
        reflect_laser_spec(LaserOpticsBehavior::Splitter, facing, rotate_by_facing_spec(facing, d)) == reflect_laser_spec(
            LaserOpticsBehavior::Splitter,
            Facing::North,
            d,
        ).map_values(|o: Cell| rotate_by_facing_spec(facing, o)),
        reflect_laser_spec(LaserOpticsBehavior::Splitter, Facing::North, mk(-1, 0, 0)) == seq![mk(0, 1, 0), mk(0, 0, 1)],
        reflect_laser_spec(LaserOpticsBehavior::Splitter, Facing::North, mk(1, 0, 0)) == seq![mk(0, -1, 0), mk(0, 0, -1)],
        reflect_laser_spec(LaserOpticsBehavior::Splitter, Facing::North, mk(0, 1, 0)) == seq![mk(0, 0, 1), mk(-1, 0, 0)],
        reflect_laser_spec(LaserOpticsBehavior::Splitter, Facing::North, mk(0, 0, 1)) == seq![mk(-1, 0, 0), mk(0, 1, 0)],
        reflect_laser_spec(LaserOpticsBehavior::Splitter, Facing::North, mk(0, -1, 0)) == seq![mk(0, 0, -1), mk(1, 0, 0)],
        reflect_laser_spec(LaserOpticsBehavior::Splitter, Facing::North, mk(0, 0, -1)) == seq![mk(1, 0, 0), mk(0, -1, 0)],
{
    let l = reflect_laser_spec(LaserOpticsBehavior::Splitter, facing, rotate_by_facing_spec(facing, d));
    let r = reflect_laser_spec(LaserOpticsBehavior::Splitter, Facing::North, d).map_values(|o: Cell| rotate_by_facing_spec(facing, o));
    assert(l =~= r);
    assert(reflect_laser_spec(LaserOpticsBehavior::Splitter, Facing::North, mk(-1, 0, 0)) =~= seq![mk(0, 1, 0), mk(0, 0, 1)]);
    assert(reflect_laser_spec(LaserOpticsBehavior::Splitter, Facing::North, mk(1, 0, 0)) =~= seq![mk(0, -1, 0), mk(0, 0, -1)]);
    assert(reflect_laser_spec(LaserOpticsBehavior::Splitter, Facing::North, mk(0, 1, 0)) =~= seq![mk(0, 0, 1), mk(-1, 0, 0)]);
    assert(reflect_laser_spec(LaserOpticsBehavior::Splitter, Facing::North, mk(0, 0, 1)) =~= seq![mk(-1, 0, 0), mk(0, 1, 0)]);
    assert(reflect_laser_spec(LaserOpticsBehavior::Splitter, Facing::North, mk(0, -1, 0)) =~= seq![mk(0, 0, -1), mk(1, 0, 0)]);
    assert(reflect_laser_spec(LaserOpticsBehavior::Splitter, Facing::North, mk(0, 0, -1)) =~= seq![mk(1, 0, 0), mk(0, -1, 0)]);
}


/// Turning by a facing is a number of counterclockwise quarter turns (seen from above):
/// one for east, two for south, three for west, none for north.
pub proof fn lemma_facing_turns(v: Cell)
    requires
        v.is_unit_axis(),
    ensures
        rotate_by_facing_spec(Facing::North, v) == v,
        rotate_by_facing_spec(Facing::East, v) == rotate_offset_y_spec(v, false),
        rotate_by_facing_spec(Facing::South, v) == rotate_offset_y_spec(rotate_offset_y_spec(v, false), false),
        rotate_by_facing_spec(Facing::West, v) == rotate_offset_y_spec(rotate_offset_y_spec(rotate_offset_y_spec(v, false), false), false),
{
}

} // verus!
