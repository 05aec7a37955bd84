//! Integer grid coordinates, unit directions and the horizontal facings.
use vstd::prelude::*;

verus! {

/// A grid cell coordinate, or an integer offset between two cells.
#[derive(Clone, Copy, Debug, PartialEq, Eq, Structural, Hash)]
pub struct Cell {
    pub x: i32,
    pub y: i32,
    pub z: i32,
}

/// Whether an integer fits the coordinate type.
pub open spec fn fits(v: int) -> bool {
    i32::MIN <= v <= i32::MAX
}

/// The cell with the given integer coordinates (meaningful when each fits).
pub open spec fn mk(x: int, y: int, z: int) -> Cell {
    Cell { x: x as i32, y: y as i32, z: z as i32 }
}

impl Cell {
    pub open spec fn zero_spec() -> Cell {
        Cell { x: 0, y: 0, z: 0 }
    }

    /// Component-wise sum can be represented.
    pub open spec fn add_fits(self, o: Cell) -> bool {
        fits(self.x + o.x) && fits(self.y + o.y) && fits(self.z + o.z)
    }

    /// Component-wise difference can be represented.
    pub open spec fn sub_fits(self, o: Cell) -> bool {
        fits(self.x - o.x) && fits(self.y - o.y) && fits(self.z - o.z)
    }

    pub open spec fn plus(self, o: Cell) -> Cell {
        mk(self.x + o.x, self.y + o.y, self.z + o.z)
    }

    pub open spec fn minus(self, o: Cell) -> Cell {
        mk(self.x - o.x, self.y - o.y, self.z - o.z)
    }

    pub open spec fn negated(self) -> Cell {
        mk(-self.x, -self.y, -self.z)
    }

    /// Negation can be represented (no component is `i32::MIN`).
    pub open spec fn neg_fits(self) -> bool {
        self.x > i32::MIN && self.y > i32::MIN && self.z > i32::MIN
    }

    /// Every component has magnitude at most one and exactly one is non-zero.
    pub open spec fn is_unit_axis(self) -> bool {
        ||| self == mk(1, 0, 0)
        ||| self == mk(-1, 0, 0)
        ||| self == mk(0, 1, 0)
        ||| self == mk(0, -1, 0)
        ||| self == mk(0, 0, 1)
        ||| self == mk(0, 0, -1)
    }

    pub fn new(x: i32, y: i32, z: i32) -> (c: Cell)
        ensures
            c == (Cell { x, y, z }),
    {
        Cell { x, y, z }
    }

    pub fn zero() -> (c: Cell)
        ensures
            c == Cell::zero_spec(),
    {
        Cell { x: 0, y: 0, z: 0 }
    }

    pub fn add(self, o: Cell) -> (c: Cell)
        requires
            self.add_fits(o),
        ensures
            c == self.plus(o),
            c.x == self.x + o.x,
            c.y == self.y + o.y,
            c.z == self.z + o.z,
    {
        Cell { x: self.x + o.x, y: self.y + o.y, z: self.z + o.z }
    }

    pub fn sub(self, o: Cell) -> (c: Cell)
        requires
            self.sub_fits(o),
        ensures
            c == self.minus(o),
            c.x == self.x - o.x,
            c.y == self.y - o.y,
            c.z == self.z - o.z,
    {
        Cell { x: self.x - o.x, y: self.y - o.y, z: self.z - o.z }
    }

    pub fn neg(self) -> (c: Cell)
        requires
            self.neg_fits(),
        ensures
            c == self.negated(),
            c.x == -self.x,
            c.y == -self.y,
            c.z == -self.z,
    {
        Cell { x: -self.x, y: -self.y, z: -self.z }
    }

    /// Component-wise minimum.
    pub fn min(self, o: Cell) -> (c: Cell)
        ensures
            c.x == (if self.x <= o.x { self.x } else { o.x }),
            c.y == (if self.y <= o.y { self.y } else { o.y }),
            c.z == (if self.z <= o.z { self.z } else { o.z }),
    {
        Cell {
            x: if self.x <= o.x { self.x } else { o.x },
            y: if self.y <= o.y { self.y } else { o.y },
            z: if self.z <= o.z { self.z } else { o.z },
        }
    }

    /// Component-wise maximum.
    pub fn max(self, o: Cell) -> (c: Cell)
        ensures
            c.x == (if self.x >= o.x { self.x } else { o.x }),
            c.y == (if self.y >= o.y { self.y } else { o.y }),
            c.z == (if self.z >= o.z { self.z } else { o.z }),
    {
        Cell {
            x: if self.x >= o.x { self.x } else { o.x },
            y: if self.y >= o.y { self.y } else { o.y },
            z: if self.z >= o.z { self.z } else { o.z },
        }
    }
}

/// The six face-adjacent offsets in the fixed order +X, -X, +Y, -Y, +Z, -Z.
pub open spec fn signal_offsets_spec() -> Seq<Cell> {
    seq![mk(1, 0, 0), mk(-1, 0, 0), mk(0, 1, 0), mk(0, -1, 0), mk(0, 0, 1), mk(0, 0, -1)]
}

/// The six face-adjacent offsets in the fixed order +X, -X, +Y, -Y, +Z, -Z.
pub fn signal_offsets() -> (r: [Cell; 6])
    ensures
        r@ == signal_offsets_spec(),
{
    let r = [
        Cell { x: 1, y: 0, z: 0 },
        Cell { x: -1, y: 0, z: 0 },
        Cell { x: 0, y: 1, z: 0 },
        Cell { x: 0, y: -1, z: 0 },
        Cell { x: 0, y: 0, z: 1 },
        Cell { x: 0, y: 0, z: -1 },
    ];
    assert(r@ =~= signal_offsets_spec());
    r
}

/// Horizontal orientation of a block.
#[derive(Clone, Copy, Debug, PartialEq, Eq, Structural, Hash)]
pub enum Facing {
    North,
    East,
    South,
    West,
}

impl Facing {
    /// Unit offset the facing points to: north is -Z, east is +X, south is +Z, west is -X.
    pub open spec fn forward_spec(self) -> Cell {
        match self {
            Facing::North => mk(0, 0, -1),
            Facing::East => mk(1, 0, 0),
            Facing::South => mk(0, 0, 1),
            Facing::West => mk(-1, 0, 0),
        }
    }

    /// Quarter turn clockwise seen from above.
    pub open spec fn rotate_spec(self) -> Facing {
        match self {
            Facing::North => Facing::East,
            Facing::East => Facing::South,
            Facing::South => Facing::West,
            Facing::West => Facing::North,
        }
    }

    /// Quarter turn counter-clockwise seen from above.
    pub open spec fn rotate_counter_spec(self) -> Facing {
        match self {
            Facing::North => Facing::West,
            Facing::West => Facing::South,
            Facing::South => Facing::East,
            Facing::East => Facing::North,
        }
    }

    pub fn forward_ivec3(self) -> (c: Cell)
        ensures
            c == self.forward_spec(),
    {
        match self {
            Facing::North => Cell { x: 0, y: 0, z: -1 },
            Facing::East => Cell { x: 1, y: 0, z: 0 },
            Facing::South => Cell { x: 0, y: 0, z: 1 },
            Facing::West => Cell { x: -1, y: 0, z: 0 },
        }
    }

    pub fn rotate(self) -> (f: Facing)
        ensures
            f == self.rotate_spec(),
    {
        match self {
            Facing::North => Facing::East,
            Facing::East => Facing::South,
            Facing::South => Facing::West,
            Facing::West => Facing::North,
        }
    }

    pub fn rotate_counter(self) -> (f: Facing)
        ensures
            f == self.rotate_counter_spec(),
    {
        match self {
            Facing::North => Facing::West,
            Facing::West => Facing::South,
            Facing::South => Facing::East,
            Facing::East => Facing::North,
        }
    }
}

/// Quarter turn of an offset about the vertical axis.
pub open spec fn rotate_offset_y_spec(offset: Cell, clockwise: bool) -> Cell {
    if clockwise {
        mk(-offset.z, offset.y as int, offset.x as int)
    } else {
        mk(offset.z as int, offset.y as int, -offset.x)
    }
}

/// The quarter turn of `offset` can be represented.
pub open spec fn rotate_offset_fits(offset: Cell, clockwise: bool) -> bool {
    if clockwise {
        offset.z > i32::MIN
    } else {
        offset.x > i32::MIN
    }
}

/// Quarter turn of `pos` about the vertical line through `pivot`.
pub open spec fn rotate_pos_y_spec(pos: Cell, pivot: Cell, clockwise: bool) -> Cell {
    pivot.plus(rotate_offset_y_spec(pos.minus(pivot), clockwise))
}

/// Every intermediate value of the quarter turn of `pos` about `pivot` can be represented.
pub open spec fn rotate_pos_fits(pos: Cell, pivot: Cell, clockwise: bool) -> bool {
    &&& pos.sub_fits(pivot)
    &&& rotate_offset_fits(pos.minus(pivot), clockwise)
    &&& pivot.add_fits(rotate_offset_y_spec(pos.minus(pivot), clockwise))
}

/// Quarter turn of an offset about the vertical axis.
pub fn rotate_offset_y(offset: Cell, clockwise: bool) -> (r: Cell)
    requires
        rotate_offset_fits(offset, clockwise),
    ensures
        r == rotate_offset_y_spec(offset, clockwise),
{
    if clockwise {
        Cell { x: -offset.z, y: offset.y, z: offset.x }
    } else {
        Cell { x: offset.z, y: offset.y, z: -offset.x }
    }
}

/// Quarter turn of `pos` about the vertical line through `pivot`.
pub fn rotate_pos_y(pos: Cell, pivot: Cell, clockwise: bool) -> (r: Cell)
    requires
        rotate_pos_fits(pos, pivot, clockwise),
    ensures
        r == rotate_pos_y_spec(pos, pivot, clockwise),
{
    let rel = pos.sub(pivot);
    pivot.add(rotate_offset_y(rel, clockwise))
}

/// The facing after a quarter turn in the given sense.
pub fn rotate_facing(facing: Facing, clockwise: bool) -> (f: Facing)
    ensures
        f == (if clockwise { facing.rotate_spec() } else { facing.rotate_counter_spec() }),
{
    if clockwise {
        facing.rotate()
    } else {
        facing.rotate_counter()
    }
}

/// Whether stepping from `body` by `source` lands on `target`.
pub fn bpos_facing_toward(body: Cell, source: Cell, target: Cell) -> (r: bool)
    requires
        body.add_fits(source),
    ensures
        r == (body.plus(source) == target),
{
    body.add(source) == target
}

/// A quarter turn followed by the opposite quarter turn gives back the offset.
pub proof fn lemma_rotate_offset_inverse(offset: Cell, clockwise: bool)
    requires
        rotate_offset_fits(offset, clockwise),
    ensures
        rotate_offset_fits(rotate_offset_y_spec(offset, clockwise), !clockwise),
        rotate_offset_y_spec(rotate_offset_y_spec(offset, clockwise), !clockwise) == offset,
{
}

/// Four quarter turns in the same sense give back the offset.
pub proof fn lemma_rotate_offset_four_turns(offset: Cell, clockwise: bool)
    requires
        offset.neg_fits(),
    ensures
        rotate_offset_y_spec(
            rotate_offset_y_spec(
                rotate_offset_y_spec(rotate_offset_y_spec(offset, clockwise), clockwise),
                clockwise,
            ),
            clockwise,
        ) == offset,
{
}

/// Turning a facing moves its forward offset by the same quarter turn.
pub proof fn lemma_rotate_facing_matches_offset(facing: Facing, clockwise: bool)
    ensures
        (if clockwise { facing.rotate_spec() } else { facing.rotate_counter_spec() }).forward_spec()
            == rotate_offset_y_spec(facing.forward_spec(), clockwise),
{
}

/// Clockwise and counter-clockwise facing turns undo each other.
pub proof fn lemma_rotate_facing_inverse(facing: Facing)
    ensures
        facing.rotate_spec().rotate_counter_spec() == facing,
        facing.rotate_counter_spec().rotate_spec() == facing,
{
}

/// Turning about a pivot keeps the pivot, the height, and the horizontal distance.
pub proof fn lemma_rotate_pos_keeps_pivot_and_height(pos: Cell, pivot: Cell, clockwise: bool)
    requires
        rotate_pos_fits(pos, pivot, clockwise),
    ensures
        rotate_pos_y_spec(pivot, pivot, clockwise) == pivot,
        rotate_pos_y_spec(pos, pivot, clockwise).y == pos.y,
        ({
            let r = rotate_pos_y_spec(pos, pivot, clockwise);
            (r.x - pivot.x) * (r.x - pivot.x) + (r.z - pivot.z) * (r.z - pivot.z) == (pos.x
                - pivot.x) * (pos.x - pivot.x) + (pos.z - pivot.z) * (pos.z - pivot.z)
        }),
{
    let r = rotate_pos_y_spec(pos, pivot, clockwise);
    let dx = pos.x - pivot.x;
    let dz = pos.z - pivot.z;
    assert(dz * dz == (-dz) * (-dz)) by (nonlinear_arith);
    assert(dx * dx == (-dx) * (-dx)) by (nonlinear_arith);
}

/// A quarter turn about a pivot followed by the opposite turn gives back the cell.
pub proof fn lemma_rotate_pos_inverse(pos: Cell, pivot: Cell, clockwise: bool)
    requires
        rotate_pos_fits(pos, pivot, clockwise),
    ensures
        rotate_pos_fits(rotate_pos_y_spec(pos, pivot, clockwise), pivot, !clockwise),
        rotate_pos_y_spec(rotate_pos_y_spec(pos, pivot, clockwise), pivot, !clockwise) == pos,
{
}

} // verus!
