//! Per-block settings of generators, acceptors, stampers, converters, portals and signs.
use vstd::prelude::*;
use vstd::string::StringExecFns;

use crate::cell::Cell;
use crate::cell::Facing;
use crate::ids::{MaterialBlockId, PaintMaterialId, StampMaterialId};

verus! {

/// When a generator fires: every `period` turns shifted by `offset`, or when the
/// acceptor structure represented by `anchor` accepts.
/// Editor box-selection mode.
#[derive(Clone, Copy, Debug, PartialEq, Eq, Structural)]
pub enum EditSelectionMode {
    Point,
    Line,
    Plane,
}

impl Default for EditSelectionMode {
    fn default() -> (r: EditSelectionMode)
        ensures
            r == EditSelectionMode::Point,
    {
        EditSelectionMode::Point
    }
}

#[derive(Clone, Copy, Debug, PartialEq, Eq, Structural)]
pub enum GeneratorMode {
    Period { period: u64, offset: u64 },
    Link { anchor: Option<Cell> },
}

/// Generator settings: trigger mode, material and facing of what it makes.
#[derive(Clone, Copy, Debug, PartialEq, Eq, Structural)]
pub struct GeneratorSettings {
    pub mode: GeneratorMode,
    pub material: MaterialBlockId,
    /// Facing of directional materials (ignored by the others).
    pub facing: Facing,
}

/// The mode with the period raised to at least one and the offset reduced modulo it.
pub open spec fn normalized_mode(mode: GeneratorMode) -> GeneratorMode {
    match mode {
        GeneratorMode::Period { period, offset } => {
            let p: u64 = if period >= 1 { period } else { 1 };
            GeneratorMode::Period { period: p, offset: (offset % p) as u64 }
        },
        GeneratorMode::Link { anchor } => GeneratorMode::Link { anchor },
    }
}

impl GeneratorSettings {
    /// Key under which generators count as firing together (material ignored).
    pub fn trigger_key(self) -> (r: GeneratorMode)
        ensures
            r == normalized_mode(self.mode),
    {
        match self.mode {
            GeneratorMode::Period { period, offset } => {
                let p = if period >= 1 { period } else { 1 };
                GeneratorMode::Period { period: p, offset: offset % p }
            },
            GeneratorMode::Link { anchor } => GeneratorMode::Link { anchor },
        }
    }

    /// The same settings with the period at least one and the offset below it.
    pub fn clamps_offset(self) -> (r: GeneratorSettings)
        ensures
            r == (GeneratorSettings { mode: normalized_mode(self.mode), ..self }),
    {
        let mut s = self;
        match s.mode {
            GeneratorMode::Period { period, offset } => {
                let p = if period >= 1 { period } else { 1 };
                s.mode = GeneratorMode::Period { period: p, offset: offset % p };
            },
            GeneratorMode::Link { .. } => {},
        }
        s
    }
}

/// Clamping is idempotent, does not change the trigger key, and leaves a period of at
/// least one with the offset below it.
pub proof fn lemma_clamp_idempotent(s: GeneratorSettings)
    ensures
        normalized_mode(normalized_mode(s.mode)) == normalized_mode(s.mode),
        normalized_mode(s.mode) matches GeneratorMode::Period { period, offset } ==> period >= 1
            && offset < period,
{
    match s.mode {
        GeneratorMode::Period { period, offset } => {
            let p: u64 = if period >= 1 { period } else { 1 };
            let o = (offset % p) as u64;
            assert(o < p);
            assert(o % p == o) by {
                vstd::arithmetic::div_mod::lemma_small_mod(o as nat, p as nat);
            }
        },
        GeneratorMode::Link { .. } => {},
    }
}

/// Acceptor settings: the material and facing it wants, and the stamps and paints
/// it requires (empty slots ignored).
#[derive(Clone, Copy, Debug, PartialEq, Eq)]
pub struct GoalSettings {
    pub material: MaterialBlockId,
    pub facing: Facing,
    pub stamps: [Option<StampMaterialId>; 4],
    pub paints: [Option<PaintMaterialId>; 4],
}

/// Labeler settings: the stamp it applies.
#[derive(Clone, Copy, Debug, PartialEq, Eq, Structural)]
pub struct LabelerSettings {
    pub color: StampMaterialId,
}

/// Stamper settings: the stamp it applies.
#[derive(Clone, Copy, Debug, PartialEq, Eq, Structural)]
pub struct StamperSettings {
    pub stamp: StampMaterialId,
}

/// Roller settings: the paint it applies.
#[derive(Clone, Copy, Debug, PartialEq, Eq, Structural)]
pub struct RollerSettings {
    pub paint: PaintMaterialId,
}

/// Icon shown by a sign (exclusive with text).
#[derive(Clone, Copy, Debug, PartialEq, Eq, Structural)]
pub enum SignDisplay {
    Material(MaterialBlockId),
    Stamp(StampMaterialId),
}

/// Sign settings: text or icon.
#[derive(Clone, Debug)]
pub struct SignSettings {
    pub text: Option<String>,
    pub display: Option<SignDisplay>,
}

impl Default for SignSettings {
    /// A sign with neither text nor icon.
    fn default() -> (r: SignSettings)
        ensures
            r.text is None,
            r.display is None,
    {
        SignSettings { text: None, display: None }
    }
}

/// Which inputs a converter accepts.
#[derive(Clone, Copy, Debug, PartialEq, Eq, Structural)]
pub enum ConverterMode {
    AnyInput,
    SpecificInput,
}

/// Converter settings: input matching and the materials in and out.
#[derive(Clone, Copy, Debug, PartialEq, Eq, Structural)]
pub struct ConverterSettings {
    pub mode: ConverterMode,
    pub input: MaterialBlockId,
    pub output: MaterialBlockId,
}

/// Portal settings: display name and paired portal cell.
#[derive(Clone, Debug)]
pub struct TeleportSettings {
    pub name: String,
    pub pair: Option<Cell>,
}

/// Settings of one block, by kind.
#[derive(Clone, Debug)]
pub enum BlockSettings {
    Generator(GeneratorSettings),
    Goal(GoalSettings),
    Stamper(StamperSettings),
    Roller(RollerSettings),
    Converter(ConverterSettings),
    Teleport(TeleportSettings),
    Sign(SignSettings),
}

/// Index of a settings variant.
pub open spec fn settings_kind(s: BlockSettings) -> int {
    match s {
        BlockSettings::Generator(_) => 0,
        BlockSettings::Goal(_) => 1,
        BlockSettings::Stamper(_) => 2,
        BlockSettings::Roller(_) => 3,
        BlockSettings::Converter(_) => 4,
        BlockSettings::Teleport(_) => 5,
        BlockSettings::Sign(_) => 6,
    }
}

fn kind_index(s: &BlockSettings) -> (r: u8)
    ensures
        r as int == settings_kind(*s),
{
    match s {
        BlockSettings::Generator(_) => 0,
        BlockSettings::Goal(_) => 1,
        BlockSettings::Stamper(_) => 2,
        BlockSettings::Roller(_) => 3,
        BlockSettings::Converter(_) => 4,
        BlockSettings::Teleport(_) => 5,
        BlockSettings::Sign(_) => 6,
    }
}

impl BlockSettings {
    /// Whether both settings are of the same kind.
    pub fn matches_kind(&self, other: &BlockSettings) -> (r: bool)
        ensures
            r == (settings_kind(*self) == settings_kind(*other)),
    {
        kind_index(self) == kind_index(other)
    }
}

/// Magnitude of each coordinate fits, and so does the weighted sum.
pub open spec fn pos_hash_fits(pos: Cell) -> bool {
    &&& pos.x > i32::MIN && pos.y > i32::MIN && pos.z > i32::MIN
    &&& fits_i32(abs(pos.x as int) * 31 + abs(pos.y as int) * 17 + abs(pos.z as int) * 13)
}

pub open spec fn fits_i32(v: int) -> bool {
    i32::MIN <= v <= i32::MAX
}

pub open spec fn abs(v: int) -> int {
    if v < 0 {
        -v
    } else {
        v
    }
}

/// Weighted sum of the coordinate magnitudes, used to name unnamed portals.
pub open spec fn pos_hash_spec(pos: Cell) -> int {
    abs(pos.x as int) * 31 + abs(pos.y as int) * 17 + abs(pos.z as int) * 13
}

fn abs_i32(v: i32) -> (r: i32)
    requires
        v > i32::MIN,
    ensures
        r as int == abs(v as int),
{
    if v < 0 {
        -v
    } else {
        v
    }
}

fn pos_hash(pos: Cell) -> (r: i32)
    requires
        pos_hash_fits(pos),
    ensures
        r as int == pos_hash_spec(pos),
{
    let ax = abs_i32(pos.x);
    let ay = abs_i32(pos.y);
    let az = abs_i32(pos.z);
    assert(0 <= ax * 31 <= ax * 31 + ay * 17 + az * 13) by (nonlinear_arith)
        requires
            ax >= 0,
            ay >= 0,
            az >= 0,
    ;
    assert(0 <= ax * 31 + ay * 17 <= ax * 31 + ay * 17 + az * 13) by (nonlinear_arith)
        requires
            ax >= 0,
            ay >= 0,
            az >= 0,
    ;
    ax * 31 + ay * 17 + az * 13
}

/// Decimal digits of a natural number, most significant first.
pub open spec fn decimal_digits(n: nat) -> Seq<char>
    decreases n,
{
    if n < 10 {
        seq![digit_char(n)]
    } else {
        decimal_digits(n / 10).push(digit_char(n % 10))
    }
}

pub open spec fn digit_char(d: nat) -> char {
    if d == 0 {
        '0'
    } else if d == 1 {
        '1'
    } else if d == 2 {
        '2'
    } else if d == 3 {
        '3'
    } else if d == 4 {
        '4'
    } else if d == 5 {
        '5'
    } else if d == 6 {
        '6'
    } else if d == 7 {
        '7'
    } else if d == 8 {
        '8'
    } else {
        '9'
    }
}

/// Decimal rendering of an integer: a minus sign for negatives, no leading zeros.
pub open spec fn decimal_text(v: int) -> Seq<char> {
    if v < 0 {
        seq!['-'].add(decimal_digits((-v) as nat))
    } else {
        decimal_digits(v as nat)
    }
}

/// The decimal digit `d` (below ten) as text.
fn digit_str(d: u64) -> (r: &'static str)
    requires
        d < 10,
    ensures
        r@ == seq![digit_char(d as nat)],
{
    if d == 0 {
        proof {
            reveal_strlit("0");
        }
        "0"
    } else if d == 1 {
        proof {
            reveal_strlit("1");
        }
        "1"
    } else if d == 2 {
        proof {
            reveal_strlit("2");
        }
        "2"
    } else if d == 3 {
        proof {
            reveal_strlit("3");
        }
        "3"
    } else if d == 4 {
        proof {
            reveal_strlit("4");
        }
        "4"
    } else if d == 5 {
        proof {
            reveal_strlit("5");
        }
        "5"
    } else if d == 6 {
        proof {
            reveal_strlit("6");
        }
        "6"
    } else if d == 7 {
        proof {
            reveal_strlit("7");
        }
        "7"
    } else if d == 8 {
        proof {
            reveal_strlit("8");
        }
        "8"
    } else {
        proof {
            reveal_strlit("9");
        }
        "9"
    }
}

/// Appends the decimal digits of `n`, most significant first.
fn append_digits(s: &mut String, n: u64)
    ensures
        final(s)@ == old(s)@ + decimal_digits(n as nat),
    decreases n,
{
    if n < 10 {
        s.append(digit_str(n));
    } else {
        append_digits(s, n / 10);
        s.append(digit_str(n % 10));
        proof {
            assert((n / 10) as nat == (n as nat) / 10);
            assert((n % 10) as nat == (n as nat) % 10);
        }
    }
}

/// `"Portal "` followed by the number in decimal, with a minus sign when negative.
fn portal_name(hash: i32) -> (r: String)
    ensures
        r@ == seq!['P', 'o', 'r', 't', 'a', 'l', ' '].add(decimal_text(hash as int)),
{
    proof {
        reveal_strlit("Portal ");
    }
    let mut name = String::from_str("Portal ");
    let magnitude: u64 = if hash < 0 {
        proof {
            reveal_strlit("-");
        }
        name.append("-");
        (0i64 - hash as i64) as u64
    } else {
        hash as u64
    };
    append_digits(&mut name, magnitude);
    proof {
        assert(seq!['P', 'o', 'r', 't', 'a', 'l', ' '] =~= "Portal "@);
        if hash < 0 {
            assert("-"@ =~= seq!['-']);
            assert(name@ =~= seq!['P', 'o', 'r', 't', 'a', 'l', ' '].add(decimal_text(hash as int)));
        } else {
            assert(name@ =~= seq!['P', 'o', 'r', 't', 'a', 'l', ' '].add(decimal_text(hash as int)));
        }
    }
    name
}

impl TeleportSettings {
    /// Settings of a portal that has no name yet: named after the cell, unpaired.
    pub fn unnamed(pos: Cell) -> (r: TeleportSettings)
        requires
            pos_hash_fits(pos),
        ensures
            r.name@ == seq!['P', 'o', 'r', 't', 'a', 'l', ' '].add(decimal_text(pos_hash_spec(pos))),
            r.pair is None,
    {
        let h = pos_hash(pos);
        TeleportSettings { name: portal_name(h), pair: None }
    }
}

} // verus!
