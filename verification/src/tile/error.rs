//! Why a tile is refused.
use crate::timeline::table;
use vstd::prelude::*;
use vstd::string::StringExecFns;

verus! {

/// Why a tile is refused.
#[derive(Clone, Copy, Debug, PartialEq, Eq, Structural)]
pub enum TileError {
    /// The frame is not a whole number of 64x64 superblocks.
    PartialSuperblocks,
    /// Not one DC level per coded block.
    DcLevelCount,
    /// A DC level the base and base-range syntax cannot carry.
    DcLevelRange,
    /// The frame has no mode-info units.
    NoGrid,
    /// Not one entry per superblock.
    SuperblockCount,
    /// Not one coefficient set per 32x32 block.
    BlockCount,
    /// Not one entry per 32x32 block of an inter frame.
    InterBlockCount,
    /// A luma mode a key frame does not code.
    KeyIntraMode(u8),
    /// A luma mode an inter frame does not code.
    InterIntraMode(u8),
    /// A whole superblock half outside a key frame.
    WholeSuperblockOutside,
    /// A whole superblock half outside an inter frame.
    WholeRootOutside,
    /// A whole superblock of an inter frame that is not coded inter.
    RootNotInter,
    /// A whole superblock that is a block of two references.
    RootPaired,
    /// Not one quadrant per quadrant inside the frame.
    QuadrantCount,
    /// A key frame's quadrant that stands for a whole superblock.
    KeyWhole64,
    /// An inter frame's quadrant that a whole superblock should have covered.
    StrayWhole64,
    /// A whole 32x32 block half outside the frame.
    WholeQuadrantOutside,
    /// Not one 16x16 block per block inside a key frame.
    SubBlockCount,
    /// Not one 16x16 block per block inside an inter frame.
    InterSubBlockCount,
    /// A key frame's 16x16 block across the edge without its leaves.
    EightMissing,
    /// An inter frame's 16x16 block across the edge without its leaves.
    InterEightMissing,
    /// Not one leaf per 8x8 block inside a key frame.
    EightCount,
    /// Not one leaf per 8x8 block inside an inter frame.
    InterEightCount,
    /// A split 16x16 block inside an inter frame without four leaves.
    InterSplitCount,
    /// A coefficient outside its transform.
    CoeffOutside,
    /// A level that is zero or wider than the Golomb tail reaches.
    CoeffLevel,
    /// Two coefficients at one position.
    CoeffRepeated,
    /// A 64x64 block's transform split finer than 32x32.
    LumaSplit,
    /// A block vector off the full-pel grid.
    DvPrecision,
    /// A motion vector off the quarter-pel grid.
    MvPrecision,
    /// A compound mode on a block of one reference.
    CompoundMode,
    /// A pair of references on one side that is not formed.
    CompoundPair,
    /// Two references without a compound mode.
    CompoundNeeds,
    /// The candidate vectors of the block at a unit row and column, of a side in
    /// samples, are not known yet.
    NeedsMotion(usize, usize, usize),
}

/// What is said of an error after the name of a mode, where it names one.
pub open spec fn sentence(e: TileError) -> Seq<char> {
    match e {
        TileError::PartialSuperblocks => "a key frame is written only for frames that are a whole number of 64x64 superblocks"@,
        TileError::DcLevelCount => "a DC-only key frame needs one level per coded block"@,
        TileError::DcLevelRange => "a DC-only key frame is written for levels -14..=14 without zero; wider levels need the Golomb tail"@,
        TileError::NoGrid => "a coefficient key frame needs a nonzero mode-info grid"@,
        TileError::SuperblockCount => "a coefficient key frame needs one entry per superblock"@,
        TileError::BlockCount => "a coefficient key frame needs one coefficient set per 32x32 block"@,
        TileError::InterBlockCount => "an inter frame needs one entry per 32x32 block inside the true frame"@,
        TileError::KeyIntraMode(_) => " is not one of the thirteen a key frame codes"@,
        TileError::InterIntraMode(_) => " is not one of the thirteen this writer codes"@,
        TileError::WholeSuperblockOutside => "a superblock that is half outside the frame cannot be left whole"@,
        TileError::WholeRootOutside => "a superblock that is half outside the true frame cannot be left whole"@,
        TileError::RootNotInter => "a 64x64 root block is coded inter"@,
        TileError::RootPaired => "a 64x64 root block has a single reference"@,
        TileError::QuadrantCount => "a split superblock needs one block per quadrant inside the frame"@,
        TileError::KeyWhole64 => "a key frame codes a 64x64 block as `Superblock::Whole`"@,
        TileError::StrayWhole64 => "a `Whole64`/`Covered` quadrant needs its superblock's top-left entry to be the `Whole64`"@,
        TileError::WholeQuadrantOutside => "a 32x32 block that is half outside the true frame cannot be left whole"@,
        TileError::SubBlockCount => "a split 32x32 block needs one 16x16 entry per sub-block inside the true frame"@,
        TileError::InterSubBlockCount => "a split 32x32 inter-frame block needs one 16x16 entry per sub-block inside the true frame"@,
        TileError::EightMissing => "a 16x16 block the true frame edge cuts through needs its `eight` leaves populated"@,
        TileError::InterEightMissing => "a 16x16 inter-frame block the true frame edge cuts through needs its `eight` leaves populated"@,
        TileError::EightCount => "a straddling 16x16 block needs one `eight` entry per 8x8 leaf inside the true frame"@,
        TileError::InterEightCount => "a straddling 16x16 inter-frame block needs one `eight` entry per 8x8 leaf inside the true frame"@,
        TileError::InterSplitCount => "a 16x16 inter-frame block inside the frame that splits needs all four 8x8 leaves"@,
        TileError::CoeffOutside => "a coefficient sits outside the transform of its plane"@,
        TileError::CoeffLevel => "coefficients are written for levels -524302..=524302 without zero"@,
        TileError::CoeffRepeated => "two coefficients of one block share a position"@,
        TileError::LumaSplit => "a 64x64 block's luma transform splits no finer than TX_32X32"@,
        TileError::DvPrecision => "a block vector is coded at full-pel precision only"@,
        TileError::MvPrecision => "a motion vector component needs eighth-pel precision, which allow_high_precision_mv off does not carry"@,
        TileError::CompoundMode => "a compound mode is written by `write_compound_block`, not here"@,
        TileError::CompoundPair => "a unidirectional compound pair this writer does not form"@,
        TileError::CompoundNeeds => "a compound block needs a second reference and a compound mode"@,
        TileError::NeedsMotion(_, _, _) => "the candidate vectors of the next block are not known"@,
    }
}

/// The text of an error.
pub open spec fn text(e: TileError) -> Seq<char> {
    match e {
        TileError::KeyIntraMode(mode) | TileError::InterIntraMode(mode) => "intra mode "@
            + table::decimal(mode as int) + sentence(e),
        _ => sentence(e),
    }
}

fn digit_str(d: u8) -> (s: &'static str)
    requires
        d < 10,
    ensures
        s@ == seq![table::digit(d as int)],
{
    proof {
        reveal_strlit("0");
        reveal_strlit("1");
        reveal_strlit("2");
        reveal_strlit("3");
        reveal_strlit("4");
        reveal_strlit("5");
        reveal_strlit("6");
        reveal_strlit("7");
        reveal_strlit("8");
        reveal_strlit("9");
    }
    match d {
        0 => "0",
        1 => "1",
        2 => "2",
        3 => "3",
        4 => "4",
        5 => "5",
        6 => "6",
        7 => "7",
        8 => "8",
        _ => "9",
    }
}

fn append_decimal(out: &mut String, n: u8)
    ensures
        final(out)@ == old(out)@ + table::decimal(n as int),
    decreases n,
{
    if n < 10 {
        out.append(digit_str(n));
    } else {
        append_decimal(out, n / 10);
        out.append(digit_str(n % 10));
        proof {
            assert(out@ =~= old(out)@ + table::decimal(n as int));
        }
    }
}

impl TileError {
    fn words(self) -> (s: &'static str)
        ensures
            s@ == sentence(self),
    {
        match self {
            TileError::PartialSuperblocks => "a key frame is written only for frames that are a whole number of 64x64 superblocks",
            TileError::DcLevelCount => "a DC-only key frame needs one level per coded block",
            TileError::DcLevelRange => "a DC-only key frame is written for levels -14..=14 without zero; wider levels need the Golomb tail",
            TileError::NoGrid => "a coefficient key frame needs a nonzero mode-info grid",
            TileError::SuperblockCount => "a coefficient key frame needs one entry per superblock",
            TileError::BlockCount => "a coefficient key frame needs one coefficient set per 32x32 block",
            TileError::InterBlockCount => "an inter frame needs one entry per 32x32 block inside the true frame",
            TileError::KeyIntraMode(_) => " is not one of the thirteen a key frame codes",
            TileError::InterIntraMode(_) => " is not one of the thirteen this writer codes",
            TileError::WholeSuperblockOutside => "a superblock that is half outside the frame cannot be left whole",
            TileError::WholeRootOutside => "a superblock that is half outside the true frame cannot be left whole",
            TileError::RootNotInter => "a 64x64 root block is coded inter",
            TileError::RootPaired => "a 64x64 root block has a single reference",
            TileError::QuadrantCount => "a split superblock needs one block per quadrant inside the frame",
            TileError::KeyWhole64 => "a key frame codes a 64x64 block as `Superblock::Whole`",
            TileError::StrayWhole64 => "a `Whole64`/`Covered` quadrant needs its superblock's top-left entry to be the `Whole64`",
            TileError::WholeQuadrantOutside => "a 32x32 block that is half outside the true frame cannot be left whole",
            TileError::SubBlockCount => "a split 32x32 block needs one 16x16 entry per sub-block inside the true frame",
            TileError::InterSubBlockCount => "a split 32x32 inter-frame block needs one 16x16 entry per sub-block inside the true frame",
            TileError::EightMissing => "a 16x16 block the true frame edge cuts through needs its `eight` leaves populated",
            TileError::InterEightMissing => "a 16x16 inter-frame block the true frame edge cuts through needs its `eight` leaves populated",
            TileError::EightCount => "a straddling 16x16 block needs one `eight` entry per 8x8 leaf inside the true frame",
            TileError::InterEightCount => "a straddling 16x16 inter-frame block needs one `eight` entry per 8x8 leaf inside the true frame",
            TileError::InterSplitCount => "a 16x16 inter-frame block inside the frame that splits needs all four 8x8 leaves",
            TileError::CoeffOutside => "a coefficient sits outside the transform of its plane",
            TileError::CoeffLevel => "coefficients are written for levels -524302..=524302 without zero",
            TileError::CoeffRepeated => "two coefficients of one block share a position",
            TileError::LumaSplit => "a 64x64 block's luma transform splits no finer than TX_32X32",
            TileError::DvPrecision => "a block vector is coded at full-pel precision only",
            TileError::MvPrecision => "a motion vector component needs eighth-pel precision, which allow_high_precision_mv off does not carry",
            TileError::CompoundMode => "a compound mode is written by `write_compound_block`, not here",
            TileError::CompoundPair => "a unidirectional compound pair this writer does not form",
            TileError::CompoundNeeds => "a compound block needs a second reference and a compound mode",
            TileError::NeedsMotion(_, _, _) => "the candidate vectors of the next block are not known",
        }
    }

    /// The error in words.
    pub fn message(self) -> (message: String)
        ensures
            message@ == text(self),
    {
        match self {
            TileError::KeyIntraMode(mode) | TileError::InterIntraMode(mode) => {
                let mut out = String::from_str("intra mode ");
                append_decimal(&mut out, mode);
                out.append(self.words());
                out
            },
            _ => String::from_str(self.words()),
        }
    }
}

} // verus!
