//! What a tile writer hands the entropy coder.
use vstd::prelude::*;

verus! {

/// Which transform blocks share one set of coefficient tables: the plane, the
/// transform's size, and for luma whether the block is predicted from another
/// frame.
#[derive(Clone, Copy, Debug, PartialEq, Eq, Structural)]
pub enum TxbSet {
    /// 4x4 luma of an intra block.
    Luma4,
    /// 8x8 luma of an intra block.
    Luma8,
    /// 16x16 luma of an intra block.
    Luma16,
    /// 32x32 luma of an intra block.
    Luma32,
    /// 64x64 luma.
    Luma64,
    /// 4x4 luma of an inter block.
    Luma4Inter,
    /// 8x8 luma of an inter block.
    Luma8Inter,
    /// 16x16 luma of an inter block.
    Luma16Inter,
    /// 32x32 luma of an inter block.
    Luma32Inter,
    /// 4x4 chroma.
    Chroma4,
    /// 8x8 chroma.
    Chroma8,
    /// 16x16 chroma.
    Chroma16,
    /// 32x32 chroma.
    Chroma32,
}

/// One table of a [`TxbSet`], with its context.
#[derive(Clone, Copy, Debug, PartialEq, Eq, Structural)]
pub enum TxbTable {
    /// The all-zero flag.
    Skip(usize),
    /// The transform type, by the row the block's mode picks.
    TxType(usize),
    /// The end-of-block group of a transform over both axes.
    EobPt,
    /// The end-of-block group of a transform over one axis.
    EobPtClass1,
    /// The top bit of the offset inside an end-of-block group.
    EobExtra(usize),
    /// The level of the last coded coefficient.
    BaseEob(usize),
    /// The level of any other coefficient.
    Base(usize),
    /// The base-range tail of a level.
    Br(usize),
    /// The sign of the DC.
    DcSign(usize),
}

/// One table of a motion vector component.
#[derive(Clone, Copy, Debug, PartialEq, Eq, Structural)]
pub enum MvTable {
    /// The component's sign.
    Sign,
    /// Its magnitude class.
    Class,
    /// The integer bit of class zero.
    Class0Bit,
    /// The fraction of class zero, by its integer bit.
    Class0Fr(usize),
    /// One integer bit of a wider class.
    Bit(usize),
    /// The fraction of a wider class.
    Fr,
}

/// The adaptive table a symbol is coded with, named with its contexts.
#[derive(Clone, Copy, Debug, PartialEq, Eq, Structural)]
pub enum Cdf {
    /// The partition of a 128x128 block.
    PartitionW128(usize),
    /// The partition of a 64x64 block.
    PartitionW64(usize),
    /// The partition of a 32x32 block.
    PartitionW32(usize),
    /// The partition of a 16x16 block.
    PartitionW16(usize),
    /// The partition of an 8x8 block.
    PartitionW8(usize),
    /// Whether a restoration unit is filtered.
    RestoreWiener,
    /// Whether a block carries no residual.
    Skip(usize),
    /// The step count of a quantizer change.
    DeltaQ,
    /// Whether an intra block is copied from its own frame.
    Intrabc,
    /// A key frame's luma mode, by the classes of the modes above and left.
    KfYMode(usize, usize),
    /// An inter frame's luma mode, by the block's size group.
    YMode(usize),
    /// The angle of a directional mode.
    AngleDelta(usize),
    /// The chroma mode of a block that chroma from luma is offered to.
    UvModeCfl(usize),
    /// The chroma mode of a block that it is not.
    UvModeNoCfl(usize),
    /// The joint sign of the chroma-from-luma scales.
    CflSign,
    /// The magnitude of one chroma-from-luma scale.
    CflAlpha(usize),
    /// Whether a block has a luma palette, by its size and its neighbours.
    PaletteYMode(usize, usize),
    /// The size of a luma palette.
    PaletteYSize(usize),
    /// Whether a block has a chroma palette.
    PaletteUvMode(usize),
    /// The size of a chroma palette.
    PaletteUvSize(usize),
    /// A luma colour index, by the palette's size less two and the context.
    PaletteYColorIndex(usize, usize),
    /// A chroma colour index.
    PaletteUvColorIndex(usize, usize),
    /// Whether a block is predicted by recursive filtering, by its side.
    FilterIntra(usize),
    /// Which of the five recursive filters.
    FilterIntraMode,
    /// How often an intra block's transform is halved, by the category of its
    /// largest transform and the context.
    TxSize(usize, usize),
    /// Whether an inter block's transform is halved.
    TxfmPartition(usize),
    /// Whether a block is predicted from another frame.
    IntraInter(usize),
    /// Whether an inter block has two references.
    CompMode(usize),
    /// Whether two references lie on different sides in time.
    CompRefType(usize),
    /// One bit of the name of a pair on the same side.
    UniCompRef(usize, usize),
    /// One bit of the forward reference's name of a pair on both sides.
    CompRef(usize, usize),
    /// One bit of the backward reference's name.
    CompBwdRef(usize, usize),
    /// One bit of a single reference's name.
    SingleRef(usize, usize),
    /// The mode of a block with two references.
    InterCompoundMode(usize),
    /// Whether a block does not code a new vector.
    NewMv(usize),
    /// Whether it does not take the global one.
    ZeroMv(usize),
    /// Whether it takes a candidate past the nearest.
    RefMv(usize),
    /// Whether the candidate index goes on.
    DrlMode(usize),
    /// Which components of a vector differ from the predicted one.
    MvJoint,
    /// One table of a vector's row (0) or column (1).
    Mv(usize, MvTable),
    /// The same two for a vector into the block's own frame.
    DvJoint,
    /// One table of such a vector's row (0) or column (1).
    Dv(usize, MvTable),
    /// Plain, overlapped or warped prediction, by the block's side.
    MotionMode(usize),
    /// Plain or overlapped prediction, by the block's side.
    Obmc(usize),
    /// One table of a transform block.
    Txb(TxbSet, TxbTable),
}

/// Which partition types' mass a flag at the frame edge gathers.
#[derive(Clone, Copy, Debug, PartialEq, Eq, Structural)]
pub enum Alike {
    /// The ones that cut the block from top to bottom, for a block whose
    /// lower half is outside the frame.
    Vert,
    /// The ones that cut it from side to side, for a block whose right half
    /// is outside.
    Horz,
}

/// The two passes of a restoration unit's Wiener filter, as the three taps
/// each codes.
#[derive(Clone, Copy, Debug, PartialEq, Eq)]
pub struct WienerInfo {
    /// The taps down the columns.
    pub vertical: [i8; 3],
    /// The taps along the rows.
    pub horizontal: [i8; 3],
}

/// A mark in the sequence that codes nothing: what a census of the writer's
/// decisions counts.
#[derive(Clone, Copy, Debug, PartialEq, Eq, Structural)]
pub enum Note {
    /// A 128x128 superblock root.
    Sb128Root,
    /// A block predicted by the recursive filter of this mode.
    FilterIntra(usize),
    /// A block copied from its own frame, by the bucket of its distance.
    Intrabc(usize),
    /// A coded motion mode, by its value and the block's size bucket.
    MotionMode(usize),
    /// A block of two references: its mode, the name of the second reference,
    /// its size bucket and whether it is 16x16 or smaller.
    Compound(usize, usize, usize, bool),
    /// A luma palette of this size.
    Palette(usize),
    /// A chroma palette of this size.
    PaletteUv(usize),
    /// A chroma base colour taken from the neighbours' cache.
    PaletteUvCache,
    /// A single reference's name.
    Ref(usize),
    /// A candidate index cut short at another vector than the one asked for.
    DrlClamp,
    /// A single-reference mode and the candidate index it coded.
    InterMode(usize, usize),
}

/// One thing the coder is told.
#[derive(Clone, Copy, Debug, PartialEq, Eq)]
pub enum Op {
    /// Code a symbol with a table, and adapt the table to it.
    Symbol {
        /// The table.
        cdf: Cdf,
        /// The symbol.
        value: usize,
    },
    /// Code a symbol with a table's initial state, and leave the table alone.
    Fixed {
        /// The table.
        cdf: Cdf,
        /// The symbol.
        value: usize,
    },
    /// Code a flag with the mass that a partition table gives one group of
    /// its types, and leave the table alone.
    Gathered {
        /// The partition table.
        cdf: Cdf,
        /// The group.
        alike: Alike,
        /// The flag.
        value: usize,
    },
    /// Code raw bits, the most significant first.
    Literal {
        /// The bits as a number.
        raw: u32,
        /// How many there are.
        bits: u32,
    },
    /// Code the taps of a filter against the ones coded before it.
    Wiener(WienerInfo),
    /// Code nothing.
    Note(Note),
}

/// One coded symbol.
pub open spec fn symbol(value: int, cdf: Cdf) -> Op {
    Op::Symbol { cdf, value: value as usize }
}

/// One symbol coded with a table's initial state.
pub open spec fn fixed(value: int, cdf: Cdf) -> Op {
    Op::Fixed { cdf, value: value as usize }
}

/// Raw bits.
pub open spec fn literal(value: int, bits: int) -> Op {
    Op::Literal { raw: value as u32, bits: bits as u32 }
}

/// One where `b` holds.
pub open spec fn flag(b: bool) -> int {
    if b {
        1
    } else {
        0
    }
}

/// One where `b` holds.
pub fn bit(b: bool) -> (r: usize)
    ensures
        r == flag(b),
{
    if b {
        1
    } else {
        0
    }
}

/// Codes a symbol.
pub fn put(out: &mut Vec<Op>, value: usize, cdf: Cdf)
    ensures
        final(out)@ == old(out)@.push(symbol(value as int, cdf)),
{
    out.push(Op::Symbol { cdf, value });
}

/// Codes raw bits.
pub fn put_literal(out: &mut Vec<Op>, value: u32, bits: u32)
    ensures
        final(out)@ == old(out)@.push(literal(value as int, bits as int)),
{
    out.push(Op::Literal { raw: value, bits });
}

/// Leaves a mark.
pub fn note(out: &mut Vec<Op>, mark: Note)
    ensures
        final(out)@ == old(out)@.push(Op::Note(mark)),
{
    out.push(Op::Note(mark));
}

/// The side of the coefficients a set's transforms code, which a 64-point
/// transform codes only the low half of.
pub open spec fn coeff_side(set: TxbSet) -> int {
    match set {
        TxbSet::Luma4 | TxbSet::Luma4Inter | TxbSet::Chroma4 => 4,
        TxbSet::Luma8 | TxbSet::Luma8Inter | TxbSet::Chroma8 => 8,
        TxbSet::Luma16 | TxbSet::Luma16Inter | TxbSet::Chroma16 => 16,
        _ => 32,
    }
}

impl TxbSet {
    /// The side of the coefficients its transforms code.
    pub fn side(self) -> (side: usize)
        ensures
            side == coeff_side(self),
    {
        match self {
            TxbSet::Luma4 | TxbSet::Luma4Inter | TxbSet::Chroma4 => 4,
            TxbSet::Luma8 | TxbSet::Luma8Inter | TxbSet::Chroma8 => 8,
            TxbSet::Luma16 | TxbSet::Luma16Inter | TxbSet::Chroma16 => 16,
            _ => 32,
        }
    }
}

} // verus!
