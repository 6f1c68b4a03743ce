//! Which transform a block's rows and columns go through.
use vstd::prelude::*;

verus! {

/// One 1D transform family.
#[derive(Clone, Copy, PartialEq, Eq, Structural, Debug)]
pub enum TxType1d {
    /// The DCT.
    Dct,
    /// The ADST.
    Adst,
    /// A plain scale.
    Identity,
}

/// A 2D transform: the first half of each name is the transform down the
/// columns, the second the one along the rows.
#[derive(Clone, Copy, PartialEq, Eq, Structural, Debug)]
pub enum TxType {
    /// Identity on both axes.
    Idtx,
    /// DCT on both axes.
    DctDct,
    /// ADST on both axes.
    AdstAdst,
    /// ADST down the column axis, DCT across the row axis.
    AdstDct,
    /// DCT down the column axis, ADST across the row axis.
    DctAdst,
    /// DCT down the column axis, identity across the row axis.
    VDct,
    /// Identity down the column axis, DCT across the row axis.
    HDct,
    /// FLIPADST down the column axis, DCT across the row axis.
    FlipAdstDct,
    /// DCT down the column axis, FLIPADST across the row axis.
    DctFlipAdst,
    /// FLIPADST on both axes.
    FlipAdstFlipAdst,
    /// ADST down the column axis, FLIPADST across the row axis.
    AdstFlipAdst,
    /// FLIPADST down the column axis, ADST across the row axis.
    FlipAdstAdst,
    /// ADST down the column axis, identity across the row axis.
    VAdst,
    /// Identity down the column axis, ADST across the row axis.
    HAdst,
    /// FLIPADST down the column axis, identity across the row axis.
    VFlipAdst,
    /// Identity down the column axis, FLIPADST across the row axis.
    HFlipAdst,
}

/// The five types a small intra block chooses from under a reduced set, in
/// the order of their symbols.
pub open spec fn intra_set2() -> Seq<TxType> {
    seq![TxType::Idtx, TxType::DctDct, TxType::AdstAdst, TxType::AdstDct, TxType::DctAdst]
}

/// The seven types a small intra block chooses from, in the order of their
/// symbols.
pub open spec fn intra_set1() -> Seq<TxType> {
    seq![
        TxType::Idtx,
        TxType::DctDct,
        TxType::VDct,
        TxType::HDct,
        TxType::AdstAdst,
        TxType::AdstDct,
        TxType::DctAdst,
    ]
}

/// The twelve types a 16x16 inter block chooses from, in the order of their
/// symbols.
pub open spec fn inter_set2() -> Seq<TxType> {
    seq![
        TxType::Idtx,
        TxType::VDct,
        TxType::HDct,
        TxType::DctDct,
        TxType::AdstDct,
        TxType::DctAdst,
        TxType::FlipAdstDct,
        TxType::DctFlipAdst,
        TxType::AdstAdst,
        TxType::FlipAdstFlipAdst,
        TxType::AdstFlipAdst,
        TxType::FlipAdstAdst,
    ]
}

/// All sixteen types, which an inter block below 16x16 chooses from, in the
/// order of their symbols.
pub open spec fn inter_set1() -> Seq<TxType> {
    seq![
        TxType::Idtx,
        TxType::VDct,
        TxType::HDct,
        TxType::VAdst,
        TxType::HAdst,
        TxType::VFlipAdst,
        TxType::HFlipAdst,
        TxType::DctDct,
        TxType::AdstDct,
        TxType::DctAdst,
        TxType::FlipAdstDct,
        TxType::DctFlipAdst,
        TxType::AdstAdst,
        TxType::FlipAdstFlipAdst,
        TxType::AdstFlipAdst,
        TxType::FlipAdstAdst,
    ]
}

/// The entry of a set that symbol `t` stands for.
pub open spec fn member(set: Seq<TxType>, t: int) -> Option<TxType> {
    if 0 <= t < set.len() {
        Some(set[t])
    } else {
        None
    }
}

/// Whether this is a type whose 1D transform down the columns is read from
/// the other end.
#[verifier::opaque]
pub open spec fn flips_columns(tx: TxType) -> bool {
    tx == TxType::FlipAdstDct || tx == TxType::FlipAdstAdst || tx == TxType::VFlipAdst || tx
        == TxType::FlipAdstFlipAdst
}

/// Whether this is a type whose 1D transform along the rows is read from the
/// other end.
#[verifier::opaque]
pub open spec fn flips_rows(tx: TxType) -> bool {
    tx == TxType::DctFlipAdst || tx == TxType::AdstFlipAdst || tx == TxType::HFlipAdst || tx
        == TxType::FlipAdstFlipAdst
}

/// The transform along the rows; a flipped ADST is the ADST read backwards.
#[verifier::opaque]
pub open spec fn row_kind(tx: TxType) -> TxType1d {
    match tx {
        TxType::Idtx | TxType::VDct | TxType::VAdst | TxType::VFlipAdst => TxType1d::Identity,
        TxType::DctDct | TxType::AdstDct | TxType::HDct | TxType::FlipAdstDct => TxType1d::Dct,
        _ => TxType1d::Adst,
    }
}

/// The transform down the columns; a flipped ADST is the ADST read backwards.
#[verifier::opaque]
pub open spec fn col_kind(tx: TxType) -> TxType1d {
    match tx {
        TxType::Idtx | TxType::HDct | TxType::HAdst | TxType::HFlipAdst => TxType1d::Identity,
        TxType::DctDct | TxType::DctAdst | TxType::VDct | TxType::DctFlipAdst => TxType1d::Dct,
        _ => TxType1d::Adst,
    }
}

impl TxType {
    /// The type that a symbol of the reduced intra set stands for.
    pub fn from_symbol(t: usize) -> (r: Option<Self>)
        ensures
            r == member(intra_set2(), t as int),
    {
        match t {
            0 => Some(TxType::Idtx),
            1 => Some(TxType::DctDct),
            2 => Some(TxType::AdstAdst),
            3 => Some(TxType::AdstDct),
            4 => Some(TxType::DctAdst),
            _ => None,
        }
    }

    /// The type that a symbol of the seven-type intra set stands for.
    pub fn from_symbol_set1(t: usize) -> (r: Option<Self>)
        ensures
            r == member(intra_set1(), t as int),
    {
        match t {
            0 => Some(TxType::Idtx),
            1 => Some(TxType::DctDct),
            2 => Some(TxType::VDct),
            3 => Some(TxType::HDct),
            4 => Some(TxType::AdstAdst),
            5 => Some(TxType::AdstDct),
            6 => Some(TxType::DctAdst),
            _ => None,
        }
    }

    /// The type that a symbol of the twelve-type inter set stands for.
    pub fn from_symbol_set2_12(t: usize) -> (r: Option<Self>)
        ensures
            r == member(inter_set2(), t as int),
    {
        match t {
            0 => Some(TxType::Idtx),
            1 => Some(TxType::VDct),
            2 => Some(TxType::HDct),
            3 => Some(TxType::DctDct),
            4 => Some(TxType::AdstDct),
            5 => Some(TxType::DctAdst),
            6 => Some(TxType::FlipAdstDct),
            7 => Some(TxType::DctFlipAdst),
            8 => Some(TxType::AdstAdst),
            9 => Some(TxType::FlipAdstFlipAdst),
            10 => Some(TxType::AdstFlipAdst),
            11 => Some(TxType::FlipAdstAdst),
            _ => None,
        }
    }

    /// The type that a symbol of the full inter set stands for.
    pub fn from_symbol_all16(t: usize) -> (r: Option<Self>)
        ensures
            r == member(inter_set1(), t as int),
    {
        match t {
            0 => Some(TxType::Idtx),
            1 => Some(TxType::VDct),
            2 => Some(TxType::HDct),
            3 => Some(TxType::VAdst),
            4 => Some(TxType::HAdst),
            5 => Some(TxType::VFlipAdst),
            6 => Some(TxType::HFlipAdst),
            7 => Some(TxType::DctDct),
            8 => Some(TxType::AdstDct),
            9 => Some(TxType::DctAdst),
            10 => Some(TxType::FlipAdstDct),
            11 => Some(TxType::DctFlipAdst),
            12 => Some(TxType::AdstAdst),
            13 => Some(TxType::FlipAdstFlipAdst),
            14 => Some(TxType::AdstFlipAdst),
            15 => Some(TxType::FlipAdstAdst),
            _ => None,
        }
    }

    /// The transform along the rows and the one down the columns.
    pub fn axes(self) -> (kinds: (TxType1d, TxType1d))
        ensures
            kinds == (row_kind(self), col_kind(self)),
    {
        proof {
            reveal(row_kind);
            reveal(col_kind);
        }
        match self {
            TxType::Idtx => (TxType1d::Identity, TxType1d::Identity),
            TxType::DctDct => (TxType1d::Dct, TxType1d::Dct),
            TxType::AdstAdst => (TxType1d::Adst, TxType1d::Adst),
            TxType::AdstDct | TxType::FlipAdstDct => (TxType1d::Dct, TxType1d::Adst),
            TxType::DctAdst | TxType::DctFlipAdst => (TxType1d::Adst, TxType1d::Dct),
            TxType::VDct => (TxType1d::Identity, TxType1d::Dct),
            TxType::HDct => (TxType1d::Dct, TxType1d::Identity),
            TxType::FlipAdstFlipAdst | TxType::AdstFlipAdst | TxType::FlipAdstAdst => (
                TxType1d::Adst,
                TxType1d::Adst,
            ),
            TxType::VAdst | TxType::VFlipAdst => (TxType1d::Identity, TxType1d::Adst),
            TxType::HAdst | TxType::HFlipAdst => (TxType1d::Adst, TxType1d::Identity),
        }
    }

    /// Whether the residual is written bottom to top, and right to left.
    pub fn flip(self) -> (flips: (bool, bool))
        ensures
            flips == (flips_columns(self), flips_rows(self)),
    {
        proof {
            reveal(flips_columns);
            reveal(flips_rows);
        }
        match self {
            TxType::FlipAdstDct | TxType::FlipAdstAdst | TxType::VFlipAdst => (true, false),
            TxType::DctFlipAdst | TxType::AdstFlipAdst | TxType::HFlipAdst => (false, true),
            TxType::FlipAdstFlipAdst => (true, true),
            _ => (false, false),
        }
    }
}

/// No set names a type twice, so a symbol can be found again from its type.
pub proof fn symbols_are_unique(t: int, u: int)
    ensures
        member(intra_set2(), t) is Some && member(intra_set2(), t) == member(intra_set2(), u)
            ==> t == u,
        member(intra_set1(), t) is Some && member(intra_set1(), t) == member(intra_set1(), u)
            ==> t == u,
        member(inter_set2(), t) is Some && member(inter_set2(), t) == member(inter_set2(), u)
            ==> t == u,
        member(inter_set1(), t) is Some && member(inter_set1(), t) == member(inter_set1(), u)
            ==> t == u,
{
}

/// Only an ADST axis is ever flipped.
pub proof fn only_adst_axes_flip(tx: TxType)
    ensures
        flips_rows(tx) ==> row_kind(tx) == TxType1d::Adst,
        flips_columns(tx) ==> col_kind(tx) == TxType1d::Adst,
{
    reveal(row_kind);
    reveal(col_kind);
    reveal(flips_columns);
    reveal(flips_rows);
}

/// The type with its rows and columns exchanged.
pub open spec fn transposed(tx: TxType) -> TxType {
    match tx {
        TxType::AdstDct => TxType::DctAdst,
        TxType::DctAdst => TxType::AdstDct,
        TxType::VDct => TxType::HDct,
        TxType::HDct => TxType::VDct,
        TxType::FlipAdstDct => TxType::DctFlipAdst,
        TxType::DctFlipAdst => TxType::FlipAdstDct,
        TxType::AdstFlipAdst => TxType::FlipAdstAdst,
        TxType::FlipAdstAdst => TxType::AdstFlipAdst,
        TxType::VAdst => TxType::HAdst,
        TxType::HAdst => TxType::VAdst,
        TxType::VFlipAdst => TxType::HFlipAdst,
        TxType::HFlipAdst => TxType::VFlipAdst,
        _ => tx,
    }
}

/// A type is what its name says: the second half names the transform along the
/// rows and the first half the one down the columns, a V or an H alone leaves the
/// identity to the rows or to the columns, and an axis named as flipped is the
/// one that is read backwards.
pub proof fn types_are_what_their_names_say(tx: TxType)
    ensures
        row_kind(tx) == TxType1d::Dct <==> tx == TxType::DctDct || tx == TxType::AdstDct || tx
            == TxType::FlipAdstDct || tx == TxType::HDct,
        row_kind(tx) == TxType1d::Adst <==> tx == TxType::AdstAdst || tx == TxType::DctAdst || tx
            == TxType::FlipAdstAdst || tx == TxType::HAdst || tx == TxType::DctFlipAdst || tx
            == TxType::AdstFlipAdst || tx == TxType::FlipAdstFlipAdst || tx == TxType::HFlipAdst,
        row_kind(tx) == TxType1d::Identity <==> tx == TxType::Idtx || tx == TxType::VDct || tx
            == TxType::VAdst || tx == TxType::VFlipAdst,
        col_kind(tx) == TxType1d::Dct <==> tx == TxType::DctDct || tx == TxType::DctAdst || tx
            == TxType::DctFlipAdst || tx == TxType::VDct,
        col_kind(tx) == TxType1d::Adst <==> tx == TxType::AdstAdst || tx == TxType::AdstDct || tx
            == TxType::AdstFlipAdst || tx == TxType::VAdst || tx == TxType::FlipAdstDct || tx
            == TxType::FlipAdstAdst || tx == TxType::FlipAdstFlipAdst || tx == TxType::VFlipAdst,
        col_kind(tx) == TxType1d::Identity <==> tx == TxType::Idtx || tx == TxType::HDct || tx
            == TxType::HAdst || tx == TxType::HFlipAdst,
        flips_rows(tx) <==> tx == TxType::DctFlipAdst || tx == TxType::AdstFlipAdst || tx
            == TxType::FlipAdstFlipAdst || tx == TxType::HFlipAdst,
        flips_columns(tx) <==> tx == TxType::FlipAdstDct || tx == TxType::FlipAdstAdst || tx
            == TxType::FlipAdstFlipAdst || tx == TxType::VFlipAdst,
{
    reveal(row_kind);
    reveal(col_kind);
    reveal(flips_rows);
    reveal(flips_columns);
}

/// Exchanging rows and columns exchanges the transforms and the flips, and doing
/// so twice changes nothing; a type that is its own transpose treats both axes
/// alike.
pub proof fn transposed_types_exchange_their_axes(tx: TxType)
    ensures
        transposed(transposed(tx)) == tx,
        row_kind(transposed(tx)) == col_kind(tx),
        col_kind(transposed(tx)) == row_kind(tx),
        flips_rows(transposed(tx)) == flips_columns(tx),
        flips_columns(transposed(tx)) == flips_rows(tx),
        transposed(tx) == tx <==> row_kind(tx) == col_kind(tx) && flips_rows(tx)
            == flips_columns(tx),
{
    reveal(row_kind);
    reveal(col_kind);
    reveal(flips_rows);
    reveal(flips_columns);
}

/// A type is one kernel and one flip along each axis: no two types share both.
pub proof fn types_are_told_by_their_axes(a: TxType, b: TxType)
    requires
        row_kind(a) == row_kind(b),
        col_kind(a) == col_kind(b),
        flips_rows(a) == flips_rows(b),
        flips_columns(a) == flips_columns(b),
    ensures
        a == b,
{
    reveal(row_kind);
    reveal(col_kind);
    reveal(flips_rows);
    reveal(flips_columns);
}

/// Whether a type works along one axis alone, with a sine transform.
pub open spec fn is_lone_sine(tx: TxType) -> bool {
    tx == TxType::VAdst || tx == TxType::HAdst || tx == TxType::VFlipAdst || tx
        == TxType::HFlipAdst
}

/// Every type has its symbol in the full inter set; the twelve-type set is that
/// one without the sine transforms along one axis, in the same order; the reduced
/// intra set is the seven-type one without the cosine transforms along one axis,
/// in the same order. The identity comes first, and of a type and its transpose
/// the one named for the columns.
pub proof fn smaller_sets_keep_the_order(t: int)
    ensures
        0 <= t < 12 ==> member(inter_set2(), t) == member(
            inter_set1(),
            if t < 3 {
                t
            } else {
                t + 4
            },
        ),
        3 <= t < 7 <==> 0 <= t < 16 && is_lone_sine(inter_set1()[t]),
        0 <= t < 5 ==> member(intra_set2(), t) == member(
            intra_set1(),
            if t < 2 {
                t
            } else {
                t + 2
            },
        ),
        inter_set1()[0] == TxType::Idtx && inter_set1()[1] == TxType::VDct,
        inter_set1()[3] == TxType::VAdst && inter_set1()[5] == TxType::VFlipAdst,
        inter_set1()[7] == TxType::DctDct && inter_set1()[8] == TxType::AdstDct,
        inter_set1()[10] == TxType::FlipAdstDct && inter_set1()[12] == TxType::AdstAdst,
        inter_set1()[13] == TxType::FlipAdstFlipAdst && inter_set1()[14] == TxType::AdstFlipAdst,
        t == 1 || t == 3 || t == 5 || t == 8 || t == 10 || t == 14 ==> inter_set1()[t + 1]
            == transposed(inter_set1()[t]),
        intra_set1()[0] == TxType::Idtx && intra_set1()[1] == TxType::DctDct,
        intra_set1()[2] == TxType::VDct && intra_set1()[4] == TxType::AdstAdst,
        intra_set1()[5] == TxType::AdstDct,
        t == 2 || t == 5 ==> intra_set1()[t + 1] == transposed(intra_set1()[t]),
{
}

} // verus!
