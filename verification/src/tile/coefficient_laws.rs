//! Which tables a transform block's symbols are coded with, and in which order.
use crate::tile::coeffs;
use crate::tile::coeffs::{TxbCoding, EOB_GROUP_START, EOB_LOW_BITS, EOB_TOP};
use crate::tile::context;
use crate::tile::ops;
use crate::tile::ops::{Cdf, TxbSet, TxbTable};
use crate::tile::scan;
use crate::tile::scan::TxClass;
use crate::tile::syntax_laws;
use crate::transform::tx_type::TxType;
use vstd::prelude::*;

verus! {

/// The positions after `start`, up to twice as many, fall into one group.
pub open spec fn is_in_group(eob: int, group: int, start: int) -> bool {
    group >= 0 && start < eob && eob <= 2 * start
}

/// The group of an end-of-block position: the first two positions have one each, and
/// from there on each group is twice as long as the one before.
pub proof fn positions_are_grouped_by_powers(eob: int)
    requires
        1 <= eob <= 1024,
    ensures
        ({
            let g = coeffs::eob_group(eob, 11);
            &&& g == 1 <==> eob == 1
            &&& g == 2 <==> eob == 2
            &&& g == 3 <==> is_in_group(eob, g, 2)
            &&& g == 4 <==> is_in_group(eob, g, 4)
            &&& g == 5 <==> is_in_group(eob, g, 8)
            &&& g == 6 <==> is_in_group(eob, g, 16)
            &&& g == 7 <==> is_in_group(eob, g, 32)
            &&& g == 8 <==> is_in_group(eob, g, 64)
            &&& g == 9 <==> is_in_group(eob, g, 128)
            &&& g == 10 <==> is_in_group(eob, g, 256)
            &&& g == 11 <==> is_in_group(eob, g, 512)
        }),
{
    reveal_with_fuel(coeffs::eob_group, 12);
}

/// An end-of-block position is coded as its group, in a table of its own for a
/// transform along one axis of up to 16 by 16; then whether it lies in the upper half
/// of the group, in the group's table; then the rest of it in as many bits as that
/// half asks for.
pub proof fn positions_are_coded_by_halves(set: TxbSet, eob: int, class: TxClass, half: int)
    requires
        1 <= eob <= 1024,
        half == 1 || half == 2 || half == 4 || half == 8 || half == 16 || half == 32 || half == 64
            || half == 128 || half == 256,
        eob >= 3 ==> 2 * half < eob && eob <= 4 * half,
    ensures
        ({
            let said = coeffs::eob_ops(set, eob, class);
            let g = coeffs::eob_group(eob, 11);
            let table = if class != TxClass::TwoD && ops::coeff_side(set) <= 16 {
                TxbTable::EobPtClass1
            } else {
                TxbTable::EobPt
            };
            &&& said[0] == ops::symbol(g - 1, Cdf::Txb(set, table))
            &&& eob <= 2 ==> said.len() == 1
            &&& eob >= 3 ==> said[1] == syntax_laws::told(
                eob > 3 * half,
                Cdf::Txb(set, TxbTable::EobExtra((g - 3) as usize)),
            )
            &&& eob >= 3 && half == 1 ==> said.len() == 2
            &&& eob >= 3 && half > 1 ==> said.len() == 3 && said[2] == ops::literal(
                if eob > 3 * half {
                    eob - 3 * half - 1
                } else {
                    eob - 2 * half - 1
                },
                g - 3,
            )
        }),
{
    positions_are_grouped_by_powers(eob);
    coeffs::eob_reads_back(eob);
    let g = coeffs::eob_group(eob, 11);
    if eob >= 3 {
        assert(EOB_TOP[3] == 1 && EOB_TOP[4] == 2 && EOB_TOP[5] == 4 && EOB_TOP[6] == 8
            && EOB_TOP[7] == 16 && EOB_TOP[8] == 32 && EOB_TOP[9] == 64 && EOB_TOP[10] == 128
            && EOB_TOP[11] == 256);
        assert(EOB_GROUP_START[3] == 3 && EOB_GROUP_START[4] == 5 && EOB_GROUP_START[5] == 9
            && EOB_GROUP_START[6] == 17 && EOB_GROUP_START[7] == 33 && EOB_GROUP_START[8] == 65
            && EOB_GROUP_START[9] == 129 && EOB_GROUP_START[10] == 257 && EOB_GROUP_START[11]
            == 513);
        assert(EOB_LOW_BITS[3] == 0 && EOB_LOW_BITS[4] == 1 && EOB_LOW_BITS[5] == 2
            && EOB_LOW_BITS[6] == 3 && EOB_LOW_BITS[7] == 4 && EOB_LOW_BITS[8] == 5
            && EOB_LOW_BITS[9] == 6 && EOB_LOW_BITS[10] == 7 && EOB_LOW_BITS[11] == 8);
        assert(EOB_TOP[g] == half && EOB_GROUP_START[g] == 2 * half + 1 && EOB_LOW_BITS[g] == g
            - 3);
        lemma_upper_half(eob - 2 * half - 1, half);
    } else {
        assert(EOB_TOP[1] == 0 && EOB_TOP[2] == 0);
    }
}

proof fn lemma_upper_half(offset: int, half: int)
    requires
        half > 0,
        0 <= offset < 2 * half,
    ensures
        offset / half == if offset >= half {
            1int
        } else {
            0
        },
        offset % half == if offset >= half {
            offset - half
        } else {
            offset
        },
{
    let q = if offset >= half {
        1int
    } else {
        0
    };
    vstd::arithmetic::div_mod::lemma_fundamental_div_mod_converse(
        offset,
        half,
        q,
        offset - q * half,
    );
}

/// A level is coded up to three in the table of its context; the last one, which is
/// not zero, one less and in the table of how far along the scan it is. From three on
/// follow up to four steps of up to three each in the tail's table: as many as the
/// level asks for, and all but the last of them whole.
pub proof fn levels_are_coded_in_their_contexts(
    set: TxbSet,
    grid: Seq<i32>,
    order: Seq<int>,
    class: TxClass,
    eob: int,
    i: int,
)
    ensures
        ({
            let said = coeffs::level_ops(set, grid, order, class, eob, i);
            let side = ops::coeff_side(set);
            let (row, col) = (order[i] / side, order[i] % side);
            let x = grid[order[i]] as int;
            let size = if x < 0 {
                -x
            } else {
                x
            };
            let capped = if size < 3 {
                size
            } else {
                3
            };
            let base = context::spec_base_ctx(grid, side, row, col, class) as usize;
            let tail = Cdf::Txb(
                set,
                TxbTable::Br(context::spec_br_ctx(grid, side, row, col, class) as usize),
            );
            let last = context::spec_eob_coeff_ctx(i, side * side) as usize;
            &&& i != eob - 1 ==> said[0] == ops::symbol(
                capped,
                Cdf::Txb(set, TxbTable::Base(base)),
            )
            &&& i == eob - 1 ==> said[0] == ops::symbol(
                capped - 1,
                Cdf::Txb(set, TxbTable::BaseEob(last)),
            )
            &&& size < 3 ==> said.len() == 1
            &&& 3 <= size < 6 ==> said.len() == 2 && said[1] == ops::symbol(size - 3, tail)
            &&& size >= 6 ==> said.len() >= 3 && said[1] == ops::symbol(3, tail)
            &&& 6 <= size < 9 ==> said.len() == 3 && said[2] == ops::symbol(size - 6, tail)
            &&& size >= 9 ==> said.len() >= 4 && said[2] == ops::symbol(3, tail)
            &&& 9 <= size < 12 ==> said.len() == 4 && said[3] == ops::symbol(size - 9, tail)
            &&& size >= 12 ==> said.len() == 5 && said[3] == ops::symbol(3, tail) && said[4]
                == ops::symbol(
                if size < 15 {
                    size - 12
                } else {
                    3
                },
                tail,
            )
        }),
{
    reveal(coeffs::level_ops);
}

/// A level's sign is coded in the DC's own table for the first place and as a bit for
/// any other; nothing for a zero. A level of 15 or more is followed by what is beyond
/// it.
pub proof fn signs_are_coded_by_place(set: TxbSet, level: int, pos: int, ctx: usize)
    ensures
        ({
            let said = coeffs::sign_ops(set, level, pos, ctx as int);
            &&& level == 0 ==> said.len() == 0
            &&& level != 0 && pos == 0 ==> said[0] == syntax_laws::told(
                level < 0,
                Cdf::Txb(set, TxbTable::DcSign(ctx)),
            )
            &&& level != 0 && pos != 0 ==> said[0] == ops::literal(
                if level < 0 {
                    1
                } else {
                    0
                },
                1,
            )
            &&& level != 0 && -15 < level < 15 ==> said.len() == 1
            &&& level >= 15 ==> said.skip(1) == crate::tile::golomb::golomb_ops(level - 15)
            &&& level <= -15 ==> said.skip(1) == crate::tile::golomb::golomb_ops(-level - 15)
        }),
{
    let said = coeffs::sign_ops(set, level, pos, ctx as int);
    if level >= 15 {
        assert(said.skip(1) =~= crate::tile::golomb::golomb_ops(level - 15));
    }
    if level <= -15 {
        assert(said.skip(1) =~= crate::tile::golomb::golomb_ops(-level - 15));
    }
}

/// Levels are coded from the last one of the scan to the first, and signs from the
/// first to the last.
pub proof fn levels_come_last_first_and_signs_first_first(
    set: TxbSet,
    grid: Seq<i32>,
    order: Seq<int>,
    class: TxClass,
    eob: int,
    ctx: int,
    i: int,
)
    requires
        0 <= i < eob,
    ensures
        ({
            let all = coeffs::magnitudes_ops(set, grid, order, class, eob, 0);
            let later = coeffs::magnitudes_ops(set, grid, order, class, eob, i + 1);
            let own = coeffs::level_ops(set, grid, order, class, eob, i);
            &&& later.len() + own.len() <= all.len()
            &&& all.subrange(later.len() as int, (later.len() + own.len()) as int) == own
        }),
        ({
            let all = coeffs::signs_ops(set, grid, order, ctx, eob);
            let before = coeffs::signs_ops(set, grid, order, ctx, i);
            let own = coeffs::sign_ops(set, grid[order[i]] as int, order[i], ctx);
            &&& before.len() + own.len() <= all.len()
            &&& all.subrange(before.len() as int, (before.len() + own.len()) as int) == own
        }),
{
    lemma_levels_before(set, grid, order, class, eob, 0, i);
    lemma_signs_after(set, grid, order, ctx, i + 1, eob);
    let later = coeffs::magnitudes_ops(set, grid, order, class, eob, i + 1);
    let own = coeffs::level_ops(set, grid, order, class, eob, i);
    let all = coeffs::magnitudes_ops(set, grid, order, class, eob, 0);
    let upto = coeffs::magnitudes_ops(set, grid, order, class, eob, i);
    assert(upto == later + own);
    assert(all.subrange(later.len() as int, (later.len() + own.len()) as int) =~= own) by {
        assert forall|k: int| 0 <= k < own.len() implies #[trigger] all[later.len() + k] == own[k] by {
            assert(all[later.len() + k] == upto[later.len() + k]);
        }
    }
    let before = coeffs::signs_ops(set, grid, order, ctx, i);
    let sign = coeffs::sign_ops(set, grid[order[i]] as int, order[i], ctx);
    let signs = coeffs::signs_ops(set, grid, order, ctx, eob);
    let sofar = coeffs::signs_ops(set, grid, order, ctx, i + 1);
    assert(sofar == before + sign);
    assert(signs.subrange(before.len() as int, (before.len() + sign.len()) as int) =~= sign) by {
        assert forall|k: int| 0 <= k < sign.len() implies #[trigger] signs[before.len() + k]
            == sign[k] by {
            assert(signs[before.len() + k] == sofar[before.len() + k]);
        }
    }
}

proof fn lemma_levels_before(
    set: TxbSet,
    grid: Seq<i32>,
    order: Seq<int>,
    class: TxClass,
    eob: int,
    from: int,
    to: int,
)
    requires
        from <= to <= eob,
    ensures
        ({
            let all = coeffs::magnitudes_ops(set, grid, order, class, eob, from);
            let part = coeffs::magnitudes_ops(set, grid, order, class, eob, to);
            &&& part.len() <= all.len()
            &&& forall|k: int| 0 <= k < part.len() ==> #[trigger] all[k] == part[k]
        }),
    decreases to - from,
{
    if from < to {
        lemma_levels_before(set, grid, order, class, eob, from + 1, to);
    }
}

proof fn lemma_signs_after(
    set: TxbSet,
    grid: Seq<i32>,
    order: Seq<int>,
    ctx: int,
    from: int,
    to: int,
)
    requires
        0 <= from <= to,
    ensures
        ({
            let all = coeffs::signs_ops(set, grid, order, ctx, to);
            let part = coeffs::signs_ops(set, grid, order, ctx, from);
            &&& part.len() <= all.len()
            &&& forall|k: int| 0 <= k < part.len() ==> #[trigger] all[k] == part[k]
        }),
    decreases to - from,
{
    if from < to {
        lemma_signs_after(set, grid, order, ctx, from, to - 1);
    }
}

/// The end of a block is just past its last level that is not zero, in the order of its
/// scan.
pub proof fn blocks_end_past_their_last_level(grid: Seq<i32>, order: Seq<int>, count: int)
    requires
        count >= 0,
    ensures
        ({
            let eob = coeffs::end_of_block(grid, order, count);
            &&& 0 <= eob <= count
            &&& eob > 0 ==> grid[order[eob - 1]] != 0
            &&& forall|k: int| eob <= k < count ==> grid[#[trigger] order[k]] == 0
        }),
    decreases count,
{
    if count > 0 {
        blocks_end_past_their_last_level(grid, order, count - 1);
    }
}

/// A transform block starts with whether it holds nothing, in the table of its context;
/// if it holds anything, its type follows where one is offered, in the table of the
/// block's mode, and then where it ends. A type that is not on offer reads as the second
/// of its set, which is the cosine transform of the intra sets.
pub proof fn blocks_start_with_their_flag_and_type(coding: TxbCoding, grid: Seq<i32>)
    ensures
        ({
            let side = ops::coeff_side(coding.set);
            let class = scan::class_of(coding.tx_type);
            let order = scan::scan_for(side, class);
            let eob = coeffs::end_of_block(grid, order, side * side);
            let said = coeffs::coeffs_ops(coding, grid);
            let end = coeffs::eob_ops(coding.set, eob, class);
            &&& said[0] == syntax_laws::told(
                eob == 0,
                Cdf::Txb(coding.set, TxbTable::Skip(coding.skip_ctx)),
            )
            &&& eob == 0 ==> said.len() == 1
            &&& eob > 0 && coeffs::tx_set(coding.set, coding.reduced) is None ==> said.len() > 1
                && said[1] == end[0]
            &&& eob > 0 ==> (coeffs::tx_set(coding.set, coding.reduced) matches Some(types) ==> {
                &&& said.len() > 2 && said[2] == end[0]
                &&& said[1] == ops::symbol(
                    coeffs::tx_symbol(types, coding.tx_type),
                    Cdf::Txb(coding.set, TxbTable::TxType(coding.mode)),
                )
            })
        }),
{
    let side = ops::coeff_side(coding.set);
    let class = scan::class_of(coding.tx_type);
    let order = scan::scan_for(side, class);
    blocks_end_past_their_last_level(grid, order, side * side);
}

/// A type's symbol is its place in the set.
pub proof fn types_are_coded_by_their_place(set: Seq<TxType>, i: int, k: int)
    requires
        0 <= k <= i < set.len(),
        forall|j: int| 0 <= j < i ==> #[trigger] set[j] != set[i],
    ensures
        coeffs::symbol_from(set, set[i], k) == Some(i),
        k == 0 ==> coeffs::tx_symbol(set, set[i]) == i,
    decreases i - k,
{
    if k < i {
        types_are_coded_by_their_place(set, i, k + 1);
    }
}

/// The classes of a type: along the columns alone for a name that starts with a V,
/// along the rows alone for an H, else both; and a scan goes along the rows of a
/// transform down the columns, and down the columns of one along the rows.
pub proof fn scans_go_across_the_axis(side: int, i: int)
    requires
        side > 0,
        0 <= i < side * side,
    ensures
        scan::scan_for(side, TxClass::Vert)[i] == i,
        ({
            let p = scan::scan_for(side, TxClass::Horiz)[i];
            &&& p / side == i % side
            &&& p % side == i / side
        }),
        scan::class_of(TxType::VDct) == TxClass::Vert,
        scan::class_of(TxType::VAdst) == TxClass::Vert,
        scan::class_of(TxType::VFlipAdst) == TxClass::Vert,
        scan::class_of(TxType::HDct) == TxClass::Horiz,
        scan::class_of(TxType::HAdst) == TxClass::Horiz,
        scan::class_of(TxType::HFlipAdst) == TxClass::Horiz,
        scan::class_of(TxType::Idtx) == TxClass::TwoD,
        scan::class_of(TxType::AdstDct) == TxClass::TwoD,
{
    crate::bits::lemma_floor_bounds(i, side);
    let (q, r) = (i / side, i % side);
    vstd::arithmetic::div_mod::lemma_mod_bound(i, side);
    assert(0 <= q < side) by (nonlinear_arith)
        requires
            side > 0,
            0 <= i < side * side,
            side * q <= i < side * q + side,
    ;
    vstd::arithmetic::div_mod::lemma_fundamental_div_mod_converse(r * side + q, side, r, q);
}

/// The default scan zigzags: it goes down to the left along every other diagonal, from the one
/// beside the first position on, and up to the right along the rest; each from its edge of
/// the transform.
pub proof fn the_default_scan_zigzags(side: int, d: int, j: int)
    requires
        side > 1,
        0 <= d < 2 * side - 1,
        0 <= j < scan::diagonal(side, d).len() - 1,
    ensures
        ({
            let line = scan::diagonal(side, d);
            &&& d % 2 == 1 ==> line[j + 1] - line[j] == side - 1
            &&& d % 2 == 0 ==> line[j + 1] - line[j] == 1 - side
            &&& d % 2 == 1 && d < side ==> line[0] == d
            &&& d % 2 == 1 && d >= side ==> line[0] == (d - side + 2) * side - 1
            &&& d % 2 == 0 && d < side ==> line[0] == d * side
            &&& d % 2 == 0 && d >= side ==> line[0] == side * (side - 1) + (d - side + 1)
            &&& line.len() == if d < side {
                d + 1
            } else {
                2 * side - 1 - d
            }
        }),
{
    let line = scan::diagonal(side, d);
    let (r, s) = (scan::row_at(side, d, j), scan::row_at(side, d, j + 1));
    assert((r + 1) * side == r * side + side) by (nonlinear_arith);
    assert((r - 1) * side == r * side - side) by (nonlinear_arith);
    let top = scan::first_row(side, d);
    let bottom = scan::last_row(side, d);
    assert((d - side + 2) * side == (d - side + 1) * side + side) by (nonlinear_arith);
    assert(side * (side - 1) == (side - 1) * side) by (nonlinear_arith);
    assert(0 * side == 0);
}

/// The default scan is its diagonals one after the other.
pub proof fn the_default_scan_goes_by_diagonals(side: int, d: int, j: int)
    requires
        side > 0,
        0 <= d < 2 * side - 1,
        0 <= j < scan::diagonal(side, d).len(),
    ensures
        scan::scan_for(side, TxClass::TwoD)[scan::diagonals(side, d).len() + j] == scan::diagonal(
            side,
            d,
        )[j],
        scan::diagonals(side, 0).len() == 0,
        scan::diagonals(side, d + 1).len() == scan::diagonals(side, d).len() + scan::diagonal(
            side,
            d,
        ).len(),
{
    lemma_diagonals_go_on(side, d + 1, 2 * side - 1);
    let k = scan::diagonals(side, d).len() + j;
    assert(scan::diagonals(side, d + 1)[k] == scan::diagonal(side, d)[j]);
}

proof fn lemma_diagonals_go_on(side: int, from: int, to: int)
    requires
        0 <= from <= to,
    ensures
        scan::diagonals(side, from).len() <= scan::diagonals(side, to).len(),
        forall|k: int|
            0 <= k < scan::diagonals(side, from).len() ==> #[trigger] scan::diagonals(side, to)[k]
                == scan::diagonals(side, from)[k],
    decreases to - from,
{
    if from < to {
        lemma_diagonals_go_on(side, from, to - 1);
    }
}

} // verus!
