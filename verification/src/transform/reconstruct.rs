//! From levels to residuals: dequantization and the inverse transform in one.
use crate::bits;
use crate::quant;
use crate::quant::dequant_wh;
use crate::transform::adst;
use crate::transform::dct;
use crate::transform::inverse;
use crate::transform::inverse::{
    inverse_transform_2d_typed, inverse_transform_2d_typed_wh, is_zero_grid, zero_vec,
};
use crate::transform::tx_type;
use crate::transform::tx_type::{TxType, TxType1d};
use vstd::prelude::*;

verus! {

/// The 2D inverse DCT of a square block.
pub fn inverse_transform_2d(dequant: &[i32], side: usize, bit_depth: u8) -> (out: Vec<i32>)
    requires
        inverse::is_side(side as int),
        dequant.len() == side * side,
        bit_depth <= 24,
    ensures
        out@ == inverse::spec_inverse_2d(
            dequant@,
            side as int,
            side as int,
            bit_depth as int,
            TxType::DctDct,
        ),
{
    proof {
        lemma_square_dct_is_computable(dequant@, side as int, bit_depth as int);
    }
    inverse_transform_2d_typed(dequant, side, bit_depth, TxType::DctDct)
}

/// No square DCT block overflows.
proof fn lemma_square_dct_is_computable(dequant: Seq<i32>, side: int, bit_depth: int)
    requires
        inverse::is_side(side),
        dequant.len() == side * side,
        bit_depth <= 24,
    ensures
        inverse::is_computable(dequant, side, side, bit_depth, TxType::DctDct),
        is_tx_block(side, side, TxType::DctDct),
{
    assert(tx_type::row_kind(TxType::DctDct) == TxType1d::Dct) by {
        reveal(tx_type::row_kind);
    }
    assert(tx_type::col_kind(TxType::DctDct) == TxType1d::Dct) by {
        reveal(tx_type::col_kind);
    }
    assert(inverse::is_defined(TxType1d::Dct, side));
    assert(inverse::is_tx_size(side, side));
    assert forall|i: int| 0 <= i < side implies inverse::row_is_computable(
        dequant,
        side,
        side,
        bit_depth,
        TxType::DctDct,
        i,
    ) by {}
}

/// A dequantized coefficient has room for the scale of a two-to-one block.
proof fn lemma_scaled(c: i32)
    requires
        -0x8_0000 <= c <= 0x8_0000,
    ensures
        adst::fits_i32(c * 2896),
        -0x8_0000 <= bits::spec_round2(c * 2896, 12) <= 0x8_0000,
{
    reveal(bits::spec_round2);
    bits::lemma_pow2_values();
}

/// Whether no level is anything but zero.
pub open spec fn all_zero(levels: Seq<i32>) -> bool {
    levels == dct::zeros(levels.len())
}

/// Whether a transform type is defined on a `w` by `h` block.
pub open spec fn is_tx_block(w: int, h: int, tx: TxType) -> bool {
    &&& inverse::is_tx_size(w, h)
    &&& inverse::is_defined(tx_type::row_kind(tx), w)
    &&& inverse::is_defined(tx_type::col_kind(tx), h)
}

/// Dequantized coefficients never overflow the inverse transform.
pub proof fn dequantized_blocks_are_computable(
    dequant: Seq<i32>,
    w: int,
    h: int,
    bit_depth: int,
    tx: TxType,
)
    requires
        is_tx_block(w, h, tx),
        dequant.len() == w * h,
        quant::is_bit_depth(bit_depth),
        adst::within(dequant, bits::pow2((bit_depth + 7) as nat)),
    ensures
        inverse::is_computable(dequant, w, h, bit_depth, tx),
{
    bits::lemma_pow2_monotonic((bit_depth + 7) as nat, 19);
    assert(bits::pow2(19) == 0x8_0000) by {
        reveal_with_fuel(bits::pow2, 20);
    }
    assert forall|i: int| 0 <= i < h && !(#[trigger] inverse::row_is_empty(
        dequant,
        w,
        i,
    )) implies inverse::row_is_computable(dequant, w, h, bit_depth, tx, i) by {
        lemma_row_is_computable(dequant, w, h, bit_depth, tx, i);
    }
}

proof fn lemma_row_is_computable(
    dequant: Seq<i32>,
    w: int,
    h: int,
    bit_depth: int,
    tx: TxType,
    i: int,
)
    requires
        is_tx_block(w, h, tx),
        dequant.len() == w * h,
        quant::is_bit_depth(bit_depth),
        adst::within(dequant, 0x8_0000),
        0 <= i < h,
    ensures
        inverse::row_is_computable(dequant, w, h, bit_depth, tx, i),
{
    assert forall|j: int| 0 <= j < w && j < 32 implies adst::fits_i32(
        #[trigger] inverse::coefficient(dequant, w, i, j) * 2896,
    ) by {
        inverse::lemma_grid_index(w, h, i, j);
        lemma_scaled(inverse::coefficient(dequant, w, i, j));
    }
    let line = inverse::row_input(dequant, w, h, i);
    assert forall|j: int| 0 <= j < line.len() implies -0x1000_0000 <= #[trigger] line[j]
        <= 0x1000_0000 by {
        if i < 32 && j < 32 {
            inverse::lemma_grid_index(w, h, i, j);
            lemma_scaled(inverse::coefficient(dequant, w, i, j));
        }
    }
    if tx_type::row_kind(tx) == TxType1d::Adst {
        adst::adst_of_29_bits_fits(line, inverse::row_clamp(bit_depth));
    }
}

/// The residual of a `w` by `h` grid of levels, nothing where they are all zero.
pub open spec fn sparse_residual(
    levels: Seq<i32>,
    w: int,
    h: int,
    bit_depth: int,
    q_idx: int,
    dc_delta: int,
    ac_delta: int,
    tx: TxType,
) -> Seq<i32> {
    if all_zero(levels) {
        Seq::empty()
    } else {
        inverse::spec_inverse_2d(
            quant::spec_dequant_wh(levels, w, h, bit_depth, q_idx, dc_delta, ac_delta),
            w,
            h,
            bit_depth,
            tx,
        )
    }
}

/// The residual of a square of levels, zeros where they are all zero.
pub open spec fn dense_residual(
    levels: Seq<i32>,
    side: int,
    bit_depth: int,
    q_idx: int,
    dc_delta: int,
    ac_delta: int,
    tx: TxType,
) -> Seq<i32> {
    if all_zero(levels) {
        dct::zeros((side * side) as nat)
    } else {
        inverse::spec_inverse_2d(
            quant::spec_dequant_wh(levels, side, side, bit_depth, q_idx, dc_delta, ac_delta),
            side,
            side,
            bit_depth,
            tx,
        )
    }
}

/// The dense residual always fills its block. It is the sparse one where that
/// holds anything, and zeros exactly where the sparse one is left empty, which
/// is where every level is zero.
pub proof fn the_dense_residual_fills_the_sparse_one(
    levels: Seq<i32>,
    side: int,
    bit_depth: int,
    q_idx: int,
    dc_delta: int,
    ac_delta: int,
    tx: TxType,
)
    requires
        inverse::is_side(side),
        levels.len() == side * side,
    ensures
        ({
            let dense = dense_residual(levels, side, bit_depth, q_idx, dc_delta, ac_delta, tx);
            let sparse = sparse_residual(
                levels,
                side,
                side,
                bit_depth,
                q_idx,
                dc_delta,
                ac_delta,
                tx,
            );
            &&& dense.len() == side * side
            &&& sparse.len() > 0 ==> dense == sparse
            &&& sparse.len() == 0 <==> all_zero(levels)
            &&& sparse.len() == 0 ==> dense == dct::zeros((side * side) as nat)
        }),
{
    assert(side * side >= 16) by (nonlinear_arith)
        requires
            side >= 4,
    ;
}

/// Dequantizes and inverse transforms one block.
///
/// Levels that are all zero come back as an empty residual, which stands for
/// a block of zeros.
pub fn dequant_and_inverse_typed_wh(
    levels: &[i32],
    w: usize,
    h: usize,
    bit_depth: u8,
    q_idx: i32,
    dc_delta: i32,
    ac_delta: i32,
    tx_type: TxType,
) -> (out: Vec<i32>)
    requires
        !all_zero(levels@) ==> {
            &&& is_tx_block(w as int, h as int, tx_type)
            &&& levels.len() == w * h
            &&& quant::is_bit_depth(bit_depth as int)
            &&& adst::fits_i32(q_idx + dc_delta)
            &&& adst::fits_i32(q_idx + ac_delta)
        },
    ensures
        out@ == sparse_residual(
            levels@,
            w as int,
            h as int,
            bit_depth as int,
            q_idx as int,
            dc_delta as int,
            ac_delta as int,
            tx_type,
        ),
{
    if is_zero_grid(levels) {
        return Vec::new();
    }
    let dq: Vec<i32> = dequant_wh(levels, w, h, bit_depth, q_idx, dc_delta, ac_delta);
    proof {
        quant::dequantized_grids_fit(
            levels@,
            w as int,
            h as int,
            bit_depth as int,
            q_idx as int,
            dc_delta as int,
            ac_delta as int,
        );
        dequantized_blocks_are_computable(dq@, w as int, h as int, bit_depth as int, tx_type);
    }
    inverse_transform_2d_typed_wh(dq.as_slice(), w, h, bit_depth, tx_type)
}

/// Dequantizes and inverse transforms one square block; levels that are all
/// zero come back as a block of zeros.
pub fn dequant_and_inverse_typed(
    levels: &[i32],
    side: usize,
    bit_depth: u8,
    q_idx: i32,
    dc_delta: i32,
    ac_delta: i32,
    tx_type: TxType,
) -> (out: Vec<i32>)
    requires
        side * side <= usize::MAX,
        !all_zero(levels@) ==> {
            &&& is_tx_block(side as int, side as int, tx_type)
            &&& levels.len() == side * side
            &&& quant::is_bit_depth(bit_depth as int)
            &&& adst::fits_i32(q_idx + dc_delta)
            &&& adst::fits_i32(q_idx + ac_delta)
        },
    ensures
        out@ == dense_residual(
            levels@,
            side as int,
            bit_depth as int,
            q_idx as int,
            dc_delta as int,
            ac_delta as int,
            tx_type,
        ),
        out.len() == side * side,
{
    let out: Vec<i32> = dequant_and_inverse_typed_wh(
        levels,
        side,
        side,
        bit_depth,
        q_idx,
        dc_delta,
        ac_delta,
        tx_type,
    );
    if out.len() == 0 {
        proof {
            if !all_zero(levels@) {
                assert(side * side >= 16) by (nonlinear_arith)
                    requires
                        side >= 4,
                ;
            }
        }
        zero_vec(side * side)
    } else {
        out
    }
}

/// Dequantizes and inverse transforms one square DCT block.
pub fn dequant_and_inverse(levels: &[i32], side: usize, bit_depth: u8, q_idx: i32) -> (out: Vec<
    i32,
>)
    requires
        side * side <= usize::MAX,
        !all_zero(levels@) ==> {
            &&& inverse::is_side(side as int)
            &&& levels.len() == side * side
            &&& quant::is_bit_depth(bit_depth as int)
        },
    ensures
        out@ == dense_residual(
            levels@,
            side as int,
            bit_depth as int,
            q_idx as int,
            0,
            0,
            TxType::DctDct,
        ),
        out.len() == side * side,
{
    proof {
        reveal(tx_type::row_kind);
        reveal(tx_type::col_kind);
    }
    dequant_and_inverse_typed(levels, side, bit_depth, q_idx, 0, 0, TxType::DctDct)
}

/// A block without coefficients has no residual, whatever its size and type.
pub proof fn inverse_2d_of_zeros_is_zeros(w: int, h: int, bit_depth: int, tx: TxType)
    requires
        inverse::is_tx_size(w, h),
        0 <= bit_depth <= 24,
    ensures
        inverse::spec_inverse_2d(dct::zeros((w * h) as nat), w, h, bit_depth, tx) == dct::zeros(
            (w * h) as nat,
        ),
{
    let z = dct::zeros((w * h) as nat);
    bits::lemma_round2_zero(4);
    assert(w * h > 0) by (nonlinear_arith)
        requires
            w >= 4,
            h >= 4,
    ;
    assert forall|j: int| 0 <= j < w implies #[trigger] inverse::column_output(z, w, h, bit_depth, tx, j)
        == dct::zeros(h as nat) by {
        let col = inverse::column_input(z, w, h, bit_depth, tx, j);
        assert forall|i: int| 0 <= i < h implies #[trigger] col[i] == 0 by {
            assert(inverse::row_is_empty(z, w, i)) by {
                assert forall|k: int| 0 <= k < w && k < 32 implies #[trigger] inverse::coefficient(
                    z,
                    w,
                    i,
                    k,
                ) == 0 by {
                    inverse::lemma_grid_index(w, h, i, k);
                }
            }
            inverse::lemma_empty_row(z, w, h, bit_depth, tx, i);
            let line = inverse::row_output(z, w, h, bit_depth, tx, i);
            assert(col[i] == line[j]);
        }
        assert(col =~= dct::zeros(h as nat));
        inverse::inverse_1d_of_zeros_is_zeros(h, inverse::col_clamp(bit_depth), tx_type::col_kind(tx));
    }
    let out = inverse::spec_inverse_2d(z, w, h, bit_depth, tx);
    assert forall|p: int| 0 <= p < w * h implies #[trigger] out[p] == 0 by {
        let (i, j) = (p / w, p % w);
        bits::lemma_floor_bounds(p, w);
        assert(0 <= i < h) by (nonlinear_arith)
            requires
                w > 0,
                0 <= p < w * h,
                w * i <= p < w * i + w,
        ;
        vstd::arithmetic::div_mod::lemma_mod_bound(p, w);
        let src_col = if tx_type::flips_rows(tx) {
            w - 1 - j
        } else {
            j
        };
        assert(inverse::column_output(z, w, h, bit_depth, tx, src_col) == dct::zeros(h as nat));
    }
    assert(out =~= z);
}

/// The type with the same kernels and no axis flipped.
#[verifier::opaque]
pub open spec fn unflipped(tx: TxType) -> TxType {
    match tx {
        TxType::FlipAdstDct => TxType::AdstDct,
        TxType::DctFlipAdst => TxType::DctAdst,
        TxType::FlipAdstFlipAdst | TxType::AdstFlipAdst | TxType::FlipAdstAdst => TxType::AdstAdst,
        TxType::VFlipAdst => TxType::VAdst,
        TxType::HFlipAdst => TxType::HAdst,
        _ => tx,
    }
}

/// A flipped transform is the plain one's residual, mirrored along the
/// flipped axes.
pub proof fn flipping_mirrors_the_residual(
    dequant: Seq<i32>,
    w: int,
    h: int,
    bit_depth: int,
    tx: TxType,
    i: int,
    j: int,
)
    requires
        inverse::is_tx_size(w, h),
        0 <= i < h,
        0 <= j < w,
    ensures
        inverse::residual_at(dequant, w, h, bit_depth, tx, i, j) == inverse::residual_at(
            dequant,
            w,
            h,
            bit_depth,
            unflipped(tx),
            if tx_type::flips_columns(tx) {
                h - 1 - i
            } else {
                i
            },
            if tx_type::flips_rows(tx) {
                w - 1 - j
            } else {
                j
            },
        ),
        ({
            let from = if tx_type::flips_columns(tx) {
                h - 1 - i
            } else {
                i
            };
            let to = if tx_type::flips_rows(tx) {
                w - 1 - j
            } else {
                j
            };
            inverse::spec_inverse_2d(dequant, w, h, bit_depth, tx)[i * w + j]
                == inverse::spec_inverse_2d(dequant, w, h, bit_depth, unflipped(tx))[from * w
                + to]
        }),
{
    let plain = unflipped(tx);
    lemma_unflipped(tx);
    inverse::lemma_grid_index(w, h, i, j);
    inverse::lemma_grid_index(
        w,
        h,
        if tx_type::flips_columns(tx) {
            h - 1 - i
        } else {
            i
        },
        if tx_type::flips_rows(tx) {
            w - 1 - j
        } else {
            j
        },
    );
    let src_col = if tx_type::flips_rows(tx) {
        w - 1 - j
    } else {
        j
    };
    assert(inverse::column_input(dequant, w, h, bit_depth, tx, src_col) =~= inverse::column_input(
        dequant,
        w,
        h,
        bit_depth,
        plain,
        src_col,
    ));
}

/// The three flips of a sine transform: one over the columns reads the plain
/// type's residual from the bottom up, one over the rows from right to left, and
/// both together the other way round.
pub proof fn flipped_sines_read_backwards(
    dequant: Seq<i32>,
    w: int,
    h: int,
    bit_depth: int,
    i: int,
    j: int,
)
    requires
        inverse::is_tx_size(w, h),
        0 <= i < h,
        0 <= j < w,
    ensures
        inverse::spec_inverse_2d(dequant, w, h, bit_depth, TxType::FlipAdstDct)[(h - 1 - i) * w
            + j] == inverse::spec_inverse_2d(dequant, w, h, bit_depth, TxType::AdstDct)[i * w + j],
        inverse::spec_inverse_2d(dequant, w, h, bit_depth, TxType::DctFlipAdst)[i * w + (w - 1
            - j)] == inverse::spec_inverse_2d(dequant, w, h, bit_depth, TxType::DctAdst)[i * w
            + j],
        inverse::spec_inverse_2d(dequant, w, h, bit_depth, TxType::FlipAdstFlipAdst)[(h - 1 - i)
            * w + (w - 1 - j)] == inverse::spec_inverse_2d(
            dequant,
            w,
            h,
            bit_depth,
            TxType::AdstAdst,
        )[i * w + j],
{
    reveal(unflipped);
    reveal(tx_type::flips_rows);
    reveal(tx_type::flips_columns);
    flipping_mirrors_the_residual(dequant, w, h, bit_depth, TxType::FlipAdstDct, h - 1 - i, j);
    flipping_mirrors_the_residual(dequant, w, h, bit_depth, TxType::DctFlipAdst, i, w - 1 - j);
    flipping_mirrors_the_residual(
        dequant,
        w,
        h,
        bit_depth,
        TxType::FlipAdstFlipAdst,
        h - 1 - i,
        w - 1 - j,
    );
}

/// An unflipped type has the same kernels, and flips nothing.
proof fn lemma_unflipped(tx: TxType)
    ensures
        tx_type::row_kind(unflipped(tx)) == tx_type::row_kind(tx),
        tx_type::col_kind(unflipped(tx)) == tx_type::col_kind(tx),
        !tx_type::flips_rows(unflipped(tx)),
        !tx_type::flips_columns(unflipped(tx)),
{
    reveal(unflipped);
    reveal(tx_type::row_kind);
    reveal(tx_type::col_kind);
    reveal(tx_type::flips_rows);
    reveal(tx_type::flips_columns);
}

/// Only the top-left 32 by 32 coefficients of a block count: two blocks that
/// agree there have one residual.
pub proof fn only_the_coded_corner_counts(
    a: Seq<i32>,
    b: Seq<i32>,
    w: int,
    h: int,
    bit_depth: int,
    tx: TxType,
)
    requires
        inverse::is_tx_size(w, h),
        forall|i: int, j: int|
            0 <= i < h && 0 <= j < w && i < 32 && j < 32 ==> #[trigger] inverse::coefficient(
                a,
                w,
                i,
                j,
            ) == inverse::coefficient(b, w, i, j),
    ensures
        inverse::spec_inverse_2d(a, w, h, bit_depth, tx) == inverse::spec_inverse_2d(
            b,
            w,
            h,
            bit_depth,
            tx,
        ),
{
    assert forall|i: int| 0 <= i < h implies #[trigger] inverse::row_output(
        a,
        w,
        h,
        bit_depth,
        tx,
        i,
    ) == inverse::row_output(b, w, h, bit_depth, tx, i) by {
        assert(inverse::row_input(a, w, h, i) =~= inverse::row_input(b, w, h, i));
    }
    assert forall|j: int| #[trigger] inverse::column_output(a, w, h, bit_depth, tx, j)
        == inverse::column_output(b, w, h, bit_depth, tx, j) by {
        assert(inverse::column_input(a, w, h, bit_depth, tx, j) =~= inverse::column_input(
            b,
            w,
            h,
            bit_depth,
            tx,
            j,
        ));
    }
    assert(inverse::spec_inverse_2d(a, w, h, bit_depth, tx) =~= inverse::spec_inverse_2d(
        b,
        w,
        h,
        bit_depth,
        tx,
    ));
}

} // verus!
