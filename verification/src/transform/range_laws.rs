//! How the two passes of an inverse transform are scaled and held to their ranges.
use crate::bits;
use crate::transform::adst;
use crate::transform::inverse;
use crate::transform::lane;
use crate::transform::tx_type;
use crate::transform::tx_type::TxType;
use vstd::prelude::*;

verus! {

/// The shift between the two passes goes by the number of coefficients: none up to 32, one
/// bit for 64, 128, 512 and 2048, and two for 256, 1024 and 4096.
pub proof fn shifts_go_by_area(w: int, h: int)
    requires
        inverse::is_tx_size(w, h),
    ensures
        inverse::spec_row_shift(w, h) == 0 <==> w * h <= 32,
        inverse::spec_row_shift(w, h) == 1 <==> w * h == 64 || w * h == 128 || w * h == 512 || w * h
            == 2048,
        inverse::spec_row_shift(w, h) == 2 <==> w * h == 256 || w * h == 1024 || w * h == 4096,
        inverse::spec_row_shift(w, h) == inverse::spec_row_shift(h, w),
{
}

/// A coefficient enters the first pass as it is, in a block twice as long as it is wide
/// times the square root of a half, to the nearest; and not at all past the first 32 of its
/// row or column.
pub proof fn coefficients_enter_scaled(dequant: Seq<i32>, w: int, h: int, i: int, j: int)
    requires
        -0x8_0000 <= inverse::coefficient(dequant, w, i, j) <= 0x8_0000,
    ensures
        ({
            let c = dequant[i * w + j] as int;
            let x = inverse::row_input_at(dequant, w, h, i, j) as int;
            &&& i >= 32 || j >= 32 ==> x == 0
            &&& i < 32 && j < 32 && w != 2 * h && h != 2 * w ==> x == c
            &&& i < 32 && j < 32 && (w == 2 * h || h == 2 * w) ==> -2048 <= 4096 * x - 2896 * c
                <= 2048
        }),
{
    reveal(bits::spec_round2);
    bits::lemma_pow2_values();
    assert(bits::pow2(12) == 4096 && bits::pow2(11) == 2048) by {
        reveal_with_fuel(bits::pow2, 13);
    }
}

/// What the first pass hands to the second is its output over two to the shift, to the
/// nearest, and held to 16 bits, or to six more than a sample has if those are more.
pub proof fn rows_are_held_to_their_range(
    dequant: Seq<i32>,
    w: int,
    h: int,
    bit_depth: int,
    tx: TxType,
    i: int,
    j: int,
)
    requires
        inverse::is_tx_size(w, h),
        8 <= bit_depth <= 12,
        0 <= j < w,
    ensures
        ({
            let out = inverse::row_output(dequant, w, h, bit_depth, tx, i)[j] as int;
            let v = inverse::spec_inverse_1d(
                inverse::row_input(dequant, w, h, i),
                bit_depth + 8,
                tx_type::row_kind(tx),
            )[j] as int;
            let top = if bit_depth <= 10 {
                0x8000int
            } else if bit_depth == 11 {
                0x1_0000
            } else {
                0x2_0000
            };
            let one = if inverse::spec_row_shift(w, h) == 0 {
                1int
            } else if inverse::spec_row_shift(w, h) == 1 {
                2
            } else {
                4
            };
            &&& -top <= out < top
            &&& -top < out < top - 1 ==> -one <= 2 * (one * out - v) <= one
            &&& out == top - 1 ==> v >= one * out - one
            &&& out == -top ==> v <= one * out + one
        }),
{
    reveal(bits::spec_round2);
    reveal(lane::spec_clamp_range);
    bits::lemma_pow2_values();
    assert(bits::pow2(15) == 0x8000 && bits::pow2(16) == 0x1_0000 && bits::pow2(17) == 0x2_0000) by {
        reveal_with_fuel(bits::pow2, 18);
    }
    assert(bits::pow2(0) == 1 && bits::pow2(1) == 2 && bits::pow2(2) == 4) by {
        reveal_with_fuel(bits::pow2, 3);
    }
}

/// A residual is a sixteenth of what the second pass gives, to the nearest, at the place
/// that the flips say.
pub proof fn residuals_are_sixteenths(
    dequant: Seq<i32>,
    w: int,
    h: int,
    bit_depth: int,
    tx: TxType,
    i: int,
    j: int,
)
    requires
        inverse::is_tx_size(w, h),
        0 <= i < h,
        0 <= j < w,
        !tx_type::flips_rows(tx),
        !tx_type::flips_columns(tx),
    ensures
        ({
            let out = inverse::spec_inverse_2d(dequant, w, h, bit_depth, tx)[i * w + j] as int;
            let v = inverse::spec_inverse_1d(
                Seq::new(
                    h as nat,
                    |k: int| inverse::row_output(dequant, w, h, bit_depth, tx, k)[j],
                ),
                if bit_depth > 10 {
                    bit_depth + 6
                } else {
                    16
                },
                tx_type::col_kind(tx),
            )[i] as int;
            -8 <= 16 * out - v <= 8
        }),
{
    inverse::lemma_grid_index(w, h, i, j);
    reveal(bits::spec_round2);
    bits::lemma_pow2_values();
    assert(bits::pow2(3) == 8 && bits::pow2(4) == 16) by {
        reveal_with_fuel(bits::pow2, 5);
    }
    assert(inverse::column_input(dequant, w, h, bit_depth, tx, j) =~= Seq::new(
        h as nat,
        |k: int| inverse::row_output(dequant, w, h, bit_depth, tx, k)[j],
    ));
}

/// The sums and differences inside a sine transform are held to the range of their pass, and
/// exact within it: the first of a pair becomes the sum and the second the difference.
pub proof fn sine_sums_are_held_to_their_range(t: Seq<i32>, d: int, r: int, i: int)
    requires
        1 <= r <= 32,
        d > 0,
        0 <= i < t.len(),
        (i / d) % 2 == 0,
        i + d < t.len(),
        ((i + d) / d) % 2 == 1,
    ensures
        ({
            let done = adst::adst_sums(t, d, r);
            let top = bits::pow2((r - 1) as nat);
            let (sum, diff) = (t[i] + t[i + d], t[i] - t[i + d]);
            &&& -top <= done[i] < top && -top <= done[i + d] < top
            &&& -top <= sum < top ==> done[i] == sum
            &&& -top <= diff < top ==> done[i + d] == diff
            &&& sum >= top ==> done[i] == top - 1
            &&& diff < -top ==> done[i + d] == -top
        }),
{
    reveal(lane::spec_clamp_range);
    bits::lemma_pow2_positive((r - 1) as nat);
    bits::lemma_pow2_monotonic((r - 1) as nat, 31);
    bits::lemma_pow2_values();
}

/// A gate of the cosine network holds its sums and differences to the range of its pass, and
/// is exact within it.
pub proof fn cosine_sums_are_held_to_their_range(a: i32, b: i32, r: int)
    requires
        1 <= r <= 31,
        -0x4000_0000 <= a < 0x4000_0000,
        -0x4000_0000 <= b < 0x4000_0000,
    ensures
        ({
            let top = bits::pow2((r - 1) as nat);
            let (s, d) = (lane::summed(a, b, r) as int, lane::differenced(a, b, r) as int);
            &&& -top <= s < top && -top <= d < top
            &&& -top <= a + b < top ==> s == a + b
            &&& -top <= a - b < top ==> d == a - b
            &&& a + b >= top ==> s == top - 1
            &&& a - b < -top ==> d == -top
        }),
{
    reveal(lane::spec_clamp_range);
    bits::lemma_pow2_positive((r - 1) as nat);
    bits::lemma_pow2_monotonic((r - 1) as nat, 31);
    bits::lemma_pow2_values();
}

} // verus!
