//! What a fitted model and its shears satisfy.
use crate::bits;
use crate::warp::affine;
use crate::warp::model;
use crate::warp::model::{Normal, DIV_LUT};
use crate::warp::samples;
use crate::warp::samples::Sample;
use vstd::prelude::*;

verus! {

/// The model takes the block's centre where the block's own vector does, in each
/// direction in which the translation is not held to its range; where it is, the
/// centre falls short.
pub proof fn models_take_the_centre_along(
    n: Normal,
    bw: int,
    bh: int,
    mvx: int,
    mvy: int,
    mi_row: int,
    mi_col: int,
)
    requires
        bw >= 0,
        bh >= 0,
    ensures
        ({
            let w0 = affine::model_entry(n, bw, bh, mvx, mvy, mi_row, mi_col, 0);
            let w1 = affine::model_entry(n, bw, bh, mvx, mvy, mi_row, mi_col, 1);
            let w2 = affine::model_entry(n, bw, bh, mvx, mvy, mi_row, mi_col, 2);
            let w3 = affine::model_entry(n, bw, bh, mvx, mvy, mi_row, mi_col, 3);
            let w4 = affine::model_entry(n, bw, bh, mvx, mvy, mi_row, mi_col, 4);
            let w5 = affine::model_entry(n, bw, bh, mvx, mvy, mi_row, mi_col, 5);
            let cx = 4 * mi_col + bw / 2 - 1;
            let cy = 4 * mi_row + bh / 2 - 1;
            let x = w0 + w2 * cx + w3 * cy;
            let y = w1 + w4 * cx + w5 * cy;
            &&& -0x80_0000 < w0 < 0x7f_ffff ==> x == 65536 * cx + 8192 * mvx
            &&& -0x80_0000 < w1 < 0x7f_ffff ==> y == 65536 * cy + 8192 * mvy
            &&& w0 == 0x7f_ffff ==> x <= 65536 * cx + 8192 * mvx
            &&& w0 == -0x80_0000 ==> x >= 65536 * cx + 8192 * mvx
            &&& w1 == 0x7f_ffff ==> y <= 65536 * cy + 8192 * mvy
            &&& w1 == -0x80_0000 ==> y >= 65536 * cy + 8192 * mvy
            &&& -0x80_0000 <= w0 <= 0x7f_ffff && -0x80_0000 <= w1 <= 0x7f_ffff
        }),
{
    let cx = 4 * mi_col + bw / 2 - 1;
    let cy = 4 * mi_row + bh / 2 - 1;
    let w2 = affine::linear(n, 2);
    let w5 = affine::linear(n, 5);
    lemma_less(cx, w2);
    lemma_less(cy, w5);
    assert(cx * affine::linear(n, 4) == affine::linear(n, 4) * cx) by (nonlinear_arith);
    assert(cy * affine::linear(n, 3) == affine::linear(n, 3) * cy) by (nonlinear_arith);
}

proof fn lemma_less(c: int, w: int)
    ensures
        c * (w - 65536) == w * c - 65536 * c,
{
    assert(c * (w - 65536) == w * c - 65536 * c) by (nonlinear_arith);
}

/// The numerators over the determinant solve the normal equations.
pub proof fn numerators_solve_the_normal_equations(n: Normal)
    ensures
        ({
            let det = n.a00 * n.a11 - n.a01 * n.a01;
            let (x0, x1) = (affine::numerator(n, 2), affine::numerator(n, 3));
            let (y0, y1) = (affine::numerator(n, 4), affine::numerator(n, 5));
            &&& affine::determinant(n) == det
            &&& n.a00 * x0 + n.a01 * x1 == det * n.bx0
            &&& n.a01 * x0 + n.a11 * x1 == det * n.bx1
            &&& n.a00 * y0 + n.a01 * y1 == det * n.by0
            &&& n.a01 * y0 + n.a11 * y1 == det * n.by1
        }),
{
    lemma_solution(n.a00 as int, n.a01 as int, n.a11 as int, n.bx0 as int, n.bx1 as int);
    lemma_solution(n.a00 as int, n.a01 as int, n.a11 as int, n.by0 as int, n.by1 as int);
}

proof fn lemma_solution(a: int, b: int, c: int, p: int, q: int)
    ensures
        a * (c * p - b * q) + b * (a * q - b * p) == (a * c - b * b) * p,
        b * (c * p - b * q) + c * (a * q - b * p) == (a * c - b * b) * q,
{
    assert(a * (c * p - b * q) + b * (a * q - b * p) == (a * c - b * b) * p) by (nonlinear_arith);
    assert(b * (c * p - b * q) + c * (a * q - b * p) == (a * c - b * b) * q) by (nonlinear_arith);
}

/// A number as often as a small count.
spec fn times(x: int, a: int) -> int {
    if a == 0 {
        0
    } else if a == 1 {
        1 * x
    } else if a == 2 {
        2 * x
    } else if a == 3 {
        3 * x
    } else if a == 4 {
        4 * x
    } else if a == 5 {
        5 * x
    } else if a == 6 {
        6 * x
    } else if a == 7 {
        7 * x
    } else if a == 8 {
        8 * x
    } else if a == 9 {
        9 * x
    } else if a == 10 {
        10 * x
    } else if a == 11 {
        11 * x
    } else if a == 12 {
        12 * x
    } else if a == 13 {
        13 * x
    } else if a == 14 {
        14 * x
    } else if a == 15 {
        15 * x
    } else {
        16 * x
    }
}

proof fn lemma_times(x: int, a: int)
    requires
        0 <= a <= 16,
    ensures
        times(x, a) == x * a,
    decreases a,
{
    if a > 0 {
        lemma_times(x, a - 1);
        assert(x * a == x * (a - 1) + x) by (nonlinear_arith);
    }
}

/// What the table holds, entry by entry.
#[verifier::rlimit(60)]
proof fn lemma_table()
    ensures
        forall|k: int|
            0 <= k <= 256 ==> -256 <= 256 * (#[trigger] DIV_LUT[k]) + 16 * times(
                DIV_LUT[k] as int,
                k / 16,
            ) + times(DIV_LUT[k] as int, k % 16) - 0x40_0000 <= 256,
{
}

/// The reciprocals are rounded to the nearest.
proof fn lemma_reciprocals(x: int, i: int)
    requires
        0 <= i <= 256,
        x == DIV_LUT[i],
    ensures
        -256 <= x * (256 + i) - 0x40_0000 <= 256,
        8192 <= x <= 16384,
{
    lemma_table();
    model::lemma_lut_range();
    lemma_rejoined(x, i);
}

proof fn lemma_rejoined(x: int, i: int)
    requires
        0 <= i <= 256,
    ensures
        x * (256 + i) == 256 * x + 16 * times(x, i / 16) + times(x, i % 16),
{
    lemma_times(x, i / 16);
    lemma_times(x, i % 16);
    assert(x * (256 + i) == 256 * x + 16 * (x * (i / 16)) + x * (i % 16)) by (nonlinear_arith)
        requires
            i == 16 * (i / 16) + i % 16,
    ;
}

/// Dividing by way of the reciprocal of `d` is within a 256th of dividing by it:
/// `d` times the multiplier is `2^shift` to within a 256th of it.
pub proof fn reciprocals_are_within_a_256th(d: int)
    requires
        exists|m: int| model::is_msb(d, m),
    ensures
        ({
            let (y, shift) = affine::divisor(d);
            let one = bits::pow2(shift as nat);
            &&& shift >= 14
            &&& -one <= 256 * (y * d - one) <= one
            &&& 8192 <= y <= 16384
        }),
{
    let m = choose|m: int| model::is_msb(d, m);
    let f = model::divisor_fraction(d, m);
    let y = DIV_LUT[f] as int;
    model::lemma_divisor_fraction(d, m);
    lemma_reciprocals(y, f);
    let p = bits::pow2(m as nat);
    bits::lemma_pow2_positive(m as nat);
    bits::lemma_pow2_add(m as nat, 14);
    bits::lemma_pow2_values();
    assert(bits::pow2(m as nat + 1) == 2 * p);
    let one = bits::pow2((m + 14) as nat);
    assert(one == 16384 * p);
    let e = d - p;
    if m > 8 {
        let n = (m - 8) as nat;
        let h = bits::pow2((n - 1) as nat);
        bits::lemma_pow2_positive((n - 1) as nat);
        bits::lemma_pow2_add(8, n);
        assert(bits::pow2(n) == 2 * h);
        assert(p == 512 * h);
        assert(f == (e + h) / (2 * h)) by {
            reveal(bits::spec_round2);
        }
        bits::lemma_floor_bounds(e + h, 2 * h);
        lemma_near_reciprocal(y, f, d, h);
    } else {
        let q = bits::pow2((8 - m) as nat);
        bits::lemma_pow2_positive((8 - m) as nat);
        bits::lemma_pow2_add(m as nat, (8 - m) as nat);
        assert(p * q == 256);
        assert(f == e * q);
        lemma_exact_reciprocal(y, f, d, p, q);
    }
}

proof fn lemma_near_reciprocal(y: int, f: int, d: int, h: int)
    requires
        h > 0,
        0 <= f <= 256,
        8192 <= y <= 16384,
        -256 <= y * (256 + f) - 0x40_0000 <= 256,
        2 * h * f <= d - 512 * h + h < 2 * h * f + 2 * h,
    ensures
        -(16384 * (512 * h)) <= 256 * (y * d - 16384 * (512 * h)) <= 16384 * (512 * h),
{
    let g = d - 2 * h * (256 + f);
    assert(2 * h * (256 + f) == 512 * h + 2 * h * f) by (nonlinear_arith);
    assert(-h <= g <= h);
    let z = y * (256 + f);
    assert(y * d == 2 * h * z + y * g) by (nonlinear_arith)
        requires
            d == 2 * h * (256 + f) + g,
            z == y * (256 + f),
    ;
    assert(-512 * h <= 2 * h * z - 0x80_0000 * h <= 512 * h) by (nonlinear_arith)
        requires
            h > 0,
            -256 <= z - 0x40_0000 <= 256,
    ;
    assert(-16384 * h <= y * g <= 16384 * h) by (nonlinear_arith)
        requires
            -h <= g <= h,
            0 <= y <= 16384,
            h > 0,
    ;
}

proof fn lemma_exact_reciprocal(y: int, f: int, d: int, p: int, q: int)
    requires
        p > 0,
        q > 0,
        p * q == 256,
        f == (d - p) * q,
        -256 <= y * (256 + f) - 0x40_0000 <= 256,
    ensures
        -(16384 * p) <= 256 * (y * d - 16384 * p) <= 16384 * p,
{
    let g = y * d - 16384 * p;
    assert(q * g == y * (256 + f) - 0x40_0000) by (nonlinear_arith)
        requires
            p * q == 256,
            f == (d - p) * q,
            g == y * d - 16384 * p,
    ;
    assert(-(16384 * p) <= 256 * g <= 16384 * p) by (nonlinear_arith)
        requires
            p > 0,
            q > 0,
            p * q == 256,
            -256 <= q * g <= 256,
    ;
}

/// The terms of the normal equations are a quarter of the product of the two
/// distances, each taken half a sample further, and four more for a distance and
/// its own counterpart; rounded down.
pub proof fn terms_are_products_of_distances(a: int, b: int)
    ensures
        ({
            let both = (a + 4) * (b + 4);
            &&& 4 * model::spec_ls_product1(a, b) <= both < 4 * model::spec_ls_product1(a, b) + 4
            &&& 4 * model::spec_ls_product2(a, b) <= both + 16 < 4 * model::spec_ls_product2(a, b)
                + 4
            &&& model::spec_ls_product1(a, b) == model::spec_ls_product1(b, a)
            &&& model::spec_ls_product2(a, b) == model::spec_ls_product2(b, a)
            &&& model::spec_ls_square(a) == model::spec_ls_product2(a, a)
        }),
{
    assert((a + 4) * (b + 4) == a * b + 4 * (a + b) + 16) by (nonlinear_arith);
    assert(a * b == b * a) by (nonlinear_arith);
}

/// A sample counts exactly where its motion and the block's differ by less than
/// 32 samples each way, and its sums are those of where it lies and where it
/// moves, as seen from the block's own centre.
pub proof fn samples_count_by_their_motion(s: Sample, bw: int, bh: int, mvx: int, mvy: int)
    requires
        bw >= 0,
        bh >= 0,
    ensures
        ({
            let x = s.pts1.0 - 8 * (bw / 2 - 1);
            let y = s.pts1.1 - 8 * (bh / 2 - 1);
            let u = s.pts2.0 - 8 * (bw / 2 - 1) - mvx;
            let v = s.pts2.1 - 8 * (bh / 2 - 1) - mvy;
            let sums = model::contribution(s, bw, bh, mvx, mvy);
            &&& model::counts(s, bw, bh, mvx, mvy) <==> -256 < s.pts2.0 - s.pts1.0 - mvx < 256
                && -256 < s.pts2.1 - s.pts1.1 - mvy < 256
            &&& !model::counts(s, bw, bh, mvx, mvy) ==> forall|k: int|
                0 <= k < 7 ==> #[trigger] sums[k] == 0
            &&& model::counts(s, bw, bh, mvx, mvy) ==> {
                &&& sums[0] == model::spec_ls_product2(x, x)
                &&& sums[1] == model::spec_ls_product1(x, y)
                &&& sums[2] == model::spec_ls_product2(y, y)
                &&& sums[3] == model::spec_ls_product2(x, u)
                &&& sums[4] == model::spec_ls_product1(y, u)
                &&& sums[5] == model::spec_ls_product1(x, v)
                &&& sums[6] == model::spec_ls_product2(y, v)
            }
        }),
{
    let x = s.pts1.0 - 8 * (bw / 2 - 1);
    let y = s.pts1.1 - 8 * (bh / 2 - 1);
    terms_are_products_of_distances(x, x);
    terms_are_products_of_distances(y, y);
}

/// Whether every sample moves as the block does.
pub open spec fn move_alike(ss: Seq<Sample>, mvx: int, mvy: int) -> bool {
    forall|i: int|
        0 <= i < ss.len() ==> (#[trigger] ss[i]).pts2.0 == ss[i].pts1.0 + mvx && ss[i].pts2.1
            == ss[i].pts1.1 + mvy
}

proof fn lemma_alike_sums(ss: Seq<Sample>, bw: int, bh: int, mvx: int, mvy: int)
    requires
        bw >= 0,
        bh >= 0,
        move_alike(ss, mvx, mvy),
    ensures
        model::normal_sum(ss, bw, bh, mvx, mvy, 3) == model::normal_sum(ss, bw, bh, mvx, mvy, 0),
        model::normal_sum(ss, bw, bh, mvx, mvy, 4) == model::normal_sum(ss, bw, bh, mvx, mvy, 1),
        model::normal_sum(ss, bw, bh, mvx, mvy, 5) == model::normal_sum(ss, bw, bh, mvx, mvy, 1),
        model::normal_sum(ss, bw, bh, mvx, mvy, 6) == model::normal_sum(ss, bw, bh, mvx, mvy, 2),
    decreases ss.len(),
{
    if ss.len() > 0 {
        let front = ss.drop_last();
        assert(move_alike(front, mvx, mvy)) by {
            assert forall|i: int| 0 <= i < front.len() implies (#[trigger] front[i]).pts2.0
                == front[i].pts1.0 + mvx && front[i].pts2.1 == front[i].pts1.1 + mvy by {
                assert(front[i] == ss[i]);
            }
        }
        lemma_alike_sums(front, bw, bh, mvx, mvy);
        let s = ss.last();
        assert(s == ss[ss.len() - 1]);
        samples_count_by_their_motion(s, bw, bh, mvx, mvy);
        let x = s.pts1.0 - 8 * (bw / 2 - 1);
        let y = s.pts1.1 - 8 * (bh / 2 - 1);
        terms_are_products_of_distances(x, y);
    }
}

/// Samples that all move as the block does fit a plain translation: nothing is
/// sheared, and nothing is scaled by more than a 256th.
pub proof fn samples_that_move_alike_fit_a_translation(
    ss: Seq<Sample>,
    bw: int,
    bh: int,
    mvx: int,
    mvy: int,
    mi_row: int,
    mi_col: int,
)
    requires
        bw >= 0,
        bh >= 0,
        move_alike(ss, mvx, mvy),
        affine::fit_is_computable(ss, bw, bh, mvx, mvy, mi_row, mi_col),
        affine::determinant(affine::normal_of(ss, bw, bh, mvx, mvy)) != 0,
    ensures
        ({
            let n = affine::normal_of(ss, bw, bh, mvx, mvy);
            &&& affine::model_entry(n, bw, bh, mvx, mvy, mi_row, mi_col, 3) == 0
            &&& affine::model_entry(n, bw, bh, mvx, mvy, mi_row, mi_col, 4) == 0
            &&& 65280 <= affine::model_entry(n, bw, bh, mvx, mvy, mi_row, mi_col, 2) <= 65792
            &&& 65280 <= affine::model_entry(n, bw, bh, mvx, mvy, mi_row, mi_col, 5) <= 65792
        }),
{
    let n = affine::normal_of(ss, bw, bh, mvx, mvy);
    lemma_alike_sums(ss, bw, bh, mvx, mvy);
    lemma_sums_fit(ss, bw, bh, mvx, mvy, mi_row, mi_col);
    assert(n.bx0 == n.a00 && n.bx1 == n.a01 && n.by0 == n.a01 && n.by1 == n.a11);
    let det = affine::determinant(n);
    assert(affine::numerator(n, 2) == det && affine::numerator(n, 5) == det) by {
        assert(n.a11 * n.a00 == n.a00 * n.a11) by (nonlinear_arith);
    }
    assert(affine::numerator(n, 3) == 0 && affine::numerator(n, 4) == 0) by {
        assert(n.a00 * n.a01 == n.a01 * n.a00) by (nonlinear_arith);
        assert(n.a11 * n.a01 == n.a01 * n.a11) by (nonlinear_arith);
    }
    let (mult, shift) = affine::reciprocal(det);
    lemma_msb(det);
    reciprocals_are_within_a_256th(samples::magnitude(det));
    assert(0 * mult == 0);
    bits::lemma_round2_zero(shift as nat);
    lemma_unit(det);
}

/// The sums of a computable fit are kept exactly.
proof fn lemma_sums_fit(
    ss: Seq<Sample>,
    bw: int,
    bh: int,
    mvx: int,
    mvy: int,
    mi_row: int,
    mi_col: int,
)
    requires
        affine::fit_is_computable(ss, bw, bh, mvx, mvy, mi_row, mi_col),
    ensures
        model::is_normal(affine::normal_of(ss, bw, bh, mvx, mvy), ss, bw, bh, mvx, mvy),
{
    assert(ss.take(ss.len() as int) =~= ss);
    assert forall|k: int| 0 <= k < 7 implies model::fits_i64(
        #[trigger] model::normal_sum(ss, bw, bh, mvx, mvy, k),
    ) by {
        assert(model::fits_i64(model::normal_sum(ss.take(ss.len() as int), bw, bh, mvx, mvy, k)));
    }
    assert(model::fits_i64(model::normal_sum(ss, bw, bh, mvx, mvy, 0)));
    assert(model::fits_i64(model::normal_sum(ss, bw, bh, mvx, mvy, 1)));
    assert(model::fits_i64(model::normal_sum(ss, bw, bh, mvx, mvy, 2)));
    assert(model::fits_i64(model::normal_sum(ss, bw, bh, mvx, mvy, 3)));
    assert(model::fits_i64(model::normal_sum(ss, bw, bh, mvx, mvy, 4)));
    assert(model::fits_i64(model::normal_sum(ss, bw, bh, mvx, mvy, 5)));
    assert(model::fits_i64(model::normal_sum(ss, bw, bh, mvx, mvy, 6)));
}

proof fn lemma_msb(det: int)
    requires
        det != 0,
    ensures
        exists|m: int| model::is_msb(samples::magnitude(det), m),
{
    let d = samples::magnitude(det);
    lemma_below_power(d as nat);
    lemma_has_msb(d, d as nat);
}

proof fn lemma_below_power(d: nat)
    ensures
        d < bits::pow2(d),
    decreases d,
{
    if d > 0 {
        lemma_below_power((d - 1) as nat);
    }
}

proof fn lemma_has_msb(d: int, bound: nat)
    requires
        0 < d < bits::pow2(bound),
    ensures
        exists|m: int| model::is_msb(d, m),
    decreases bound,
{
    if bound > 0 {
        let below = (bound - 1) as nat;
        if d >= bits::pow2(below) {
            assert(below + 1 == bound);
            assert(model::is_msb(d, below as int));
        } else {
            lemma_has_msb(d, below);
        }
    }
}

/// A determinant over itself is one, to within a 256th.
proof fn lemma_unit(det: int)
    requires
        det != 0,
        exists|m: int| model::is_msb(samples::magnitude(det), m),
    ensures
        ({
            let (mult, shift) = affine::reciprocal(det);
            65280 <= model::spec_round2_signed(det * mult, shift) <= 65792
        }),
{
    let d = samples::magnitude(det);
    let (y, s) = affine::divisor(d);
    reciprocals_are_within_a_256th(d);
    let one = bits::pow2(s as nat);
    let (mult, shift) = affine::reciprocal(det);
    bits::lemma_pow2_values();
    reveal(bits::spec_round2);
    if s < 16 {
        let q = bits::pow2((16 - s) as nat);
        bits::lemma_pow2_add(s as nat, (16 - s) as nat);
        bits::lemma_pow2_positive((16 - s) as nat);
        assert(one * q == 65536);
        assert(det * mult == (y * d) * q) by (nonlinear_arith)
            requires
                det == d && mult == y * q || det == -d && mult == (-y) * q,
        ;
        assert(65280 <= (y * d) * q <= 65792) by (nonlinear_arith)
            requires
                one * q == 65536,
                q > 0,
                -one <= 256 * (y * d - one) <= one,
        ;
    } else {
        assert(det * mult == y * d) by (nonlinear_arith)
            requires
                det == d && mult == y || det == -d && mult == -y,
        ;
        let p = bits::pow2(shift as nat);
        bits::lemma_pow2_add(16, shift as nat);
        bits::lemma_pow2_positive(shift as nat);
        assert(one == 65536 * p);
        assert(65280 * p <= y * d <= 65792 * p);
        if shift > 0 {
            let h = bits::pow2((shift - 1) as nat);
            assert(p == 2 * h);
            lemma_rounded_between(y * d, h, 65280, 65792);
        }
    }
}

proof fn lemma_rounded_between(x: int, h: int, lo: int, hi: int)
    requires
        h > 0,
        lo * (2 * h) <= x <= hi * (2 * h),
    ensures
        lo <= (x + h) / (2 * h) <= hi,
{
    bits::lemma_floor_bounds(x + h, 2 * h);
    let q = (x + h) / (2 * h);
    assert(lo <= q <= hi) by (nonlinear_arith)
        requires
            h > 0,
            lo * (2 * h) <= x <= hi * (2 * h),
            2 * h * q <= x + h < 2 * h * q + 2 * h,
    ;
}

/// A shear is the nearest multiple of 64 to what it stands for, where that is
/// within the filter's range.
pub proof fn shears_are_cut_to_64ths(x: int)
    requires
        -32768 <= x <= 32767,
    ensures
        affine::reduced(x) % 64 == 0,
        -32 <= affine::reduced(x) - x <= 32,
{
    reveal(bits::spec_round2);
    bits::lemma_pow2_values();
}

/// The shears of a model: the horizontal ones are how far its first row is from
/// the identity's, each to the nearest 64. The vertical ones undo the horizontal
/// ones first: each of them times the first entry is that entry's product or the
/// determinant's share, to within a 256th of it and 33 of the first entry.
pub proof fn shears_factor_the_model(w2: int, w3: int, w4: int, w5: int)
    requires
        57345 <= w2 <= 73727,
        -8191 <= w3 <= 8191,
        -8191 <= w4 <= 8191,
        57345 <= w5 <= 73727,
    ensures
        ({
            let (alpha, beta, gamma, delta) = affine::shears(w2, w3, w4, w5);
            &&& -32 <= alpha - (w2 - 65536) <= 32
            &&& -32 <= beta - w3 <= 32
            &&& -33 * w2 - 256 * 8191 <= gamma * w2 - 65536 * w4 <= 33 * w2 + 256 * 8191
            &&& -33 * w2 - 8191 * 32 <= (delta - (w5 - 65536)) * w2 + w3 * w4 <= 33 * w2 + 8191
                * 32
        }),
{
    let (y, shift) = affine::divisor(w2);
    lemma_msb(w2);
    reciprocals_are_within_a_256th(w2);
    let one = bits::pow2(shift as nat);
    let turned = model::spec_round2_signed(w4 * 65536 * y, shift);
    let crossed = model::spec_round2_signed(w3 * w4 * y, shift);
    bits::lemma_pow2_positive(shift as nat);
    lemma_quotient(w4 * 65536, 536_805_376, y, shift, w2);
    assert(-8191 * 8191 <= w3 * w4 <= 8191 * 8191) by (nonlinear_arith)
        requires
            -8191 <= w3 <= 8191,
            -8191 <= w4 <= 8191,
    ;
    lemma_quotient(w3 * w4, 67_092_481, y, shift, w2);
    assert(-9400 <= turned <= 9400 && -1300 <= crossed <= 1300) by (nonlinear_arith)
        requires
            57345 <= w2 <= 73727,
            -8191 <= w4 <= 8191,
            -8191 * 8191 <= w3 * w4 <= 8191 * 8191,
            -w2 - 256 * 8191 <= turned * w2 - 65536 * w4 <= w2 + 256 * 8191,
            -w2 - 8191 * 32 <= crossed * w2 - w3 * w4 <= w2 + 8191 * 32,
    ;
    shears_are_cut_to_64ths(w2 - 65536);
    shears_are_cut_to_64ths(w3);
    shears_are_cut_to_64ths(turned);
    shears_are_cut_to_64ths(w5 - crossed - 65536);
    let (alpha, beta, gamma, delta) = affine::shears(w2, w3, w4, w5);
    assert(-32 * w2 <= (gamma - turned) * w2 <= 32 * w2) by (nonlinear_arith)
        requires
            w2 > 0,
            -32 <= gamma - turned <= 32,
    ;
    assert((gamma - turned) * w2 == gamma * w2 - turned * w2) by (nonlinear_arith);
    let rest = delta - (w5 - crossed - 65536);
    assert(-32 * w2 <= rest * w2 <= 32 * w2) by (nonlinear_arith)
        requires
            w2 > 0,
            -32 <= rest <= 32,
    ;
    assert(rest * w2 == (delta - (w5 - 65536)) * w2 + crossed * w2) by (nonlinear_arith)
        requires
            rest == delta - (w5 - crossed - 65536),
    ;
}

/// A value divided by way of a reciprocal, times the divisor.
proof fn lemma_quotient(v: int, most: int, y: int, shift: int, d: int)
    requires
        shift >= 14,
        57345 <= d <= 73727,
        0 < y <= 16384,
        -most <= v <= most,
        most <= 65536 * 8191,
        -bits::pow2(shift as nat) <= 256 * (y * d - bits::pow2(shift as nat)) <= bits::pow2(
            shift as nat,
        ),
    ensures
        ({
            let q = model::spec_round2_signed(v * y, shift);
            256 * (-d) - most <= 256 * (q * d - v) <= 256 * d + most
        }),
{
    let x = samples::magnitude(v);
    assert(v * y == if v < 0 {
        -(x * y)
    } else {
        x * y
    }) by (nonlinear_arith)
        requires
            v == x || v == -x,
            v < 0 ==> v == -x,
            v >= 0 ==> v == x,
    ;
    assert(x * y >= 0) by (nonlinear_arith)
        requires
            x >= 0,
            y > 0,
    ;
    assert(v < 0 ==> v * y < 0) by (nonlinear_arith)
        requires
            y > 0,
    ;
    let h = bits::pow2((shift - 1) as nat);
    bits::lemma_pow2_positive((shift - 1) as nat);
    let one = bits::pow2(shift as nat);
    assert(one == 2 * h);
    let q = bits::spec_round2(x * y, shift as nat);
    reveal(bits::spec_round2);
    assert(q == (x * y + h) / (2 * h));
    bits::lemma_floor_bounds(x * y + h, 2 * h);
    assert(256 * (-d) - most <= 256 * (q * d - x) <= 256 * d + most) by {
        let slack = x * y - 2 * h * q;
        assert(-h <= slack <= h);
        let off = y * d - 2 * h;
        assert(2 * h * (q * d - x) == x * off - slack * d) by (nonlinear_arith)
            requires
                slack == x * y - 2 * h * q,
                off == y * d - 2 * h,
        ;
        let (hx, hd, z) = (h * x, h * d, q * d - x);
        assert(-2 * hx <= 256 * (x * off) <= 2 * hx) by (nonlinear_arith)
            requires
                x >= 0,
                hx == h * x,
                -(2 * h) <= 256 * off <= 2 * h,
        ;
        assert(-hd <= slack * d <= hd) by (nonlinear_arith)
            requires
                -h <= slack <= h,
                hd == h * d,
                d > 0,
        ;
        let hz = h * z;
        assert(2 * h * (q * d - x) == 2 * hz) by (nonlinear_arith)
            requires
                hz == h * z,
                z == q * d - x,
        ;
        assert(-2 * hx - 256 * hd <= 512 * hz <= 2 * hx + 256 * hd);
        assert(-256 * d - most <= 256 * z <= 256 * d + most) by (nonlinear_arith)
            requires
                h > 0,
                d > 0,
                0 <= x <= most,
                hx == h * x,
                hd == h * d,
                hz == h * z,
                -2 * hx - 256 * hd <= 512 * hz <= 2 * hx + 256 * hd,
        ;
    }
    assert(v < 0 ==> (-q) * d == -(q * d)) by (nonlinear_arith);
}

/// The filter takes shears up to a quarter of a sample a step: the horizontal ones weighed over
/// four columns and seven rows, the vertical ones over four of each, together below one
/// sample. Only their sizes count.
pub proof fn shears_are_allowed_below_one_sample(a: int, b: int, g: int, d: int)
    ensures
        affine::shears_allowed(0, 0, 0, 0),
        affine::shears_allowed(a, b, g, d) == affine::shears_allowed(-a, -b, -g, -d),
        affine::shears_allowed(a, b, g, d) == affine::shears_allowed(a, -b, g, -d),
        affine::shears_allowed(a, b, g, d) == affine::shears_allowed(a, b, d, g),
        a >= 0 && b >= 0 && g >= 0 && d >= 0 ==> (affine::shears_allowed(a, b, g, d) <==> 4 * a + 7
            * b <= 65535 && 4 * (g + d) <= 65535),
{
}

/// The sums of the normal equations are over every sample once.
pub proof fn sums_are_over_every_sample(
    ss: Seq<Sample>,
    s: Sample,
    bw: int,
    bh: int,
    mvx: int,
    mvy: int,
    k: int,
)
    ensures
        model::normal_sum(ss.push(s), bw, bh, mvx, mvy, k) == model::normal_sum(
            ss,
            bw,
            bh,
            mvx,
            mvy,
            k,
        ) + model::contribution(s, bw, bh, mvx, mvy)[k],
        model::normal_sum(Seq::empty(), bw, bh, mvx, mvy, k) == 0,
{
    assert(ss.push(s).drop_last() =~= ss);
}

/// An entry of the linear part that is not held to its range is its numerator over the
/// determinant, in units of `2^-16`: to within a 256th of it, and one.
pub proof fn entries_are_their_quotients(n: Normal, k: int)
    requires
        2 <= k <= 5,
        affine::determinant(n) != 0,
    ensures
        ({
            let w = affine::linear(n, k);
            let (det, num) = (affine::determinant(n), affine::numerator(n, k));
            let (lo, hi) = if k == 2 || k == 5 {
                (57345int, 73727int)
            } else {
                (-8191int, 8191int)
            };
            let off = w * det - 65536 * num;
            let slack = 65536 * samples::magnitude(num) + 256 * samples::magnitude(det);
            &&& lo <= w <= hi
            &&& lo < w < hi ==> -slack <= 256 * off <= slack
        }),
{
    let (det, num) = (affine::determinant(n), affine::numerator(n, k));
    lemma_msb(det);
    lemma_solved(num, det);
}

proof fn lemma_solved(num: int, det: int)
    requires
        det != 0,
        exists|m: int| model::is_msb(samples::magnitude(det), m),
    ensures
        ({
            let (mult, shift) = affine::reciprocal(det);
            let q = model::spec_round2_signed(num * mult, shift);
            let off = q * det - 65536 * num;
            let slack = 65536 * samples::magnitude(num) + 256 * samples::magnitude(det);
            -slack <= 256 * off <= slack
        }),
{
    let d = samples::magnitude(det);
    let (y, s) = affine::divisor(d);
    reciprocals_are_within_a_256th(d);
    let one = bits::pow2(s as nat);
    let (mult, shift) = affine::reciprocal(det);
    let x = samples::magnitude(num);
    bits::lemma_pow2_values();
    bits::lemma_pow2_positive(shift as nat);
    let p = bits::pow2(shift as nat);
    let unit = mult * det;
    assert(65280 * p <= unit <= 65792 * p) by {
        if s < 16 {
            let q = bits::pow2((16 - s) as nat);
            bits::lemma_pow2_add(s as nat, (16 - s) as nat);
            bits::lemma_pow2_positive((16 - s) as nat);
            assert(p == 1);
            assert(unit == (y * d) * q) by (nonlinear_arith)
                requires
                    unit == mult * det,
                    det == d && mult == y * q || det == -d && mult == (-y) * q,
            ;
            assert(65280 <= (y * d) * q <= 65792) by (nonlinear_arith)
                requires
                    one * q == 65536,
                    q > 0,
                    -one <= 256 * (y * d - one) <= one,
            ;
        } else {
            bits::lemma_pow2_add(16, shift as nat);
            assert(one == 65536 * p);
            assert(unit == y * d) by (nonlinear_arith)
                requires
                    unit == mult * det,
                    det == d && mult == y || det == -d && mult == -y,
            ;
        }
    }
    let v = num * mult;
    let q = model::spec_round2_signed(v, shift);
    lemma_rounds_to_the_nearest(v, shift);
    let e = p * q - v;
    assert(-p <= 2 * e <= p);
    let off = q * det - 65536 * num;
    let poff = p * off;
    assert(poff == num * (unit - 65536 * p) + e * det) by (nonlinear_arith)
        requires
            poff == p * off,
            off == q * det - 65536 * num,
            e == p * q - v,
            v == num * mult,
            unit == mult * det,
    ;
    let (px, pd) = (p * x, p * d);
    assert(-256 * px <= num * (unit - 65536 * p) <= 256 * px) by (nonlinear_arith)
        requires
            -256 * p <= unit - 65536 * p <= 256 * p,
            num == x || num == -x,
            x >= 0,
            p > 0,
            px == p * x,
    ;
    assert(-pd <= 2 * (e * det) <= pd) by (nonlinear_arith)
        requires
            -p <= 2 * e <= p,
            det == d || det == -d,
            d >= 0,
            pd == p * d,
    ;
    let slack = 65536 * x + 256 * d;
    assert(-(65536 * px + 128 * pd) <= 256 * poff <= 65536 * px + 128 * pd);
    assert(-slack <= 256 * off <= slack) by (nonlinear_arith)
        requires
            p > 0,
            d >= 0,
            poff == p * off,
            px == p * x,
            pd == p * d,
            slack == 65536 * x + 256 * d,
            -(65536 * px + 128 * pd) <= 256 * poff <= 65536 * px + 128 * pd,
    ;
}

/// Rounding is to the nearest.
proof fn lemma_rounds_to_the_nearest(v: int, n: int)
    requires
        n >= 0,
    ensures
        ({
            let p = bits::pow2(n as nat);
            let e = p * model::spec_round2_signed(v, n) - v;
            -p <= 2 * e <= p
        }),
{
    let p = bits::pow2(n as nat);
    bits::lemma_pow2_positive(n as nat);
    let x = samples::magnitude(v);
    let q = bits::spec_round2(x, n as nat);
    reveal(bits::spec_round2);
    if n == 0 {
        assert(p == 1);
        assert(1 * model::spec_round2_signed(v, n) == v);
    } else {
        let h = bits::pow2((n - 1) as nat);
        assert(p == 2 * h);
        bits::lemma_pow2_positive((n - 1) as nat);
        bits::lemma_floor_bounds(x + h, 2 * h);
        assert(-h <= p * q - x <= h);
        assert(p * (-q) == -(p * q)) by (nonlinear_arith);
    }
}

} // verus!
