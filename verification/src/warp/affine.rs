//! The affine model that solves the normal equations, and the shears it
//! decomposes into.
use crate::bits;
use crate::transform::adst;
use crate::warp::model;
use crate::warp::model::{
    centre_of, clamp, normal_equations, resolve_divisor_32, resolve_divisor_64, round2_signed, Normal,
    WarpParams,
};
use crate::warp::samples;
use crate::warp::samples::{Sample, MI_SIZE};
use vstd::prelude::*;

verus! {

/// The multiplier and shift that a divisor resolves into.
pub open spec fn divisor(d: int) -> (int, int) {
    let m = choose|m: int| model::is_msb(d, m);
    (model::DIV_LUT[model::divisor_fraction(d, m)] as int, m + 14)
}

/// The determinant of the normal equations.
pub open spec fn determinant(n: Normal) -> int {
    n.a00 * n.a11 - n.a01 * n.a01
}

/// The reciprocal of a determinant as a multiplier and a shift, at the
/// model's 16 fractional bits.
pub open spec fn reciprocal(det: int) -> (int, int) {
    let (mult, shift) = divisor(samples::magnitude(det));
    let signed = if det < 0 {
        -mult
    } else {
        mult
    };
    if shift < 16 {
        (signed * bits::pow2((16 - shift) as nat), 0)
    } else {
        (signed, shift - 16)
    }
}

/// The numerators of the linear part, by Cramer's rule.
pub open spec fn numerator(n: Normal, k: int) -> int {
    if k == 2 {
        n.a11 * n.bx0 - n.a01 * n.bx1
    } else if k == 3 {
        n.a00 * n.bx1 - n.a01 * n.bx0
    } else if k == 4 {
        n.a11 * n.by0 - n.a01 * n.by1
    } else {
        n.a00 * n.by1 - n.a01 * n.by0
    }
}

/// Entry `k` of the linear part: the solution, held near the identity.
pub open spec fn linear(n: Normal, k: int) -> int {
    let (mult, shift) = reciprocal(determinant(n));
    let solved = model::spec_round2_signed(numerator(n, k) * mult, shift);
    if k == 2 || k == 5 {
        bits::spec_clamp(solved, 57345, 73727)
    } else {
        bits::spec_clamp(solved, -8191, 8191)
    }
}

/// The translation along one axis that takes the block's centre where its
/// own vector does.
pub open spec fn translation(n: Normal, mv: int, cx: int, cy: int, horizontal: bool) -> int {
    let moved = if horizontal {
        cx * (linear(n, 2) - 65536) + cy * linear(n, 3)
    } else {
        cx * linear(n, 4) + cy * (linear(n, 5) - 65536)
    };
    bits::spec_clamp(mv * 8192 - moved, -0x80_0000, 0x7f_ffff)
}

/// Entry `k` of the model that solves the normal equations for a `bw` by `bh`
/// block at `(mi_row, mi_col)` that moves by `(mvx, mvy)`.
pub open spec fn model_entry(
    n: Normal,
    bw: int,
    bh: int,
    mvx: int,
    mvy: int,
    mi_row: int,
    mi_col: int,
    k: int,
) -> int {
    let cx = mi_col * 4 + model::own_centre(bw);
    let cy = mi_row * 4 + model::own_centre(bh);
    if k == 0 {
        translation(n, mvx, cx, cy, true)
    } else if k == 1 {
        translation(n, mvy, cx, cy, false)
    } else {
        linear(n, k)
    }
}

/// Whether entry `k` of the linear part is solved within 64 bits.
pub open spec fn entry_fits(n: Normal, k: int) -> bool {
    let (mult, shift) = reciprocal(determinant(n));
    &&& model::fits_i64(numerator(n, k))
    &&& model::fits_i64(numerator(n, k) * mult)
    &&& model::rounding_fits(numerator(n, k) * mult, shift)
}

/// Whether the normal equations are solved within 64 bits.
pub open spec fn solution_fits(n: Normal) -> bool {
    &&& model::fits_i64(n.a00 * n.a11) && model::fits_i64(n.a01 * n.a01)
    &&& -0x8000_0000_0000_0000 < determinant(n) <= 0x7fff_ffff_ffff_ffff
    &&& determinant(n) != 0 ==> {
        &&& n.a01 > -0x8000_0000_0000_0000
        &&& model::fits_i64(n.a11 * n.bx0) && model::fits_i64(n.a01 * n.bx1)
        &&& model::fits_i64(n.a00 * n.bx1) && model::fits_i64(n.a01 * n.bx0)
        &&& model::fits_i64(-(n.a01 * n.bx0)) && model::fits_i64(-(n.a01 * n.by0))
        &&& model::fits_i64(n.a11 * n.by0) && model::fits_i64(n.a01 * n.by1)
        &&& model::fits_i64(n.a00 * n.by1) && model::fits_i64(n.a01 * n.by0)
        &&& entry_fits(n, 2) && entry_fits(n, 3) && entry_fits(n, 4) && entry_fits(n, 5)
    }
}

/// Whether the fit is computed without any overflow.
pub open spec fn fit_is_computable(
    ss: Seq<Sample>,
    bw: int,
    bh: int,
    mvx: int,
    mvy: int,
    mi_row: int,
    mi_col: int,
) -> bool {
    &&& model::sums_fit(ss, bw, bh, mvx, mvy)
    &&& forall|n: Normal|
        #[trigger] model::is_normal(n, ss, bw, bh, mvx, mvy) ==> solution_fits(n)
    &&& adst::fits_i32(mi_row * 4) && adst::fits_i32(mi_col * 4)
    &&& adst::fits_i32(mi_row * 4 + model::own_centre(bh))
    &&& adst::fits_i32(mi_col * 4 + model::own_centre(bw))
}

/// The normal equations of the samples, where they fit.
pub open spec fn normal_of(ss: Seq<Sample>, bw: int, bh: int, mvx: int, mvy: int) -> Normal {
    Normal {
        a00: model::normal_sum(ss, bw, bh, mvx, mvy, 0) as i64,
        a01: model::normal_sum(ss, bw, bh, mvx, mvy, 1) as i64,
        a11: model::normal_sum(ss, bw, bh, mvx, mvy, 2) as i64,
        bx0: model::normal_sum(ss, bw, bh, mvx, mvy, 3) as i64,
        bx1: model::normal_sum(ss, bw, bh, mvx, mvy, 4) as i64,
        by0: model::normal_sum(ss, bw, bh, mvx, mvy, 5) as i64,
        by1: model::normal_sum(ss, bw, bh, mvx, mvy, 6) as i64,
    }
}

proof fn lemma_divisor(d: int, m: int)
    requires
        model::is_msb(d, m),
    ensures
        divisor(d) == (model::DIV_LUT[model::divisor_fraction(d, m)] as int, m + 14),
{
    let k = choose|k: int| model::is_msb(d, k);
    model::highest_bit_is_unique(d, m, k);
}

/// The reciprocal of a determinant.
fn reciprocal_of(det: i64) -> (r: (i64, u32))
    requires
        det != 0,
        det > -0x8000_0000_0000_0000,
    ensures
        (r.0 as int, r.1 as int) == reciprocal(det as int),
        r.1 <= 60,
        -65536 <= r.0 <= 65536,
{
    let size: u64 = if det < 0 {
        (-det) as u64
    } else {
        det as u64
    };
    let (mult, shift): (i64, i32) = resolve_divisor_64(size);
    proof {
        lemma_divisor(size as int, shift - 14);
        bits::lemma_pow2_values();
    }
    let signed: i64 = if det < 0 {
        -mult
    } else {
        mult
    };
    if shift == 14 {
        (signed * 4, 0)
    } else if shift == 15 {
        (signed * 2, 0)
    } else {
        (signed, (shift - 16) as u32)
    }
}

/// The solution of one entry off the diagonal.
fn get_mult_shift_ndiag(px: i64, i_det: i64, shift: u32) -> (y: i32)
    requires
        model::fits_i64(px * i_det),
        model::rounding_fits(px * i_det, shift as int),
    ensures
        y == bits::spec_clamp(model::spec_round2_signed(px * i_det, shift as int), -8191, 8191),
{
    clamp(round2_signed(px * i_det, shift), -8191, 8191) as i32
}

/// The solution of one entry on the diagonal.
fn get_mult_shift_diag(px: i64, i_det: i64, shift: u32) -> (y: i32)
    requires
        model::fits_i64(px * i_det),
        model::rounding_fits(px * i_det, shift as int),
    ensures
        y == bits::spec_clamp(model::spec_round2_signed(px * i_det, shift as int), 57345, 73727),
{
    clamp(round2_signed(px * i_det, shift), 57345, 73727) as i32
}

/// The least-squares affine model of the samples, for a `bw` by `bh` block at
/// `(mi_row, mi_col)` that moves by `(mvx, mvy)`; nothing where the samples do
/// not determine one.
pub fn find_affine_int(
    ss: &[Sample],
    bw: i32,
    bh: i32,
    mvx: i32,
    mvy: i32,
    mi_row: i32,
    mi_col: i32,
) -> (r: Option<[i32; 6]>)
    requires
        fit_is_computable(
            ss@,
            bw as int,
            bh as int,
            mvx as int,
            mvy as int,
            mi_row as int,
            mi_col as int,
        ),
    ensures
        r is None <==> determinant(
            normal_of(ss@, bw as int, bh as int, mvx as int, mvy as int),
        ) == 0,
        r is Some ==> forall|k: int|
            0 <= k < 6 ==> #[trigger] r->0[k] == model_entry(
                normal_of(ss@, bw as int, bh as int, mvx as int, mvy as int),
                bw as int,
                bh as int,
                mvx as int,
                mvy as int,
                mi_row as int,
                mi_col as int,
                k,
            ),
{
    let n: Normal = normal_equations(ss, bw, bh, mvx, mvy);
    assert(solution_fits(n));
    assert(n == normal_of(ss@, bw as int, bh as int, mvx as int, mvy as int));
    let det: i64 = n.a00 * n.a11 - n.a01 * n.a01;
    if det == 0 {
        return None;
    }
    let (i_det, shift): (i64, u32) = reciprocal_of(det);
    assert((-n.a01) * n.bx0 == -(n.a01 * n.bx0)) by (nonlinear_arith);
    assert((-n.a01) * n.by0 == -(n.a01 * n.by0)) by (nonlinear_arith);
    assert(entry_fits(n, 2) && entry_fits(n, 3) && entry_fits(n, 4) && entry_fits(n, 5));
    let px0: i64 = n.a11 * n.bx0 - n.a01 * n.bx1;
    let px1: i64 = -n.a01 * n.bx0 + n.a00 * n.bx1;
    let py0: i64 = n.a11 * n.by0 - n.a01 * n.by1;
    let py1: i64 = -n.a01 * n.by0 + n.a00 * n.by1;
    let w2: i32 = get_mult_shift_diag(px0, i_det, shift);
    let w3: i32 = get_mult_shift_ndiag(px1, i_det, shift);
    let w4: i32 = get_mult_shift_ndiag(py0, i_det, shift);
    let w5: i32 = get_mult_shift_diag(py1, i_det, shift);
    assert(w2 == linear(n, 2) && w3 == linear(n, 3) && w4 == linear(n, 4) && w5 == linear(n, 5));
    let cy: i64 = (mi_row * MI_SIZE + centre_of(bh)) as i64;
    let cx: i64 = (mi_col * MI_SIZE + centre_of(bw)) as i64;
    proof {
        lemma_small_product(cx as int, w2 - 65536);
        lemma_small_product(cy as int, w3 as int);
        lemma_small_product(cx as int, w4 as int);
        lemma_small_product(cy as int, w5 - 65536);
    }
    let vx: i64 = mvx as i64 * 8192 - (cx * (w2 as i64 - 65536) + cy * w3 as i64);
    let vy: i64 = mvy as i64 * 8192 - (cx * w4 as i64 + cy * (w5 as i64 - 65536));
    let w0: i32 = clamp(vx, -0x80_0000, 0x7f_ffff) as i32;
    let w1: i32 = clamp(vy, -0x80_0000, 0x7f_ffff) as i32;
    Some([w0, w1, w2, w3, w4, w5])
}

/// A coordinate times an entry held near the identity stays far inside 64
/// bits.
proof fn lemma_small_product(c: int, w: int)
    requires
        adst::fits_i32(c),
        -8191 <= w <= 8191,
    ensures
        -0x1000_0000_0000 <= c * w <= 0x1000_0000_0000,
{
    assert(-0x1000_0000_0000 <= c * w <= 0x1000_0000_0000) by (nonlinear_arith)
        requires
            -0x8000_0000 <= c <= 0x7fff_ffff,
            -8191 <= w <= 8191,
    ;
}

/// A shear reduced to the filter's precision, in steps of 64.
pub open spec fn reduced(x: int) -> int {
    model::spec_round2_signed(bits::spec_clamp(x, -32768, 32767), 6) * 64
}

/// The shears of a linear part: `(alpha, beta, gamma, delta)`.
pub open spec fn shears(w2: int, w3: int, w4: int, w5: int) -> (int, int, int, int) {
    let (y, shift) = divisor(w2);
    (
        reduced(w2 - 65536),
        reduced(w3),
        reduced(model::spec_round2_signed(w4 * 65536 * y, shift)),
        reduced(w5 - model::spec_round2_signed(w3 * w4 * y, shift) - 65536),
    )
}

/// Whether the warp filter can represent these shears.
pub open spec fn shears_allowed(alpha: int, beta: int, gamma: int, delta: int) -> bool {
    &&& 4 * samples::magnitude(alpha) + 7 * samples::magnitude(beta) < 65536
    &&& 4 * samples::magnitude(gamma) + 4 * samples::magnitude(delta) < 65536
}

/// A shear reduced to the filter's precision.
fn reduce(x: i64) -> (y: i64)
    ensures
        y == reduced(x as int),
        -32768 <= y <= 32768,
{
    let c: i64 = clamp(x, -32768, 32767);
    proof {
        bits::lemma_pow2_values();
        lemma_reduced_range(c as int);
    }
    round2_signed(c, 6) * 64
}

proof fn lemma_reduced_range(c: int)
    requires
        -32768 <= c <= 32767,
    ensures
        -512 <= model::spec_round2_signed(c, 6) <= 512,
{
    reveal(bits::spec_round2);
    bits::lemma_pow2_values();
}

fn abs_i64(x: i64) -> (y: i64)
    requires
        x > -0x8000_0000_0000_0000,
    ensures
        y == samples::magnitude(x as int),
{
    if x < 0 {
        -x
    } else {
        x
    }
}

/// Whether the shears of a model are computed within 64 bits.
pub open spec fn shears_fit(w2: int, w3: int, w4: int) -> bool {
    let (y, shift) = divisor(w2);
    w2 > 0 ==> model::fits_i64(w3 * w4 * y) && model::rounding_fits(w3 * w4 * y, shift)
}

/// The shears of a model; nothing where its first entry is not positive or
/// the filter cannot represent them.
pub fn get_shear_params(wmmat: &[i32; 6]) -> (r: Option<(i16, i16, i16, i16)>)
    requires
        shears_fit(wmmat[2] as int, wmmat[3] as int, wmmat[4] as int),
    ensures
        ({
            let (a, b, g, d) = shears(
                wmmat[2] as int,
                wmmat[3] as int,
                wmmat[4] as int,
                wmmat[5] as int,
            );
            &&& r is Some <==> wmmat[2] > 0 && shears_allowed(a, b, g, d)
            &&& r matches Some(found) ==> found.0 == a && found.1 == b && found.2 == g && found.3
                == d
        }),
{
    if wmmat[2] <= 0 {
        return None;
    }
    let (w2, w3, w4, w5): (i64, i64, i64, i64) = (
        wmmat[2] as i64,
        wmmat[3] as i64,
        wmmat[4] as i64,
        wmmat[5] as i64,
    );
    let (y, shift): (i64, i32) = resolve_divisor_32(wmmat[2] as u32);
    let n: u32 = shift as u32;
    proof {
        lemma_divisor(w2 as int, shift - 14);
        assert(-0x2000_0000_0000_0000 <= w4 * 65536 * y <= 0x2000_0000_0000_0000) by (nonlinear_arith)
            requires
                -0x8000_0000 <= w4 <= 0x7fff_ffff,
                0 <= y <= 16384,
        ;
        bits::lemma_pow2_monotonic(n as nat, 45);
        assert(bits::pow2(45) == 0x2000_0000_0000) by {
            bits::lemma_pow2_add(13, 32);
            bits::lemma_pow2_values();
        }
        assert(-0x4000_0000_0000_0000 <= w3 * w4 <= 0x4000_0000_0000_0000) by (nonlinear_arith)
            requires
                -0x8000_0000 <= w3 <= 0x7fff_ffff,
                -0x8000_0000 <= w4 <= 0x7fff_ffff,
        ;
    }
    let turned: i64 = round2_signed((w4 * 65536) * y, n);
    let crossed: i64 = round2_signed((w3 * w4) * y, n);
    proof {
        lemma_round2_signed_shrinks(w3 * w4 * y, n as int);
    }
    let alpha: i64 = reduce(w2 - 65536);
    let beta: i64 = reduce(w3);
    let gamma: i64 = reduce(turned);
    let delta: i64 = reduce(w5 - crossed - 65536);
    if 4 * abs_i64(alpha) + 7 * abs_i64(beta) >= 65536 || 4 * abs_i64(gamma) + 4 * abs_i64(delta)
        >= 65536 {
        return None;
    }
    Some((alpha as i16, beta as i16, gamma as i16, delta as i16))
}

/// Rounding by at least 14 places leaves at most 50 bits of a 64-bit value.
proof fn lemma_round2_signed_shrinks(v: int, n: int)
    requires
        model::rounding_fits(v, n),
        n >= 14,
    ensures
        -0x4_0000_0000_0000 <= model::spec_round2_signed(v, n) <= 0x4_0000_0000_0000,
{
    let x = samples::magnitude(v);
    reveal(bits::spec_round2);
    let h = bits::pow2((n - 1) as nat);
    bits::lemma_pow2_monotonic(13, (n - 1) as nat);
    bits::lemma_pow2_values();
    let q = (x + h) / (2 * h);
    bits::lemma_floor_bounds(x + h, 2 * h);
    assert(0 <= q <= 0x4_0000_0000_0000) by (nonlinear_arith)
        requires
            2 * h * q <= x + h < 2 * h * q + 2 * h,
            h >= 8192,
            0 <= x,
            x + 2 * h <= 0x7fff_ffff_ffff_ffff,
    ;
}

/// The shears of a model that was fitted are always computed within 64 bits.
proof fn lemma_fitted_shears_fit(w2: int, w3: int, w4: int)
    requires
        57345 <= w2 <= 73727,
        -8191 <= w3 <= 8191,
        -8191 <= w4 <= 8191,
    ensures
        shears_fit(w2, w3, w4),
{
    let m = if w2 < 65536 {
        15int
    } else {
        16int
    };
    bits::lemma_pow2_values();
    assert(bits::pow2(17) == 2 * bits::pow2(16));
    lemma_divisor(w2, m);
    model::lemma_divisor_fraction(w2, m);
    model::lemma_lut_range();
    let (y, shift) = divisor(w2);
    assert(8192 <= y <= 16384);
    assert(-0x1_0000_0000_0000 <= w3 * w4 * y <= 0x1_0000_0000_0000) by (nonlinear_arith)
        requires
            -8191 <= w3 <= 8191,
            -8191 <= w4 <= 8191,
            0 <= y <= 16384,
    ;
    bits::lemma_pow2_monotonic(shift as nat, 32);
}

/// The affine model of the samples and its shears; nothing where the samples
/// do not determine a model or the filter cannot represent its shears.
pub fn find_projection(
    samples: &[Sample],
    bw: i32,
    bh: i32,
    mvx: i32,
    mvy: i32,
    mi_row: i32,
    mi_col: i32,
) -> (r: Option<WarpParams>)
    requires
        fit_is_computable(
            samples@,
            bw as int,
            bh as int,
            mvx as int,
            mvy as int,
            mi_row as int,
            mi_col as int,
        ),
    ensures
        ({
            let n = normal_of(samples@, bw as int, bh as int, mvx as int, mvy as int);
            let (a, b, g, d) = shears(linear(n, 2), linear(n, 3), linear(n, 4), linear(n, 5));
            &&& r is Some <==> determinant(n) != 0 && shears_allowed(a, b, g, d)
            &&& r matches Some(found) ==> {
                &&& found.alpha == a && found.beta == b && found.gamma == g && found.delta == d
                &&& forall|k: int|
                    0 <= k < 6 ==> #[trigger] found.wmmat[k] == model_entry(
                        n,
                        bw as int,
                        bh as int,
                        mvx as int,
                        mvy as int,
                        mi_row as int,
                        mi_col as int,
                        k,
                    )
            }
        }),
{
    let ghost n = normal_of(samples@, bw as int, bh as int, mvx as int, mvy as int);
    match find_affine_int(samples, bw, bh, mvx, mvy, mi_row, mi_col) {
        None => None,
        Some(wmmat) => {
            assert(wmmat[2] == linear(n, 2) && wmmat[3] == linear(n, 3) && wmmat[4] == linear(n, 4)
                && wmmat[5] == linear(n, 5));
            proof {
                lemma_fitted_shears_fit(wmmat[2] as int, wmmat[3] as int, wmmat[4] as int);
            }
            match get_shear_params(&wmmat) {
                None => None,
                Some((alpha, beta, gamma, delta)) => Some(
                    WarpParams { wmmat, alpha, beta, gamma, delta },
                ),
            }
        },
    }
}

/// A fitted model stays near the identity, and its translation within 128
/// samples.
pub proof fn fitted_models_stay_near_the_identity(
    n: Normal,
    bw: int,
    bh: int,
    mvx: int,
    mvy: int,
    mi_row: int,
    mi_col: int,
)
    ensures
        forall|k: int|
            #![trigger model_entry(n, bw, bh, mvx, mvy, mi_row, mi_col, k)]
            k == 0 || k == 1 ==> -0x80_0000 <= model_entry(
                n,
                bw,
                bh,
                mvx,
                mvy,
                mi_row,
                mi_col,
                k,
            ) < 0x80_0000,
        57345 <= linear(n, 2) <= 73727,
        -8191 <= linear(n, 3) <= 8191,
        -8191 <= linear(n, 4) <= 8191,
        57345 <= linear(n, 5) <= 73727,
{
}

/// Whether a sample lies within 176 samples of the block's centre, and moves
/// to within 176 samples of where the block does.
pub open spec fn is_nearby(s: Sample, bw: int, bh: int, mvx: int, mvy: int) -> bool {
    let (sx, sy, dx, dy) = model::relative(s, bw, bh, mvx, mvy);
    &&& -1408 <= sx <= 1408 && -1408 <= sy <= 1408
    &&& -1408 <= dx <= 1408 && -1408 <= dy <= 1408
}

proof fn lemma_term(a: int, b: int)
    requires
        -1408 <= a <= 1408,
        -1408 <= b <= 1408,
    ensures
        model::term_fits(a, b),
        -500_000 <= (4 * (a * b) + 16 * (a + b) + 64) / 16 <= 500_000,
        -500_000 <= (4 * (a * b) + 16 * (a + b) + 128) / 16 <= 500_000,
{
    assert(-1_982_464 <= a * b <= 1_982_464) by (nonlinear_arith)
        requires
            -1408 <= a <= 1408,
            -1408 <= b <= 1408,
    ;
}

proof fn lemma_contribution(s: Sample, bw: int, bh: int, mvx: int, mvy: int, k: int)
    requires
        is_nearby(s, bw, bh, mvx, mvy),
        0 <= k < 7,
    ensures
        -500_000 <= model::contribution(s, bw, bh, mvx, mvy)[k] <= 500_000,
        model::sample_fits(s, bw, bh, mvx, mvy),
{
    let (sx, sy, dx, dy) = model::relative(s, bw, bh, mvx, mvy);
    lemma_term(sx, sx);
    lemma_term(sx, sy);
    lemma_term(sy, sy);
    lemma_term(sx, dx);
    lemma_term(sy, dx);
    lemma_term(sx, dy);
    lemma_term(sy, dy);
}

proof fn lemma_sum(ss: Seq<Sample>, bw: int, bh: int, mvx: int, mvy: int, k: int)
    requires
        forall|i: int| 0 <= i < ss.len() ==> is_nearby(#[trigger] ss[i], bw, bh, mvx, mvy),
        0 <= k < 7,
    ensures
        -500_000 * ss.len() <= model::normal_sum(ss, bw, bh, mvx, mvy, k) <= 500_000 * ss.len(),
    decreases ss.len(),
{
    if ss.len() > 0 {
        let front = ss.drop_last();
        assert forall|i: int| 0 <= i < front.len() implies is_nearby(
            #[trigger] front[i],
            bw,
            bh,
            mvx,
            mvy,
        ) by {
            assert(is_nearby(ss[i], bw, bh, mvx, mvy));
        }
        lemma_sum(front, bw, bh, mvx, mvy, k);
        assert(is_nearby(ss[ss.len() - 1], bw, bh, mvx, mvy));
        lemma_contribution(ss.last(), bw, bh, mvx, mvy, k);
    }
}

proof fn lemma_product(a: int, b: int)
    requires
        -4_000_000 <= a <= 4_000_000,
        -4_000_000 <= b <= 4_000_000,
    ensures
        -16_000_000_000_000 <= a * b <= 16_000_000_000_000,
{
    assert(-16_000_000_000_000 <= a * b <= 16_000_000_000_000) by (nonlinear_arith)
        requires
            -4_000_000 <= a <= 4_000_000,
            -4_000_000 <= b <= 4_000_000,
    ;
}

/// The reciprocal of a determinant below `2^45` has a multiplier of at most
/// 17 bits and a small shift.
proof fn lemma_reciprocal(det: int)
    requires
        det != 0,
        -0x2000_0000_0000 < det < 0x2000_0000_0000,
    ensures
        -65536 <= reciprocal(det).0 <= 65536,
        0 <= reciprocal(det).1 <= 44,
{
    let d = samples::magnitude(det);
    assert(bits::pow2(45) == 0x2000_0000_0000) by {
        bits::lemma_pow2_add(13, 32);
        bits::lemma_pow2_values();
    }
    lemma_has_msb(d, 45);
    let m = choose|m: int| model::is_msb(d, m);
    if m >= 45 {
        bits::lemma_pow2_monotonic(45, m as nat);
    }
    lemma_divisor(d, m);
    model::lemma_divisor_fraction(d, m);
    model::lemma_lut_range();
    bits::lemma_pow2_values();
    let (mult, shift) = divisor(d);
    assert(8192 <= mult <= 16384);
    if shift == 14 {
        assert(reciprocal(det).0 == mult * 4 || reciprocal(det).0 == (-mult) * 4);
    } else if shift == 15 {
        assert(reciprocal(det).0 == mult * 2 || reciprocal(det).0 == (-mult) * 2);
    }
}

/// Every positive number has a highest bit.
proof fn lemma_has_msb(d: int, bound: nat)
    requires
        0 < d < bits::pow2(bound),
    ensures
        exists|m: int| model::is_msb(d, m),
    decreases bound,
{
    if bound > 0 {
        let below = (bound - 1) as nat;
        if d >= bits::pow2(below) {
            assert(below + 1 == bound);
            assert(model::is_msb(d, below as int));
        } else {
            lemma_has_msb(d, below);
        }
    }
}

proof fn lemma_entry_fits(n: Normal, k: int)
    requires
        2 <= k <= 5,
        determinant(n) != 0,
        -32_000_000_000_000 <= determinant(n) <= 32_000_000_000_000,
        -32_000_000_000_000 <= numerator(n, k) <= 32_000_000_000_000,
    ensures
        entry_fits(n, k),
{
    lemma_reciprocal(determinant(n));
    let (mult, shift) = reciprocal(determinant(n));
    let p = numerator(n, k);
    assert(-2_097_152_000_000_000_000 <= p * mult <= 2_097_152_000_000_000_000) by (nonlinear_arith)
        requires
            -32_000_000_000_000 <= p <= 32_000_000_000_000,
            -65536 <= mult <= 65536,
    ;
    bits::lemma_pow2_monotonic(shift as nat, 45);
    assert(bits::pow2(45) == 0x2000_0000_0000) by {
        bits::lemma_pow2_add(13, 32);
        bits::lemma_pow2_values();
    }
}

/// Up to eight samples near the block never overflow the fit, wherever in a
/// frame of up to 65536 samples the block lies.
pub proof fn nearby_samples_are_computable(
    ss: Seq<Sample>,
    bw: int,
    bh: int,
    mvx: int,
    mvy: int,
    mi_row: int,
    mi_col: int,
)
    requires
        ss.len() <= 8,
        0 <= bw <= 128,
        0 <= bh <= 128,
        -0x1_0000 <= mvx <= 0x1_0000,
        -0x1_0000 <= mvy <= 0x1_0000,
        0 <= mi_row <= 0x4000,
        0 <= mi_col <= 0x4000,
        forall|i: int| 0 <= i < ss.len() ==> is_nearby(#[trigger] ss[i], bw, bh, mvx, mvy),
    ensures
        fit_is_computable(ss, bw, bh, mvx, mvy, mi_row, mi_col),
{
    assert forall|i: int| 0 <= i < ss.len() implies model::sample_fits(
        #[trigger] ss[i],
        bw,
        bh,
        mvx,
        mvy,
    ) by {
        lemma_contribution(ss[i], bw, bh, mvx, mvy, 0);
    }
    assert forall|i: int, k: int| 0 <= i <= ss.len() && 0 <= k < 7 implies model::fits_i64(
        #[trigger] model::normal_sum(ss.take(i), bw, bh, mvx, mvy, k),
    ) by {
        let part = ss.take(i);
        assert forall|j: int| 0 <= j < part.len() implies is_nearby(
            #[trigger] part[j],
            bw,
            bh,
            mvx,
            mvy,
        ) by {
            assert(is_nearby(ss[j], bw, bh, mvx, mvy));
        }
        lemma_sum(part, bw, bh, mvx, mvy, k);
    }
    assert forall|n: Normal| #[trigger] model::is_normal(n, ss, bw, bh, mvx, mvy) implies solution_fits(
        n,
    ) by {
        lemma_sum(ss, bw, bh, mvx, mvy, 0);
        lemma_sum(ss, bw, bh, mvx, mvy, 1);
        lemma_sum(ss, bw, bh, mvx, mvy, 2);
        lemma_sum(ss, bw, bh, mvx, mvy, 3);
        lemma_sum(ss, bw, bh, mvx, mvy, 4);
        lemma_sum(ss, bw, bh, mvx, mvy, 5);
        lemma_sum(ss, bw, bh, mvx, mvy, 6);
        lemma_product(n.a00 as int, n.a11 as int);
        lemma_product(n.a01 as int, n.a01 as int);
        lemma_product(n.a11 as int, n.bx0 as int);
        lemma_product(n.a01 as int, n.bx1 as int);
        lemma_product(n.a00 as int, n.bx1 as int);
        lemma_product(n.a01 as int, n.bx0 as int);
        lemma_product(n.a11 as int, n.by0 as int);
        lemma_product(n.a01 as int, n.by1 as int);
        lemma_product(n.a00 as int, n.by1 as int);
        lemma_product(n.a01 as int, n.by0 as int);
        if determinant(n) != 0 {
            lemma_entry_fits(n, 2);
            lemma_entry_fits(n, 3);
            lemma_entry_fits(n, 4);
            lemma_entry_fits(n, 5);
        }
    }
}

} // verus!
