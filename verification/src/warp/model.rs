//! The least-squares fit of an affine model to motion samples, and its
//! decomposition into shears.
use crate::bits;
use crate::transform::adst;
use crate::warp::samples;
use crate::warp::samples::Sample;
use vstd::prelude::*;

verus! {

/// How far apart two motions may be for a sample to count, in eighths of a
/// sample.
pub const LS_MV_MAX: i32 = 256;

/// `2^22 / (256 + i)`, rounded: the reciprocals a divisor is resolved with.
pub const DIV_LUT: [u16; 257] = [
    16384, 16320, 16257, 16194, 16132, 16070, 16009, 15948, 15888, 15828, 15768,
    15709, 15650, 15592, 15534, 15477, 15420, 15364, 15308, 15252, 15197, 15142,
    15087, 15033, 14980, 14926, 14873, 14821, 14769, 14717, 14665, 14614, 14564,
    14513, 14463, 14413, 14364, 14315, 14266, 14218, 14170, 14122, 14075, 14028,
    13981, 13935, 13888, 13843, 13797, 13752, 13707, 13662, 13618, 13574, 13530,
    13487, 13443, 13400, 13358, 13315, 13273, 13231, 13190, 13148, 13107, 13066,
    13026, 12985, 12945, 12906, 12866, 12827, 12788, 12749, 12710, 12672, 12633,
    12596, 12558, 12520, 12483, 12446, 12409, 12373, 12336, 12300, 12264, 12228,
    12193, 12157, 12122, 12087, 12053, 12018, 11984, 11950, 11916, 11882, 11848,
    11815, 11782, 11749, 11716, 11683, 11651, 11619, 11586, 11555, 11523, 11491,
    11460, 11429, 11398, 11367, 11336, 11305, 11275, 11245, 11215, 11185, 11155,
    11125, 11096, 11067, 11038, 11009, 10980, 10951, 10923, 10894, 10866, 10838,
    10810, 10782, 10755, 10727, 10700, 10673, 10645, 10618, 10592, 10565, 10538,
    10512, 10486, 10460, 10434, 10408, 10382, 10356, 10331, 10305, 10280, 10255,
    10230, 10205, 10180, 10156, 10131, 10107, 10082, 10058, 10034, 10010, 9986,
    9963, 9939, 9916, 9892, 9869, 9846, 9823, 9800, 9777, 9754, 9732,
    9709, 9687, 9664, 9642, 9620, 9598, 9576, 9554, 9533, 9511, 9489,
    9468, 9447, 9425, 9404, 9383, 9362, 9341, 9321, 9300, 9279, 9259,
    9239, 9218, 9198, 9178, 9158, 9138, 9118, 9098, 9079, 9059, 9039,
    9020, 9001, 8981, 8962, 8943, 8924, 8905, 8886, 8867, 8849, 8830,
    8812, 8793, 8775, 8756, 8738, 8720, 8702, 8684, 8666, 8648, 8630,
    8613, 8595, 8577, 8560, 8542, 8525, 8508, 8490, 8473, 8456, 8439,
    8422, 8405, 8389, 8372, 8355, 8339, 8322, 8306, 8289, 8273, 8257,
    8240, 8224, 8208, 8192,
];

/// An affine model and its shears.
#[derive(Clone, Copy, Debug)]
pub struct WarpParams {
    /// The translation, then the 2x2 linear part, in units of `2^-16`.
    pub wmmat: [i32; 6],
    /// The horizontal shear along a row.
    pub alpha: i16,
    /// The horizontal shear from row to row.
    pub beta: i16,
    /// The vertical shear along a row.
    pub gamma: i16,
    /// The vertical shear from row to row.
    pub delta: i16,
}

/// Whether `x` is an `i64`.
pub open spec fn fits_i64(x: int) -> bool {
    -0x8000_0000_0000_0000 <= x <= 0x7fff_ffff_ffff_ffff
}

/// Round2 of a magnitude, with the sign put back.
pub open spec fn spec_round2_signed(value: int, n: int) -> int {
    if value < 0 {
        -bits::spec_round2(-value, n as nat)
    } else {
        bits::spec_round2(value, n as nat)
    }
}

/// Whether the rounding of a value is computed within 64 bits.
pub open spec fn rounding_fits(value: int, n: int) -> bool {
    &&& 0 <= n < 63
    &&& samples::magnitude(value) + bits::pow2(n as nat) <= 0x7fff_ffff_ffff_ffff
}

/// The index of the highest bit set in `d`.
pub open spec fn is_msb(d: int, m: int) -> bool {
    m >= 0 && bits::pow2(m as nat) <= d < bits::pow2(m as nat + 1)
}

/// The eight bits below the highest bit of `d`, rounded.
pub open spec fn divisor_fraction(d: int, m: int) -> int {
    let e = d - bits::pow2(m as nat);
    if m > 8 {
        bits::spec_round2(e, (m - 8) as nat)
    } else {
        e * bits::pow2((8 - m) as nat)
    }
}

/// The terms of the normal equations, a quarter of each product and its
/// cross terms with the step between samples.
pub open spec fn spec_ls_square(a: int) -> int {
    (4 * (a * a) + 32 * a + 128) / 16
}

/// The first mixed term of the normal equations.
pub open spec fn spec_ls_product1(a: int, b: int) -> int {
    (4 * (a * b) + 16 * (a + b) + 64) / 16
}

/// The second mixed term of the normal equations.
pub open spec fn spec_ls_product2(a: int, b: int) -> int {
    (4 * (a * b) + 16 * (a + b) + 128) / 16
}

/// The normal equations of a fit.
pub struct Normal {
    /// The sum over `x * x`.
    pub a00: i64,
    /// The sum over `x * y`.
    pub a01: i64,
    /// The sum over `y * y`.
    pub a11: i64,
    /// The sum over `x` and the moved `x`.
    pub bx0: i64,
    /// The sum over `y` and the moved `x`.
    pub bx1: i64,
    /// The sum over `x` and the moved `y`.
    pub by0: i64,
    /// The sum over `y` and the moved `y`.
    pub by1: i64,
}

/// The centre of the current block along one axis, in samples.
pub open spec fn own_centre(size: int) -> int {
    samples::half_toward_zero(size) - 1
}

/// A sample relative to the block's centre and to where it moves:
/// `(sx, sy, dx, dy)`.
pub open spec fn relative(s: Sample, bw: int, bh: int, mvx: int, mvy: int) -> (
    int,
    int,
    int,
    int,
) {
    let sux = own_centre(bw) * 8;
    let suy = own_centre(bh) * 8;
    (s.pts1.0 - sux, s.pts1.1 - suy, s.pts2.0 - (sux + mvx), s.pts2.1 - (suy + mvy))
}

/// Whether a sample's motion is close enough to the block's to count.
pub open spec fn counts(s: Sample, bw: int, bh: int, mvx: int, mvy: int) -> bool {
    let (sx, sy, dx, dy) = relative(s, bw, bh, mvx, mvy);
    samples::magnitude(sx - dx) < 256 && samples::magnitude(sy - dy) < 256
}

/// What one sample adds to each of the seven sums.
pub open spec fn contribution(s: Sample, bw: int, bh: int, mvx: int, mvy: int) -> Seq<int> {
    let (sx, sy, dx, dy) = relative(s, bw, bh, mvx, mvy);
    if counts(s, bw, bh, mvx, mvy) {
        seq![
            spec_ls_square(sx),
            spec_ls_product1(sx, sy),
            spec_ls_square(sy),
            spec_ls_product2(sx, dx),
            spec_ls_product1(sy, dx),
            spec_ls_product1(sx, dy),
            spec_ls_product2(sy, dy),
        ]
    } else {
        seq![0int, 0, 0, 0, 0, 0, 0]
    }
}

/// Sum `k` of the normal equations.
pub open spec fn normal_sum(ss: Seq<Sample>, bw: int, bh: int, mvx: int, mvy: int, k: int) -> int
    decreases ss.len(),
{
    if ss.len() == 0 {
        0
    } else {
        normal_sum(ss.drop_last(), bw, bh, mvx, mvy, k) + contribution(
            ss.last(),
            bw,
            bh,
            mvx,
            mvy,
        )[k]
    }
}

/// Whether these are the normal equations of the samples.
pub open spec fn is_normal(n: Normal, ss: Seq<Sample>, bw: int, bh: int, mvx: int, mvy: int) -> bool {
    &&& n.a00 == normal_sum(ss, bw, bh, mvx, mvy, 0)
    &&& n.a01 == normal_sum(ss, bw, bh, mvx, mvy, 1)
    &&& n.a11 == normal_sum(ss, bw, bh, mvx, mvy, 2)
    &&& n.bx0 == normal_sum(ss, bw, bh, mvx, mvy, 3)
    &&& n.bx1 == normal_sum(ss, bw, bh, mvx, mvy, 4)
    &&& n.by0 == normal_sum(ss, bw, bh, mvx, mvy, 5)
    &&& n.by1 == normal_sum(ss, bw, bh, mvx, mvy, 6)
}

/// Whether the block's own geometry is computed within 32 bits.
pub open spec fn geometry_fits(bw: int, bh: int, mvx: int, mvy: int) -> bool {
    let sux = own_centre(bw) * 8;
    let suy = own_centre(bh) * 8;
    &&& adst::fits_i32(own_centre(bw)) && adst::fits_i32(own_centre(bh))
    &&& adst::fits_i32(sux) && adst::fits_i32(suy)
    &&& adst::fits_i32(sux + mvx) && adst::fits_i32(suy + mvy)
}

/// Whether a term of the normal equations is computed within 64 bits.
pub open spec fn term_fits(a: int, b: int) -> bool {
    &&& fits_i64(4 * (a * b))
    &&& fits_i64(4 * (a * b) + 16 * (a + b))
    &&& fits_i64(4 * (a * b) + 16 * (a + b) + 128)
}

/// Whether one sample is taken relative to the block within 32 bits, and its
/// terms are computed within 64.
pub open spec fn sample_fits(s: Sample, bw: int, bh: int, mvx: int, mvy: int) -> bool {
    let (sx, sy, dx, dy) = relative(s, bw, bh, mvx, mvy);
    &&& adst::fits_i32(sx) && adst::fits_i32(sy) && adst::fits_i32(dx) && adst::fits_i32(dy)
    &&& -0x8000_0000 < sx - dx <= 0x7fff_ffff
    &&& -0x8000_0000 < sy - dy <= 0x7fff_ffff
    &&& counts(s, bw, bh, mvx, mvy) ==> {
        &&& term_fits(sx, sx) && term_fits(sx, sy) && term_fits(sy, sy)
        &&& term_fits(sx, dx) && term_fits(sy, dx) && term_fits(sx, dy) && term_fits(sy, dy)
    }
}

/// Whether every sum over the samples stays within 64 bits.
pub open spec fn sums_fit(ss: Seq<Sample>, bw: int, bh: int, mvx: int, mvy: int) -> bool {
    &&& geometry_fits(bw, bh, mvx, mvy)
    &&& forall|i: int|
        0 <= i < ss.len() ==> sample_fits(#[trigger] ss[i], bw, bh, mvx, mvy)
    &&& forall|i: int, k: int|
        0 <= i <= ss.len() && 0 <= k < 7 ==> fits_i64(
            #[trigger] normal_sum(ss.take(i), bw, bh, mvx, mvy, k),
        )
}

/// `x` held to `lo..=hi`.
pub fn clamp(v: i64, lo: i64, hi: i64) -> (c: i64)
    requires
        lo <= hi,
    ensures
        c == bits::spec_clamp(v as int, lo as int, hi as int),
        lo <= c <= hi,
{
    if v < lo {
        lo
    } else if v > hi {
        hi
    } else {
        v
    }
}

/// `value` divided by `2^n`, rounding halves up.
pub fn round2(value: i64, n: u32) -> (y: i64)
    requires
        n < 63,
        value + bits::pow2(n as nat) <= 0x7fff_ffff_ffff_ffff,
    ensures
        y == bits::spec_round2(value as int, n as nat),
{
    proof {
        reveal(bits::spec_round2);
        bits::lemma_shl_one_i64(n);
        bits::lemma_pow2_positive(n as nat);
    }
    if n == 0 {
        value
    } else {
        proof {
            bits::lemma_shl_one_i64((n - 1) as u32);
            bits::lemma_pow2_positive((n - 1) as nat);
            bits::lemma_shr_i64((value + bits::pow2((n - 1) as nat)) as i64, n);
        }
        (value + (1i64 << (n - 1))) >> n
    }
}

/// `value` divided by `2^n`, rounding halves away from zero.
pub fn round2_signed(value: i64, n: u32) -> (y: i64)
    requires
        rounding_fits(value as int, n as int),
    ensures
        y == spec_round2_signed(value as int, n as int),
{
    proof {
        bits::lemma_pow2_positive(n as nat);
    }
    if value < 0 {
        let y: i64 = round2(-value, n);
        proof {
            lemma_round2_bounds(-value, n as nat);
        }
        -y
    } else {
        round2(value, n)
    }
}

/// Rounding a magnitude does not make it larger.
pub proof fn lemma_round2_bounds(x: int, n: nat)
    requires
        x >= 0,
    ensures
        0 <= bits::spec_round2(x, n) <= x,
{
    reveal(bits::spec_round2);
    if n > 0 {
        let h = bits::pow2((n - 1) as nat);
        bits::lemma_pow2_positive((n - 1) as nat);
        let q = (x + h) / (2 * h);
        bits::lemma_floor_bounds(x + h, 2 * h);
        assert(0 <= q <= x) by (nonlinear_arith)
            requires
                2 * h * q <= x + h < 2 * h * q + 2 * h,
                h >= 1,
                x >= 0,
        ;
    }
}

/// The index of the highest bit set.
pub fn get_msb64(n: u64) -> (m: u32)
    requires
        n > 0,
    ensures
        is_msb(n as int, m as int),
        m < 64,
{
    let mut rest: u64 = n;
    let mut m: u32 = 0;
    assert(bits::pow2(0) == 1);
    while rest > 1
        invariant
            rest >= 1,
            n > 0,
            m < 64,
            bits::pow2(m as nat) * rest <= n < bits::pow2(m as nat) * (rest + 1),
        decreases rest,
    {
        let ghost p = bits::pow2(m as nat);
        let half: u64 = rest / 2;
        proof {
            bits::lemma_pow2_positive(m as nat);
            assert(2 * p * half <= n < 2 * p * (half + 1)) by (nonlinear_arith)
                requires
                    p > 0,
                    p * rest <= n < p * (rest + 1),
                    2 * half <= rest < 2 * half + 2,
            ;
            assert(bits::pow2(m as nat + 1) == 2 * p);
            if m >= 63 {
                bits::lemma_pow2_monotonic(64, m as nat + 1);
                assert(bits::pow2(64) == 0x1_0000_0000_0000_0000) by {
                    bits::lemma_pow2_add(32, 32);
                    bits::lemma_pow2_values();
                }
                assert(2 * p * half >= 2 * p) by (nonlinear_arith)
                    requires
                        half >= 1,
                        p > 0,
                ;
                assert(false);
            }
        }
        rest = half;
        m = m + 1;
    }
    proof {
        let p = bits::pow2(m as nat);
        assert(p * 1 == p && p * 2 == 2 * p);
        assert(bits::pow2(m as nat + 1) == 2 * p);
    }
    m
}

/// No number has two highest bits.
pub proof fn highest_bit_is_unique(d: int, m: int, k: int)
    requires
        is_msb(d, m),
        is_msb(d, k),
    ensures
        m == k,
{
    if m < k {
        bits::lemma_pow2_monotonic(m as nat + 1, k as nat);
    } else if k < m {
        bits::lemma_pow2_monotonic(k as nat + 1, m as nat);
    }
}

/// The eight bits below the highest are at most 256 when rounded.
pub proof fn lemma_divisor_fraction(d: int, m: int)
    requires
        is_msb(d, m),
    ensures
        0 <= divisor_fraction(d, m) <= 256,
{
    let p = bits::pow2(m as nat);
    let e = d - p;
    assert(bits::pow2(m as nat + 1) == 2 * p);
    bits::lemma_pow2_values();
    if m > 8 {
        let n = (m - 8) as nat;
        let h = bits::pow2((n - 1) as nat);
        bits::lemma_pow2_positive((n - 1) as nat);
        bits::lemma_pow2_add(8, n);
        assert(p == 512 * h);
        assert(0 <= bits::spec_round2(e, n) <= 256) by {
            reveal(bits::spec_round2);
            bits::lemma_floor_bounds(e + h, 2 * h);
            let q = (e + h) / (2 * h);
            assert(0 <= q <= 256) by (nonlinear_arith)
                requires
                    2 * h * q <= e + h < 2 * h * q + 2 * h,
                    0 <= e < 512 * h,
                    h >= 1,
            ;
        }
    } else {
        let k = bits::pow2((8 - m) as nat);
        bits::lemma_pow2_positive((8 - m) as nat);
        bits::lemma_pow2_add(m as nat, (8 - m) as nat);
        assert(0 <= e * k <= 256) by (nonlinear_arith)
            requires
                0 <= e < p,
                p * k == 256,
                k > 0,
        ;
    }
}

/// Resolves `d` into a multiplier and a shift: `1 / d` is about
/// `mult / 2^shift`.
pub fn resolve_divisor_64(d: u64) -> (r: (i64, i32))
    requires
        0 < d <= 0x7fff_ffff_ffff_ffff,
    ensures
        14 <= r.1 <= 76,
        is_msb(d as int, r.1 - 14),
        r.0 == DIV_LUT[divisor_fraction(d as int, r.1 - 14)],
        8192 <= r.0 <= 16384,
{
    let m: u32 = get_msb64(d);
    proof {
        lemma_divisor_fraction(d as int, m as int);
        lemma_lut_range();
        if m >= 63 {
            bits::lemma_pow2_monotonic(63, m as nat);
            assert(bits::pow2(63) == 0x8000_0000_0000_0000) by {
                bits::lemma_pow2_add(31, 32);
                bits::lemma_pow2_values();
            }
            assert(false);
        }
        bits::lemma_shl_one_i64(m);
        assert(bits::pow2(m as nat + 1) == 2 * bits::pow2(m as nat));
    }
    let e: i64 = d as i64 - (1i64 << m);
    let f: i64 = if m > 8 {
        proof {
            bits::lemma_pow2_monotonic((m - 8) as nat, (m - 1) as nat);
            bits::lemma_pow2_monotonic((m - 1) as nat, 61);
            assert(bits::pow2(62) == 0x4000_0000_0000_0000) by {
                bits::lemma_pow2_add(31, 31);
                bits::lemma_pow2_values();
            }
            assert(bits::pow2(62) == 2 * bits::pow2(61));
            bits::lemma_pow2_monotonic(m as nat, 62);
        }
        round2(e, m - 8)
    } else {
        proof {
            bits::lemma_shl_one_i64((8 - m) as u32);
            bits::lemma_pow2_monotonic((8 - m) as nat, 8);
            bits::lemma_pow2_monotonic(m as nat, 8);
            bits::lemma_pow2_positive((8 - m) as nat);
            bits::lemma_pow2_values();
        }
        e * (1i64 << (8 - m))
    };
    (DIV_LUT[f as usize] as i64, m as i32 + 14)
}

/// Every reciprocal in the table is between a half and one.
pub proof fn lemma_lut_range()
    ensures
        forall|i: int| 0 <= i <= 256 ==> 8192 <= #[trigger] DIV_LUT[i] <= 16384,
{
}

/// Resolves a 32-bit divisor.
pub fn resolve_divisor_32(d: u32) -> (r: (i64, i32))
    requires
        d > 0,
    ensures
        14 <= r.1 <= 45,
        is_msb(d as int, r.1 - 14),
        r.0 == DIV_LUT[divisor_fraction(d as int, r.1 - 14)],
        8192 <= r.0 <= 16384,
{
    let r: (i64, i32) = resolve_divisor_64(d as u64);
    proof {
        if r.1 - 14 >= 32 {
            bits::lemma_pow2_monotonic(32, (r.1 - 14) as nat);
            bits::lemma_pow2_values();
        }
    }
    r
}

/// Four times a product of two 32-bit numbers.
fn four_times(a: i64, b: i64) -> (p: i64)
    requires
        adst::fits_i32(a as int),
        adst::fits_i32(b as int),
        fits_i64(4 * (a * b)),
    ensures
        p == 4 * (a * b),
{
    assert(-0x4000_0000_0000_0000 <= a * b <= 0x4000_0000_0000_0000) by (nonlinear_arith)
        requires
            -0x8000_0000 <= a <= 0x7fff_ffff,
            -0x8000_0000 <= b <= 0x7fff_ffff,
    ;
    (a * b) * 4
}

/// A sixteenth, rounded down.
fn sixteenth(x: i64) -> (y: i64)
    ensures
        y == x as int / 16,
{
    proof {
        bits::lemma_shr_i64(x, 4);
        bits::lemma_pow2_values();
    }
    x >> 4u32
}

fn ls_square(a: i64) -> (y: i64)
    requires
        adst::fits_i32(a as int),
        term_fits(a as int, a as int),
    ensures
        y == spec_ls_square(a as int),
{
    sixteenth(four_times(a, a) + a * 32 + 128)
}

fn ls_product1(a: i64, b: i64) -> (y: i64)
    requires
        adst::fits_i32(a as int),
        adst::fits_i32(b as int),
        term_fits(a as int, b as int),
    ensures
        y == spec_ls_product1(a as int, b as int),
{
    sixteenth(four_times(a, b) + (a + b) * 16 + 64)
}

fn ls_product2(a: i64, b: i64) -> (y: i64)
    requires
        adst::fits_i32(a as int),
        adst::fits_i32(b as int),
        term_fits(a as int, b as int),
    ensures
        y == spec_ls_product2(a as int, b as int),
{
    sixteenth(four_times(a, b) + (a + b) * 16 + 128)
}

/// `x / 2 - 1`, the quotient rounded toward zero.
pub fn centre_of(size: i32) -> (c: i32)
    requires
        adst::fits_i32(own_centre(size as int)),
    ensures
        c == own_centre(size as int),
{
    let half: i32 = if size < 0 {
        (-((-(size as i64)) / 2)) as i32
    } else {
        size / 2
    };
    half - 1
}

fn abs_i32(x: i32) -> (y: i32)
    requires
        x > -0x8000_0000,
    ensures
        y == samples::magnitude(x as int),
{
    if x < 0 {
        -x
    } else {
        x
    }
}

/// The normal equations of the samples that count.
pub fn normal_equations(ss: &[Sample], bw: i32, bh: i32, mvx: i32, mvy: i32) -> (n: Normal)
    requires
        sums_fit(ss@, bw as int, bh as int, mvx as int, mvy as int),
    ensures
        is_normal(n, ss@, bw as int, bh as int, mvx as int, mvy as int),
{
    let suy: i32 = centre_of(bh) * 8;
    let sux: i32 = centre_of(bw) * 8;
    let duy: i32 = suy + mvy;
    let dux: i32 = sux + mvx;
    let mut n: Normal = Normal { a00: 0, a01: 0, a11: 0, bx0: 0, bx1: 0, by0: 0, by1: 0 };
    for i in 0..ss.len()
        invariant
            sums_fit(ss@, bw as int, bh as int, mvx as int, mvy as int),
            sux == own_centre(bw as int) * 8,
            suy == own_centre(bh as int) * 8,
            dux == sux + mvx,
            duy == suy + mvy,
            is_normal(n, ss@.take(i as int), bw as int, bh as int, mvx as int, mvy as int),
    {
        let s: Sample = ss[i];
        proof {
            assert(sample_fits(ss@[i as int], bw as int, bh as int, mvx as int, mvy as int));
            let next = ss@.take(i + 1);
            assert(next.drop_last() =~= ss@.take(i as int));
            assert(next.last() == s);
            assert forall|k: int| 0 <= k < 7 implies fits_i64(
                #[trigger] normal_sum(next, bw as int, bh as int, mvx as int, mvy as int, k),
            ) by {}
            assert(fits_i64(normal_sum(next, bw as int, bh as int, mvx as int, mvy as int, 0)));
            assert(fits_i64(normal_sum(next, bw as int, bh as int, mvx as int, mvy as int, 1)));
            assert(fits_i64(normal_sum(next, bw as int, bh as int, mvx as int, mvy as int, 2)));
            assert(fits_i64(normal_sum(next, bw as int, bh as int, mvx as int, mvy as int, 3)));
            assert(fits_i64(normal_sum(next, bw as int, bh as int, mvx as int, mvy as int, 4)));
            assert(fits_i64(normal_sum(next, bw as int, bh as int, mvx as int, mvy as int, 5)));
            assert(fits_i64(normal_sum(next, bw as int, bh as int, mvx as int, mvy as int, 6)));
        }
        let dx: i32 = s.pts2.0 - dux;
        let dy: i32 = s.pts2.1 - duy;
        let sx: i32 = s.pts1.0 - sux;
        let sy: i32 = s.pts1.1 - suy;
        if abs_i32(sx - dx) < LS_MV_MAX && abs_i32(sy - dy) < LS_MV_MAX {
            let (sx, sy, dx, dy): (i64, i64, i64, i64) = (
                sx as i64,
                sy as i64,
                dx as i64,
                dy as i64,
            );
            n = Normal {
                a00: n.a00 + ls_square(sx),
                a01: n.a01 + ls_product1(sx, sy),
                a11: n.a11 + ls_square(sy),
                bx0: n.bx0 + ls_product2(sx, dx),
                bx1: n.bx1 + ls_product1(sy, dx),
                by0: n.by0 + ls_product1(sx, dy),
                by1: n.by1 + ls_product2(sy, dy),
            };
        }
    }
    assert(ss@.take(ss@.len() as int) =~= ss@);
    n
}

} // verus!
