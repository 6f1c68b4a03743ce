//! The integer ADST of 4, 8 and 16 points, and the identity transform.
use crate::bits;
use crate::transform::cosine;
use crate::transform::cosine::cos128;
use crate::transform::dct;
use crate::transform::lane;
use crate::transform::lane::{clamp_to, round_cos};
use vstd::prelude::*;

verus! {

/// The sines the 4-point ADST is made of, in units of 1/4096.
pub const SINPI: [i64; 5] = [0, 1321, 2482, 3344, 3803];

/// The square root of two, in units of 1/4096.
pub const NEW_SQRT2: i64 = 5793;

/// Where each output of the 8-point ADST comes from, from the last stage.
pub const ADST8_ORDER: [usize; 8] = [0, 4, 6, 2, 3, 7, 5, 1];

/// Where each output of the 16-point ADST comes from, from the last stage.
pub const ADST16_ORDER: [usize; 16] = [0, 8, 12, 4, 6, 14, 10, 2, 3, 11, 15, 7, 5, 13, 9, 1];

/// Whether `x` is an `i32`.
pub open spec fn fits_i32(x: int) -> bool {
    -0x8000_0000 <= x <= 0x7fff_ffff
}

/// The output orders name entries that exist.
proof fn lemma_orders()
    ensures
        forall|i: int| 0 <= i < 8 ==> 0 <= #[trigger] ADST8_ORDER[i] < 8,
        forall|i: int| 0 <= i < 16 ==> 0 <= #[trigger] ADST16_ORDER[i] < 16,
{
}

/// Half a rotation: a rounded weighted sum of two entries, of which the low
/// 32 bits are kept.
pub open spec fn spec_half_btf(w0: int, in0: i32, w1: int, in1: i32) -> i32 {
    lane::spec_round_cos(w0 * in0 + w1 * in1)
}

/// The 4-point inverse ADST: the sine matrix, each row rounded.
pub open spec fn spec_inverse_adst4(t: Seq<i32>) -> Seq<i32> {
    seq![
        lane::spec_round_cos(1321 * t[0] + 3344 * t[1] + 3803 * t[2] + 2482 * t[3]),
        lane::spec_round_cos(2482 * t[0] + 3344 * t[1] - 1321 * t[2] - 3803 * t[3]),
        lane::spec_round_cos(3344 * (t[0] - t[2] + t[3])),
        lane::spec_round_cos(3803 * t[0] - 3344 * t[1] + 2482 * t[2] - 1321 * t[3]),
    ]
}

/// Output `half` of the pair `(x, y)` turned by `angle`.
pub open spec fn turned(x: i32, y: i32, angle: int, half: int) -> i32 {
    let (c, s) = (cosine::spec_cos128(angle), cosine::spec_cos128(64 - angle));
    if half == 0 {
        spec_half_btf(c, x, s, y)
    } else {
        spec_half_btf(s, x, -c, y)
    }
}

/// Output `half` of the pair `(x, y)` turned by `angle` the other way.
pub open spec fn turned_back(x: i32, y: i32, angle: int, half: int) -> i32 {
    let (c, s) = (cosine::spec_cos128(angle), cosine::spec_cos128(64 - angle));
    if half == 0 {
        spec_half_btf(-s, x, c, y)
    } else {
        spec_half_btf(c, x, s, y)
    }
}

/// The first stage: entries taken alternately from the end and from the
/// start, each pair turned by an odd multiple of the smallest angle.
pub open spec fn adst_first(t: Seq<i32>) -> Seq<i32> {
    let n = t.len() as int;
    Seq::new(
        t.len(),
        |i: int|
            {
                let p = i / 2;
                turned(t[n - 1 - 2 * p], t[2 * p], if n == 8 { 4 + 16 * p } else { 2 + 8 * p }, i % 2)
            },
    )
}

/// Sums and differences of entries `d` apart, held to `r` bits.
pub open spec fn adst_sums(t: Seq<i32>, d: int, r: int) -> Seq<i32> {
    Seq::new(
        t.len(),
        |i: int|
            if (i / d) % 2 == 0 {
                lane::spec_clamp_range(t[i] + t[i + d], r) as i32
            } else {
                lane::spec_clamp_range(t[i - d] - t[i], r) as i32
            },
    )
}

/// Whether no sum or difference of entries `d` apart overflows.
pub open spec fn sums_fit(t: Seq<i32>, d: int) -> bool {
    forall|i: int|
        0 <= i < t.len() && (i / d) % 2 == 0 ==> #[trigger] fits_i32(t[i] + t[i + d]) && fits_i32(
            t[i] - t[i + d],
        )
}

/// The upper half of every group of `2 * d` entries turned pair by pair, the
/// second half of the pairs the other way.
pub open spec fn adst_turns(t: Seq<i32>, d: int) -> Seq<i32> {
    Seq::new(
        t.len(),
        |i: int|
            if (i / d) % 2 == 0 {
                t[i]
            } else {
                let p = (i % d) / 2;
                let (x, y) = (t[i - i % 2], t[i - i % 2 + 1]);
                if d == 2 {
                    turned(x, y, 32, i % 2)
                } else if p < d / 4 {
                    turned(x, y, if d == 4 { 16 } else { 8 + 32 * p }, i % 2)
                } else {
                    turned_back(x, y, if d == 4 { 16 } else { 8 + 32 * (p - d / 4) }, i % 2)
                }
            },
    )
}

/// The 8-point network before its outputs are put in order.
pub open spec fn adst8_stages(t: Seq<i32>, r: int) -> Seq<i32> {
    adst_turns(adst_sums(adst_turns(adst_sums(adst_first(t), 4, r), 4), 2, r), 2)
}

/// The 16-point network before its outputs are put in order.
pub open spec fn adst16_stages(t: Seq<i32>, r: int) -> Seq<i32> {
    let a = adst_turns(adst_sums(adst_first(t), 8, r), 8);
    adst_turns(adst_sums(adst_turns(adst_sums(a, 4, r), 4), 2, r), 2)
}

/// The entries of the last stage in output order, every other one negated.
pub open spec fn adst_ordered(s: Seq<i32>) -> Seq<i32> {
    Seq::new(
        s.len(),
        |i: int|
            {
                let v = s[if s.len() == 8 { ADST8_ORDER[i] as int } else { ADST16_ORDER[i] as int }];
                if i % 2 == 0 {
                    v
                } else {
                    (-v) as i32
                }
            },
    )
}

/// Whether every entry has a negation.
pub open spec fn negations_fit(s: Seq<i32>) -> bool {
    forall|i: int| 0 <= i < s.len() ==> #[trigger] s[i] > -0x8000_0000
}

/// The inverse ADST of 4, 8 or 16 coefficients, sums held to `r` bits.
pub open spec fn spec_inverse_adst(t: Seq<i32>, r: int) -> Seq<i32> {
    if t.len() == 4 {
        spec_inverse_adst4(t)
    } else if t.len() == 8 {
        adst_ordered(adst8_stages(t, r))
    } else {
        adst_ordered(adst16_stages(t, r))
    }
}

/// Whether the 8-point network computes `t` without any overflow.
pub open spec fn adst8_fits(t: Seq<i32>, r: int) -> bool {
    &&& sums_fit(adst_first(t), 4)
    &&& sums_fit(adst_turns(adst_sums(adst_first(t), 4, r), 4), 2)
    &&& negations_fit(adst8_stages(t, r))
}

/// Whether the 16-point network computes `t` without any overflow.
pub open spec fn adst16_fits(t: Seq<i32>, r: int) -> bool {
    let a = adst_turns(adst_sums(adst_first(t), 8, r), 8);
    &&& sums_fit(adst_first(t), 8)
    &&& sums_fit(a, 4)
    &&& sums_fit(adst_turns(adst_sums(a, 4, r), 4), 2)
    &&& negations_fit(adst16_stages(t, r))
}

/// Whether the inverse ADST computes `t` without any overflow.
#[verifier::opaque]
pub open spec fn adst_fits(t: Seq<i32>, r: int) -> bool {
    if t.len() == 4 {
        true
    } else if t.len() == 8 {
        adst8_fits(t, r)
    } else {
        adst16_fits(t, r)
    }
}

/// The scale the identity transform of `side` points applies.
pub open spec fn identity_scaled(x: i32, side: int) -> i32 {
    if side == 4 {
        lane::spec_round_cos(5793 * x)
    } else if side == 8 {
        (2 * x) as i32
    } else if side == 16 {
        lane::spec_round_cos(11586 * x)
    } else {
        (4 * x) as i32
    }
}

/// The inverse identity transform of 4, 8, 16 or 32 coefficients.
pub open spec fn spec_inverse_identity(t: Seq<i32>) -> Seq<i32> {
    Seq::new(t.len(), |i: int| identity_scaled(t[i], t.len() as int))
}

/// A weighted sum of two entries, rounded back to the entries' own scale.
fn half_btf(w0: i32, in0: i32, w1: i32, in1: i32) -> (y: i32)
    requires
        -4096 <= w0 <= 4096,
        -4096 <= w1 <= 4096,
    ensures
        y == spec_half_btf(w0 as int, in0, w1 as int, in1),
{
    let (a, b): (i64, i64) = (w0 as i64, w1 as i64);
    let (x, y): (i64, i64) = (in0 as i64, in1 as i64);
    assert(-0x800_0000_0000 <= a * x <= 0x800_0000_0000) by (nonlinear_arith)
        requires
            -4096 <= a <= 4096,
            -0x8000_0000 <= x <= 0x7fff_ffff,
    ;
    assert(-0x800_0000_0000 <= b * y <= 0x800_0000_0000) by (nonlinear_arith)
        requires
            -4096 <= b <= 4096,
            -0x8000_0000 <= y <= 0x7fff_ffff,
    ;
    round_cos(a * x + b * y)
}

/// The 4-point inverse ADST, in place.
///
/// No stage of it is clamped.
pub fn inverse_adst4(t: &mut Vec<i32>)
    requires
        old(t).len() == 4,
    ensures
        final(t)@ == spec_inverse_adst4(old(t)@),
{
    let ghost before = t@;
    let (x0, x1, x2, x3): (i64, i64, i64, i64) = (
        t[0] as i64,
        t[1] as i64,
        t[2] as i64,
        t[3] as i64,
    );
    let a: i64 = SINPI[1] * x0 + SINPI[4] * x2 + SINPI[2] * x3;
    let b: i64 = SINPI[2] * x0 - SINPI[1] * x2 - SINPI[4] * x3;
    let c: i64 = SINPI[3] * x1;
    t.set(0, round_cos(a + c));
    t.set(1, round_cos(b + c));
    t.set(2, round_cos(SINPI[3] * ((x0 - x2) + x3)));
    t.set(3, round_cos((a + b) - c));
    assert(t@ =~= spec_inverse_adst4(before));
}

/// The first stage of the 8- and 16-point networks.
fn first_stage(t: &Vec<i32>) -> (out: Vec<i32>)
    requires
        t.len() == 8 || t.len() == 16,
    ensures
        out@ == adst_first(t@),
{
    let n: usize = t.len();
    let mut out: Vec<i32> = Vec::new();
    for p in 0..n / 2
        invariant
            n == t.len(),
            n == 8 || n == 16,
            out.len() == 2 * p,
            forall|i: int| 0 <= i < 2 * p ==> out@[i] == adst_first(t@)[i],
    {
        let angle: i32 = if n == 8 {
            4 + 16 * (p as i32)
        } else {
            2 + 8 * (p as i32)
        };
        let (c, s): (i32, i32) = (cos128(angle), cos128(64 - angle));
        let (x, y): (i32, i32) = (t[n - 1 - 2 * p], t[2 * p]);
        out.push(half_btf(c, x, s, y));
        out.push(half_btf(s, x, -c, y));
        assert((2 * p) / 2 == p && (2 * p + 1) / 2 == p);
    }
    assert(out@ =~= adst_first(t@));
    out
}

/// The partner `d` entries away from entry `i` lies in the same group.
proof fn lemma_partner(i: int, d: int, n: int)
    requires
        n == 8 || n == 16,
        d == 2 || d == 4 || d == 8,
        2 * d <= n,
        0 <= i < n,
    ensures
        (i / d) % 2 == 0 ==> i + d < n && ((i + d) / d) % 2 == 1,
        (i / d) % 2 != 0 ==> i >= d && ((i - d) / d) % 2 == 0,
        (i / d) % 2 != 0 ==> ((i - i % 2) / d) % 2 != 0 && ((i - i % 2 + 1) / d) % 2 != 0,
        i - i % 2 + 1 < n,
{
    if d == 2 {
    } else if d == 4 {
    } else {
    }
}

/// Sums and differences of entries `d` apart, held to `r` bits.
fn sums(t: &Vec<i32>, d: usize, r: usize) -> (out: Vec<i32>)
    requires
        t.len() == 8 || t.len() == 16,
        d == 2 || d == 4 || d == 8,
        2 * d <= t.len(),
        1 <= r <= 32,
        sums_fit(t@, d as int),
    ensures
        out@ == adst_sums(t@, d as int, r as int),
{
    let n: usize = t.len();
    let mut out: Vec<i32> = Vec::new();
    for i in 0..n
        invariant
            n == t.len(),
            n == 8 || n == 16,
            d == 2 || d == 4 || d == 8,
            2 * d <= n,
            1 <= r <= 32,
            sums_fit(t@, d as int),
            out.len() == i,
            forall|k: int| 0 <= k < i ==> out@[k] == adst_sums(t@, d as int, r as int)[k],
    {
        proof {
            lemma_partner(i as int, d as int, n as int);
        }
        let v: i32 = if (i / d) % 2 == 0 {
            assert(fits_i32(t@[i as int] + t@[i + d]));
            t[i] + t[i + d]
        } else {
            assert(fits_i32(t@[i - d] + t@[i - d + d]));
            t[i - d] - t[i]
        };
        out.push(clamp_to(v, r));
    }
    assert(out@ =~= adst_sums(t@, d as int, r as int));
    out
}

/// The upper half of every group of `2 * d` entries turned pair by pair.
fn turns(t: &Vec<i32>, d: usize) -> (out: Vec<i32>)
    requires
        t.len() == 8 || t.len() == 16,
        d == 2 || d == 4 || d == 8,
        2 * d <= t.len(),
    ensures
        out@ == adst_turns(t@, d as int),
{
    let n: usize = t.len();
    let mut out: Vec<i32> = Vec::new();
    for i in 0..n
        invariant
            n == t.len(),
            n == 8 || n == 16,
            d == 2 || d == 4 || d == 8,
            2 * d <= n,
            out.len() == i,
            forall|k: int| 0 <= k < i ==> out@[k] == adst_turns(t@, d as int)[k],
    {
        let half: usize = i % 2;
        let v: i32 = if (i / d) % 2 == 0 {
            t[i]
        } else {
            let p: usize = (i % d) / 2;
            let (x, y): (i32, i32) = (t[i - half], t[i - half + 1]);
            let back: bool = d != 2 && p >= d / 4;
            let step: usize = if back {
                p - d / 4
            } else {
                p
            };
            let angle: i32 = if d == 2 {
                32
            } else if d == 4 {
                16
            } else {
                8 + 32 * (step as i32)
            };
            let (c, s): (i32, i32) = (cos128(angle), cos128(64 - angle));
            match (back, half == 0) {
                (false, true) => half_btf(c, x, s, y),
                (false, false) => half_btf(s, x, -c, y),
                (true, true) => half_btf(-s, x, c, y),
                (true, false) => half_btf(c, x, s, y),
            }
        };
        out.push(v);
    }
    assert(out@ =~= adst_turns(t@, d as int));
    out
}

/// The entries of the last stage in output order, every other one negated.
fn ordered(s: &Vec<i32>) -> (out: Vec<i32>)
    requires
        s.len() == 8 || s.len() == 16,
        negations_fit(s@),
    ensures
        out@ == adst_ordered(s@),
{
    let n: usize = s.len();
    let mut out: Vec<i32> = Vec::new();
    proof {
        lemma_orders();
    }
    for i in 0..n
        invariant
            n == s.len(),
            n == 8 || n == 16,
            negations_fit(s@),
            forall|k: int| 0 <= k < 8 ==> 0 <= #[trigger] ADST8_ORDER[k] < 8,
            forall|k: int| 0 <= k < 16 ==> 0 <= #[trigger] ADST16_ORDER[k] < 16,
            out.len() == i,
            forall|k: int| 0 <= k < i ==> out@[k] == adst_ordered(s@)[k],
    {
        let from: usize = if n == 8 {
            ADST8_ORDER[i]
        } else {
            ADST16_ORDER[i]
        };
        let v: i32 = s[from];
        out.push(
            if i % 2 == 0 {
                v
            } else {
                -v
            },
        );
    }
    assert(out@ =~= adst_ordered(s@));
    out
}

/// The 8-point inverse ADST, in place, sums held to `r` bits.
pub fn inverse_adst8(t: &mut Vec<i32>, r: usize)
    requires
        old(t).len() == 8,
        1 <= r <= 32,
        adst8_fits(old(t)@, r as int),
    ensures
        final(t)@ == spec_inverse_adst(old(t)@, r as int),
{
    let a: Vec<i32> = first_stage(t);
    let b: Vec<i32> = turns(&sums(&a, 4, r), 4);
    let c: Vec<i32> = turns(&sums(&b, 2, r), 2);
    *t = ordered(&c);
}

/// The 16-point inverse ADST, in place, sums held to `r` bits.
pub fn inverse_adst16(t: &mut Vec<i32>, r: usize)
    requires
        old(t).len() == 16,
        1 <= r <= 32,
        adst16_fits(old(t)@, r as int),
    ensures
        final(t)@ == spec_inverse_adst(old(t)@, r as int),
{
    let a: Vec<i32> = first_stage(t);
    let b: Vec<i32> = turns(&sums(&a, 8, r), 8);
    let c: Vec<i32> = turns(&sums(&b, 4, r), 4);
    let d: Vec<i32> = turns(&sums(&c, 2, r), 2);
    *t = ordered(&d);
}

/// The inverse identity transform, in place: a scale that depends on the size
/// alone, of which the low 32 bits are kept.
pub fn inverse_identity(t: &mut Vec<i32>)
    requires
        old(t).len() == 4 || old(t).len() == 8 || old(t).len() == 16 || old(t).len() == 32,
    ensures
        final(t)@ == spec_inverse_identity(old(t)@),
{
    let ghost before = t@;
    let n: usize = t.len();
    for i in 0..n
        invariant
            n == 4 || n == 8 || n == 16 || n == 32,
            t.len() == n == before.len(),
            forall|k: int| 0 <= k < i ==> t@[k] == identity_scaled(before[k], n as int),
            forall|k: int| i <= k < n ==> t@[k] == before[k],
    {
        let x: i64 = t[i] as i64;
        let v: i32 = match n {
            4 => round_cos(NEW_SQRT2 * x),
            8 => (x * 2) as i32,
            16 => round_cos(2 * (NEW_SQRT2 * x)),
            _ => (x * 4) as i32,
        };
        t.set(i, v);
    }
    assert(t@ =~= spec_inverse_identity(before));
}

/// Whether no entry is larger than `m` in magnitude.
pub open spec fn within(t: Seq<i32>, m: int) -> bool {
    forall|i: int| 0 <= i < t.len() ==> -m <= #[trigger] t[i] <= m
}

proof fn lemma_half_btf_within(w0: int, in0: i32, w1: int, in1: i32, m: int)
    requires
        -4096 <= w0 <= 4096,
        -4096 <= w1 <= 4096,
        -m <= in0 <= m,
        -m <= in1 <= m,
        0 <= m <= 0x1000_0000,
    ensures
        -2 * m <= spec_half_btf(w0, in0, w1, in1) <= 2 * m,
{
    assert(-4096 * m <= w0 * in0 <= 4096 * m) by (nonlinear_arith)
        requires
            -4096 <= w0 <= 4096,
            -m <= in0 <= m,
    ;
    assert(-4096 * m <= w1 * in1 <= 4096 * m) by (nonlinear_arith)
        requires
            -4096 <= w1 <= 4096,
            -m <= in1 <= m,
    ;
}

proof fn lemma_turned_within(x: i32, y: i32, angle: int, half: int, m: int)
    requires
        -m <= x <= m,
        -m <= y <= m,
        0 <= m <= 0x1000_0000,
    ensures
        -2 * m <= turned(x, y, angle, half) <= 2 * m,
        -2 * m <= turned_back(x, y, angle, half) <= 2 * m,
{
    let (c, s) = (cosine::spec_cos128(angle), cosine::spec_cos128(64 - angle));
    cosine::cosines_are_at_most_one(angle);
    cosine::cosines_are_at_most_one(64 - angle);
    lemma_half_btf_within(c, x, s, y, m);
    lemma_half_btf_within(s, x, -c, y, m);
    lemma_half_btf_within(-s, x, c, y, m);
}

proof fn lemma_first_within(t: Seq<i32>, m: int)
    requires
        t.len() == 8 || t.len() == 16,
        within(t, m),
        0 <= m <= 0x1000_0000,
    ensures
        within(adst_first(t), 2 * m),
{
    let n = t.len() as int;
    assert forall|i: int| 0 <= i < n implies -2 * m <= #[trigger] adst_first(t)[i] <= 2 * m by {
        let p = i / 2;
        lemma_turned_within(
            t[n - 1 - 2 * p],
            t[2 * p],
            if n == 8 {
                4 + 16 * p
            } else {
                2 + 8 * p
            },
            i % 2,
            m,
        );
    }
}

proof fn lemma_turns_within(t: Seq<i32>, d: int, m: int)
    requires
        t.len() == 8 || t.len() == 16,
        d == 2 || d == 4 || d == 8,
        2 * d <= t.len(),
        within(t, m),
        0 <= m <= 0x1000_0000,
    ensures
        within(adst_turns(t, d), 2 * m),
{
    assert forall|i: int| 0 <= i < t.len() implies -2 * m <= #[trigger] adst_turns(t, d)[i] <= 2
        * m by {
        lemma_partner(i, d, t.len() as int);
        if (i / d) % 2 != 0 {
            let p = (i % d) / 2;
            let (x, y) = (t[i - i % 2], t[i - i % 2 + 1]);
            lemma_turned_within(x, y, 32, i % 2, m);
            lemma_turned_within(x, y, 16, i % 2, m);
            lemma_turned_within(x, y, 8 + 32 * p, i % 2, m);
            lemma_turned_within(x, y, 8 + 32 * (p - d / 4), i % 2, m);
        }
    }
}

proof fn lemma_sums_within(t: Seq<i32>, d: int, r: int)
    requires
        t.len() == 8 || t.len() == 16,
        1 <= r <= 29,
    ensures
        within(adst_sums(t, d, r), 0x1000_0000),
{
    bits::lemma_pow2_monotonic((r - 1) as nat, 28);
    assert(bits::pow2(28) == 0x1000_0000) by {
        reveal_with_fuel(bits::pow2, 29);
    }
    let out = adst_sums(t, d, r);
    assert forall|i: int| 0 <= i < out.len() implies -0x1000_0000 <= #[trigger] out[i]
        <= 0x1000_0000 by {
        lane::lemma_clamp_range(t[i] + t[i + d], r);
        lane::lemma_clamp_range(t[i - d] - t[i], r);
    }
}

proof fn lemma_sums_fit(t: Seq<i32>, d: int)
    requires
        t.len() == 8 || t.len() == 16,
        d == 2 || d == 4 || d == 8,
        2 * d <= t.len(),
        within(t, 0x2000_0000),
    ensures
        sums_fit(t, d),
{
    assert forall|i: int| 0 <= i < t.len() && (i / d) % 2 == 0 implies #[trigger] fits_i32(
        t[i] + t[i + d],
    ) && fits_i32(t[i] - t[i + d]) by {
        lemma_partner(i, d, t.len() as int);
    }
}

/// Coefficients of up to 29 bits never overflow the ADST while its sums are
/// held to 29 bits or fewer.
pub proof fn adst_of_29_bits_fits(t: Seq<i32>, r: int)
    requires
        t.len() == 4 || t.len() == 8 || t.len() == 16,
        within(t, 0x1000_0000),
        1 <= r <= 29,
    ensures
        adst_fits(t, r),
{
    reveal(adst_fits);
    if t.len() == 8 {
        lemma_first_within(t, 0x1000_0000);
        let f = adst_first(t);
        lemma_sums_fit(f, 4);
        lemma_sums_within(f, 4, r);
        let a = adst_sums(f, 4, r);
        lemma_turns_within(a, 4, 0x1000_0000);
        let b = adst_turns(a, 4);
        lemma_sums_fit(b, 2);
        lemma_sums_within(b, 2, r);
        lemma_turns_within(adst_sums(b, 2, r), 2, 0x1000_0000);
    } else if t.len() == 16 {
        lemma_first_within(t, 0x1000_0000);
        let f = adst_first(t);
        lemma_sums_fit(f, 8);
        lemma_sums_within(f, 8, r);
        let a = adst_sums(f, 8, r);
        lemma_turns_within(a, 8, 0x1000_0000);
        let b = adst_turns(a, 8);
        lemma_sums_fit(b, 4);
        lemma_sums_within(b, 4, r);
        let c = adst_sums(b, 4, r);
        lemma_turns_within(c, 4, 0x1000_0000);
        let e = adst_turns(c, 4);
        lemma_sums_fit(e, 2);
        lemma_sums_within(e, 2, r);
        lemma_turns_within(adst_sums(e, 2, r), 2, 0x1000_0000);
    }
}

proof fn lemma_first_of_zeros(n: nat)
    requires
        n == 8 || n == 16,
    ensures
        adst_first(dct::zeros(n)) == dct::zeros(n),
        adst_ordered(dct::zeros(n)) == dct::zeros(n),
{
    let z = dct::zeros(n);
    lemma_first_within(z, 0);
    assert(adst_first(z) =~= z);
    lemma_orders();
    let o = adst_ordered(z);
    assert forall|i: int| 0 <= i < n implies #[trigger] o[i] == 0 by {
        assert(0 <= ADST8_ORDER[i] < 8 || n == 16);
        assert(0 <= ADST16_ORDER[i] < 16);
    }
    assert(o =~= z);
}

proof fn lemma_stages_of_zeros(n: nat, d: int, r: int)
    requires
        n == 8 || n == 16,
        d == 2 || d == 4 || d == 8,
        2 * d <= n,
        1 <= r <= 32,
    ensures
        adst_sums(dct::zeros(n), d, r) == dct::zeros(n),
        adst_turns(dct::zeros(n), d) == dct::zeros(n),
{
    let z = dct::zeros(n);
    lane::lemma_clamp_range(0, r);
    assert forall|i: int| 0 <= i < n implies #[trigger] adst_sums(z, d, r)[i] == 0 by {
        lemma_partner(i, d, n as int);
    }
    assert(adst_sums(z, d, r) =~= z);
    lemma_turns_within(z, d, 0);
    assert(adst_turns(z, d) =~= z);
}

/// Zeros transform to zeros through the ADST and the identity, and never
/// overflow.
pub proof fn adst_and_identity_of_zeros_are_zeros(n: nat, r: int)
    requires
        1 <= r <= 32,
    ensures
        n == 4 || n == 8 || n == 16 ==> spec_inverse_adst(dct::zeros(n), r) == dct::zeros(n),
        n == 4 || n == 8 || n == 16 || n == 32 ==> spec_inverse_identity(dct::zeros(n))
            == dct::zeros(n),
{
    let z = dct::zeros(n);
    if n == 4 {
        assert(spec_inverse_adst4(z) =~= z);
    } else if n == 8 {
        lemma_first_of_zeros(8);
        lemma_stages_of_zeros(8, 4, r);
        lemma_stages_of_zeros(8, 2, r);
    } else if n == 16 {
        lemma_first_of_zeros(16);
        lemma_stages_of_zeros(16, 8, r);
        lemma_stages_of_zeros(16, 4, r);
        lemma_stages_of_zeros(16, 2, r);
    }
    if n == 4 || n == 8 || n == 16 || n == 32 {
        assert(spec_inverse_identity(z) =~= z);
    }
}

} // verus!
