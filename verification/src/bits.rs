//! Powers of two, and what the machine's shifts mean as arithmetic.
use vstd::prelude::*;

verus! {

/// Two to the power `n`.
pub open spec fn pow2(n: nat) -> int
    decreases n,
{
    if n == 0 {
        1
    } else {
        2 * pow2((n - 1) as nat)
    }
}

/// Round2: divide by `2^n`, rounding halves up.
#[verifier::opaque]
pub open spec fn spec_round2(x: int, n: nat) -> int {
    if n == 0 {
        x
    } else {
        (x + pow2((n - 1) as nat)) / pow2(n)
    }
}

/// The nearest value to `x` in `lo..=hi`.
pub open spec fn spec_clamp(x: int, lo: int, hi: int) -> int {
    if x < lo {
        lo
    } else if x > hi {
        hi
    } else {
        x
    }
}

pub proof fn lemma_pow2_positive(n: nat)
    ensures
        pow2(n) > 0,
    decreases n,
{
    if n > 0 {
        lemma_pow2_positive((n - 1) as nat);
    }
}

pub proof fn lemma_pow2_add(a: nat, b: nat)
    ensures
        pow2(a + b) == pow2(a) * pow2(b),
    decreases a,
{
    if a > 0 {
        lemma_pow2_add((a - 1) as nat, b);
        assert((a - 1) as nat + b == (a + b - 1) as nat);
        assert(2 * (pow2((a - 1) as nat) * pow2(b)) == (2 * pow2((a - 1) as nat)) * pow2(b))
            by (nonlinear_arith);
    }
}

pub proof fn lemma_pow2_monotonic(a: nat, b: nat)
    requires
        a <= b,
    ensures
        pow2(a) <= pow2(b),
    decreases b,
{
    if a < b {
        lemma_pow2_monotonic(a, (b - 1) as nat);
        lemma_pow2_positive((b - 1) as nat);
    }
}

/// The powers of two that the code writes as literals.
pub proof fn lemma_pow2_values()
    ensures
        pow2(0) == 1,
        pow2(1) == 2,
        pow2(2) == 4,
        pow2(3) == 8,
        pow2(4) == 16,
        pow2(5) == 32,
        pow2(6) == 64,
        pow2(7) == 128,
        pow2(8) == 256,
        pow2(10) == 1024,
        pow2(11) == 2048,
        pow2(12) == 4096,
        pow2(13) == 8192,
        pow2(14) == 16384,
        pow2(15) == 32768,
        pow2(16) == 65536,
        pow2(31) == 0x8000_0000,
        pow2(32) == 0x1_0000_0000,
{
    reveal_with_fuel(pow2, 33);
}

/// A quotient by a positive divisor rounds down.
pub proof fn lemma_floor_bounds(x: int, d: int)
    requires
        d > 0,
    ensures
        d * (x / d) <= x < d * (x / d) + d,
{
    vstd::arithmetic::div_mod::lemma_fundamental_div_mod(x, d);
    vstd::arithmetic::div_mod::lemma_mod_bound(x, d);
}

/// Only one quotient rounds down to within one divisor of `x`.
pub proof fn lemma_quotient(x: int, d: int, q: int)
    requires
        d > 0,
        d * q <= x < d * q + d,
    ensures
        x / d == q,
{
    vstd::arithmetic::mul::lemma_mul_is_commutative(d, q);
    vstd::arithmetic::div_mod::lemma_fundamental_div_mod_converse(x, d, q, x - d * q);
}

/// An arithmetic shift right is a division that rounds down.
pub proof fn lemma_shr_i64(x: i64, n: u32)
    requires
        n < 63,
    ensures
        (x >> n) == x as int / pow2(n as nat),
    decreases n,
{
    if n == 0 {
        assert(x >> 0u32 == x) by (bit_vector);
    } else {
        let m = (n - 1) as u32;
        lemma_shr_i64(x, m);
        let y = x >> m;
        assert(x >> n == (x >> m) >> 1u32) by (bit_vector)
            requires
                n == m + 1,
                n < 63,
        ;
        assert((y >> 1u32) * 2 <= y && y < (y >> 1u32) * 2 + 2) by (bit_vector);
        lemma_pow2_positive(m as nat);
        let p = pow2(m as nat);
        let z = (y >> 1u32) as int;
        lemma_floor_bounds(x as int, p);
        assert(2 * p * z <= x < 2 * p * z + 2 * p) by (nonlinear_arith)
            requires
                p * y <= x < p * y + p,
                2 * z <= y < 2 * z + 2,
                p > 0,
        ;
        lemma_quotient(x as int, 2 * p, z);
    }
}

/// The same of a 32-bit value, which a shift treats like its extension.
pub proof fn lemma_shr_i32(x: i32, n: u32)
    requires
        n < 32,
    ensures
        (x >> n) == x as int / pow2(n as nat),
{
    let w = x as i64;
    lemma_shr_i64(w, n);
    assert((x >> n) == (w >> n)) by (bit_vector)
        requires
            w == x as i64,
            n < 32,
    ;
}

/// One shifted left is a power of two.
pub proof fn lemma_shl_one_i64(n: u32)
    requires
        n < 63,
    ensures
        (1i64 << n) == pow2(n as nat),
    decreases n,
{
    if n == 0 {
        assert(1i64 << 0u32 == 1) by (bit_vector);
    } else {
        let m = (n - 1) as u32;
        lemma_shl_one_i64(m);
        assert(1i64 << n == 2 * (1i64 << m)) by (bit_vector)
            requires
                n == m + 1,
                n < 63,
        ;
    }
}

/// Zero rounds to zero at every shift.
pub proof fn lemma_round2_zero(n: nat)
    ensures
        spec_round2(0, n) == 0,
{
    reveal(spec_round2);
    if n > 0 {
        lemma_pow2_positive((n - 1) as nat);
        lemma_quotient(pow2((n - 1) as nat), pow2(n), 0);
    }
}

/// `x` divided by `2^n`, rounding halves up.
///
/// The sum is formed in 64 bits, so no input overflows before the shift.
pub fn round2(x: i32, n: usize) -> (y: i32)
    requires
        n <= 32,
    ensures
        y == spec_round2(x as int, n as nat),
{
    proof {
        reveal(spec_round2);
    }
    if n == 0 {
        x
    } else {
        let m: u32 = n as u32;
        proof {
            lemma_shl_one_i64((m - 1) as u32);
            lemma_pow2_monotonic((m - 1) as nat, 31);
            lemma_pow2_values();
            lemma_pow2_positive((m - 1) as nat);
        }
        let sum: i64 = x as i64 + (1i64 << (m - 1));
        proof {
            lemma_shr_i64(sum, m);
            let h = pow2((m - 1) as nat);
            let q = sum as int / (2 * h);
            lemma_floor_bounds(sum as int, 2 * h);
            assert(q <= 0x7fff_ffff) by (nonlinear_arith)
                requires
                    2 * h * q <= sum,
                    sum <= 0x7fff_ffff + h,
                    h >= 1,
            ;
            assert(q >= -0x8000_0000) by (nonlinear_arith)
                requires
                    sum < 2 * h * q + 2 * h,
                    sum >= -0x8000_0000 + h,
                    h >= 1,
            ;
        }
        (sum >> m) as i32
    }
}

/// `x` held to a signed integer of `r` bits.
pub fn clamp_range(x: i32, r: usize) -> (y: i32)
    requires
        1 <= r <= 32,
    ensures
        y == spec_clamp(x as int, -pow2((r - 1) as nat), pow2((r - 1) as nat) - 1),
{
    let m: u32 = (r - 1) as u32;
    proof {
        lemma_shl_one_i64(m);
        lemma_pow2_monotonic(m as nat, 31);
        lemma_pow2_values();
        lemma_pow2_positive(m as nat);
    }
    let bound: i64 = 1i64 << m;
    let wide: i64 = x as i64;
    if wide < -bound {
        (-bound) as i32
    } else if wide > bound - 1 {
        (bound - 1) as i32
    } else {
        x
    }
}

/// Halving what is left above bit `i` leaves what is above the next.
pub proof fn lemma_halves(x: int, i: nat)
    requires
        0 <= x,
    ensures
        (x / pow2(i)) / 2 == x / pow2(i + 1),
{
    let p = pow2(i);
    let q = pow2(i + 1);
    lemma_pow2_positive(i);
    assert(q == 2 * p);
    lemma_floor_bounds(x, p);
    let a = x / p;
    assert(q * (a / 2) <= x < q * (a / 2) + q) by (nonlinear_arith)
        requires
            q == 2 * p,
            p > 0,
            p * a <= x < p * a + p,
            2 * (a / 2) <= a <= 2 * (a / 2) + 1,
    ;
    lemma_quotient(x, q, a / 2);
}

} // verus!
