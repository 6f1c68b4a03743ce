//! The integer DCT: one network of rotations and Hadamard sums for every size
//! from 4 to 64, run forwards for the inverse transform and backwards,
//! transposed, for the forward one.
//!
//! Every rotation rounds and every sum is clamped, and both are part of what
//! a residual is: the network below is stated gate by gate because a
//! differently rounded transform would give other samples.
use crate::bits;
use crate::transform::cosine;
use crate::transform::cosine::{cos128, sin128};
use crate::transform::lane;
use crate::transform::lane::Lane;
use vstd::prelude::*;

verus! {

/// One step of the network, on two of its entries.
#[derive(Clone, Copy)]
pub struct Gate {
    /// A rotation by `angle`, or else a Hadamard sum and difference.
    pub rotation: bool,
    /// The first entry.
    pub a: usize,
    /// The second entry.
    pub b: usize,
    /// How far a rotation turns, in 1/256 of a turn.
    pub angle: i32,
    /// Whether the two outputs of a rotation, or the two inputs of a Hadamard
    /// gate, are exchanged.
    pub flip: bool,
}

/// How many stages the network has, the guarded ones of every size included.
pub const STAGES: usize = 30;

/// The entries of `t` in lane `l`.
pub open spec fn lane_of<T: Lane>(t: Seq<T>, l: int) -> Seq<i32> {
    Seq::new(t.len(), |i: int| t[i].lane(l))
}

/// The bit reversal of the low `bits` of `x`.
pub open spec fn spec_brev(bits: nat, x: int) -> int
    decreases bits,
{
    if bits == 0 {
        0
    } else {
        (x % 2) * bits::pow2((bits - 1) as nat) + spec_brev((bits - 1) as nat, x / 2)
    }
}

/// The entries of `t` with each index bit-reversed.
pub open spec fn spec_permute(t: Seq<i32>, n: nat) -> Seq<i32> {
    Seq::new(t.len(), |i: int| t[spec_brev(n, i)])
}

/// A rotation gate.
pub open spec fn rotation_of(a: int, b: int, angle: int, flip: bool) -> Gate {
    Gate { rotation: true, a: a as usize, b: b as usize, angle: angle as i32, flip }
}

/// A Hadamard gate.
pub open spec fn hadamard_of(a: int, b: int, flip: bool) -> Gate {
    Gate { rotation: false, a: a as usize, b: b as usize, angle: 0, flip }
}

/// The smallest `n` for which a `2^n`-point transform runs stage `s`.
pub open spec fn smallest_size(s: int) -> int {
    if s == 10 || s == 15 {
        2
    } else if s == 6 || s == 11 || s == 16 || s == 20 {
        3
    } else if s == 3 || s == 7 || s == 12 || s == 17 || s == 21 || s == 24 {
        4
    } else if s == 1 || s == 4 || s == 8 || s == 13 || s == 18 || s == 22 || s == 25 || s == 27 {
        5
    } else {
        6
    }
}

/// How many gates stage `s` has.
pub open spec fn stage_width(s: int) -> int {
    if s == 16 {
        1
    } else if s == 6 || s == 10 || s == 11 || s == 12 || s == 15 || s == 21 {
        2
    } else if s == 3 || s == 7 || s == 8 || s == 17 || s == 18 || s == 20 || s == 25 {
        4
    } else if s == 1 || s == 4 || s == 5 || s == 13 || s == 14 || s == 22 || s == 23 || s == 24
        || s == 28 {
        8
    } else if s == 29 {
        32
    } else {
        16
    }
}

/// How many gates of stage `s` a `2^n`-point transform runs.
pub open spec fn stage_gates(n: int, s: int) -> int {
    if n >= smallest_size(s) {
        stage_width(s)
    } else {
        0
    }
}

/// Gate `k` of stage `s` of the inverse network.
#[verifier::opaque]
pub open spec fn spec_gate(s: int, k: int) -> Gate {
    if s == 0 {
        rotation_of(32 + k, 63 - k, 63 - 4 * spec_brev(4, k), false)
    } else if s == 1 {
        rotation_of(16 + k, 31 - k, 6 + 8 * spec_brev(3, 7 - k), false)
    } else if s == 2 {
        hadamard_of(32 + 2 * k, 33 + 2 * k, k % 2 == 1)
    } else if s == 3 {
        rotation_of(8 + k, 15 - k, 12 + 16 * spec_brev(2, 3 - k), false)
    } else if s == 4 {
        hadamard_of(16 + 2 * k, 17 + 2 * k, k % 2 == 1)
    } else if s == 5 {
        let (i, j) = (k / 2, k % 2);
        rotation_of(62 - 4 * i - j, 33 + 4 * i + j, 60 - 16 * spec_brev(2, i) + 64 * j, true)
    } else if s == 6 {
        rotation_of(4 + k, 7 - k, 56 - 32 * k, false)
    } else if s == 7 {
        hadamard_of(8 + 2 * k, 9 + 2 * k, k % 2 == 1)
    } else if s == 8 {
        let (i, j) = (k / 2, k % 2);
        rotation_of(30 - 4 * i - j, 17 + 4 * i + j, 24 + 64 * j + 32 * (1 - i), true)
    } else if s == 9 {
        let (i, j) = (k / 2, k % 2);
        hadamard_of(32 + 4 * i + j, 35 + 4 * i - j, i % 2 == 1)
    } else if s == 10 {
        rotation_of(2 * k, 2 * k + 1, 32 + 16 * k, k == 0)
    } else if s == 11 {
        hadamard_of(4 + 2 * k, 5 + 2 * k, k == 1)
    } else if s == 12 {
        rotation_of(14 - k, 9 + k, 48 + 64 * k, true)
    } else if s == 13 {
        let (i, j) = (k / 2, k % 2);
        hadamard_of(16 + 4 * i + j, 19 + 4 * i - j, i % 2 == 1)
    } else if s == 14 {
        let (i, j) = (k / 4, k % 4);
        rotation_of(61 - 8 * i - j, 34 + 8 * i + j, 56 - 32 * i + 64 * (j / 2), true)
    } else if s == 15 {
        hadamard_of(k, 3 - k, false)
    } else if s == 16 {
        rotation_of(6, 5, 32, true)
    } else if s == 17 {
        let (i, j) = (k / 2, k % 2);
        hadamard_of(8 + 4 * i + j, 11 + 4 * i - j, i == 1)
    } else if s == 18 {
        rotation_of(29 - k, 18 + k, 48 + 64 * (k / 2), true)
    } else if s == 19 {
        let (i, j) = (k / 4, k % 4);
        hadamard_of(32 + 8 * i + j, 39 + 8 * i - j, i % 2 == 1)
    } else if s == 20 {
        hadamard_of(k, 7 - k, false)
    } else if s == 21 {
        rotation_of(13 - k, 10 + k, 32, true)
    } else if s == 22 {
        let (i, j) = (k / 4, k % 4);
        hadamard_of(16 + 8 * i + j, 23 + 8 * i - j, i == 1)
    } else if s == 23 {
        rotation_of(59 - k, 36 + k, if k < 4 { 48 } else { 112 }, true)
    } else if s == 24 {
        hadamard_of(k, 15 - k, false)
    } else if s == 25 {
        rotation_of(27 - k, 20 + k, 32, true)
    } else if s == 26 {
        let (i, j) = (k / 2, k % 2);
        hadamard_of(32 + 16 * j + i, 47 + 16 * j - i, j == 1)
    } else if s == 27 {
        hadamard_of(k, 31 - k, false)
    } else if s == 28 {
        rotation_of(55 - k, 40 + k, 32, true)
    } else {
        hadamard_of(k, 63 - k, false)
    }
}

/// The transpose of a gate: every gate is symmetric but a rotation that does
/// not flip, which turns the other way.
pub open spec fn spec_transpose(g: Gate) -> Gate {
    if g.rotation && !g.flip {
        Gate { angle: (-g.angle) as i32, ..g }
    } else {
        g
    }
}

/// What gate `g` does to the entries, sums held to `r` bits.
pub open spec fn apply_gate(t: Seq<i32>, g: Gate, r: int) -> Seq<i32> {
    let (a, b) = (g.a as int, g.b as int);
    if g.rotation {
        let c = cosine::spec_cos128(g.angle as int);
        let s = cosine::spec_sin128(g.angle as int);
        let x = lane::rotated_first(t[a], t[b], c, s);
        let y = lane::rotated_second(t[a], t[b], c, s);
        if g.flip {
            t.update(a, y).update(b, x)
        } else {
            t.update(a, x).update(b, y)
        }
    } else {
        let (p, q) = if g.flip {
            (b, a)
        } else {
            (a, b)
        };
        t.update(p, lane::summed(t[p], t[q], r)).update(q, lane::differenced(t[p], t[q], r))
    }
}

/// The entries after the first `k` gates of stage `s`.
pub open spec fn run_stage(t: Seq<i32>, s: int, k: int, r: int, forward: bool) -> Seq<i32>
    decreases k,
{
    if k <= 0 {
        t
    } else {
        let g = spec_gate(s, k - 1);
        apply_gate(
            run_stage(t, s, k - 1, r, forward),
            if forward {
                spec_transpose(g)
            } else {
                g
            },
            r,
        )
    }
}

/// The entries after the first `stages` stages of the inverse network.
pub open spec fn run_inverse(t: Seq<i32>, n: int, stages: int, r: int) -> Seq<i32>
    decreases stages,
{
    if stages <= 0 {
        t
    } else {
        run_stage(
            run_inverse(t, n, stages - 1, r),
            stages - 1,
            stage_gates(n, stages - 1),
            r,
            false,
        )
    }
}

/// The entries after the last `stages` stages of the inverse network, the
/// last one first and every gate transposed.
pub open spec fn run_forward(t: Seq<i32>, n: int, stages: int, r: int) -> Seq<i32>
    decreases stages,
{
    if stages <= 0 {
        t
    } else {
        run_stage(
            run_forward(t, n, stages - 1, r),
            STAGES - stages,
            stage_gates(n, STAGES - stages),
            r,
            true,
        )
    }
}

/// The inverse DCT of `2^n` entries, sums held to `r` bits.
pub open spec fn spec_inverse_dct(t: Seq<i32>, n: int, r: int) -> Seq<i32> {
    run_inverse(spec_permute(t, n as nat), n, STAGES as int, r)
}

/// The forward DCT of `2^n` entries, sums held to `r` bits.
pub open spec fn spec_forward_dct(t: Seq<i32>, n: int, r: int) -> Seq<i32> {
    spec_permute(run_forward(t, n, STAGES as int, r), n as nat)
}

/// A bit reversal stays within its bits.
pub proof fn lemma_brev_bound(bits: nat, x: int)
    ensures
        0 <= spec_brev(bits, x) < bits::pow2(bits),
    decreases bits,
{
    if bits > 0 {
        lemma_brev_bound((bits - 1) as nat, x / 2);
        let p = bits::pow2((bits - 1) as nat);
        assert((x % 2) * p == if x % 2 == 0 { 0 } else { p }) by (nonlinear_arith)
            requires
                0 <= x % 2 < 2,
        ;
    }
}

/// A bit reversal read from the other end: the top bit comes out lowest.
proof fn lemma_brev_top(bits: nat, x: int)
    requires
        0 <= x < bits::pow2(bits + 1),
    ensures
        spec_brev(bits + 1, x) == 2 * spec_brev(bits, x % bits::pow2(bits)) + x / bits::pow2(bits),
    decreases bits,
{
    let p = bits::pow2(bits);
    bits::lemma_pow2_positive(bits);
    if bits == 0 {
        reveal_with_fuel(spec_brev, 2);
        reveal_with_fuel(bits::pow2, 2);
        assert(x % 1 == 0);
        assert(x / 1 == x);
    } else {
        let m = (bits - 1) as nat;
        let h = bits::pow2(m);
        bits::lemma_pow2_positive(m);
        let y = x / 2;
        lemma_brev_top(m, y);
        // The quotient and the remainder by twice `h` agree with those of the
        // half by `h`.
        let q = y / h;
        let w = y % h;
        bits::lemma_floor_bounds(y, h);
        vstd::arithmetic::div_mod::lemma_fundamental_div_mod(y, h);
        assert(p * q <= x < p * q + p) by (nonlinear_arith)
            requires
                p == 2 * h,
                h * q <= y < h * q + h,
                2 * y <= x < 2 * y + 2,
        ;
        bits::lemma_quotient(x, p, q);
        vstd::arithmetic::div_mod::lemma_fundamental_div_mod(x, p);
        let v = x % p;
        assert(v == 2 * w + x % 2) by (nonlinear_arith)
            requires
                p == 2 * h,
                x == p * q + v,
                y == h * q + w,
                x == 2 * y + x % 2,
        ;
        assert(v % 2 == x % 2 && v / 2 == w);
        assert(spec_brev(bits + 1, x) == (x % 2) * p + spec_brev(bits, y));
        assert(spec_brev(bits, v) == (v % 2) * h + spec_brev(m, w));
        assert((x % 2) * p == 2 * ((x % 2) * h)) by (nonlinear_arith)
            requires
                p == 2 * h,
        ;
    }
}

/// A bit reversal undoes itself.
pub proof fn bit_reversal_is_an_involution(bits: nat, x: int)
    requires
        0 <= x < bits::pow2(bits),
    ensures
        spec_brev(bits, spec_brev(bits, x)) == x,
    decreases bits,
{
    if bits > 0 {
        let m = (bits - 1) as nat;
        let p = bits::pow2(m);
        bits::lemma_pow2_positive(m);
        bit_reversal_is_an_involution(m, x / 2);
        let y = spec_brev(bits, x);
        let z = spec_brev(m, x / 2);
        lemma_brev_bound(bits, x);
        lemma_brev_bound(m, x / 2);
        lemma_brev_top(m, y);
        let bit = x % 2;
        assert(p * bit == bit * p) by (nonlinear_arith);
        bits::lemma_quotient(y, p, bit);
        vstd::arithmetic::div_mod::lemma_fundamental_div_mod(y, p);
        assert(y % p == z);
    }
}

/// Every gate a `2^n`-point transform runs acts on two different entries of
/// it, and turns by no more than a turn.
pub proof fn lemma_gate_in_range(n: int, s: int, k: int)
    requires
        2 <= n <= 6,
        0 <= s < STAGES,
        0 <= k < stage_gates(n, s),
    ensures
        spec_gate(s, k).a < bits::pow2(n as nat),
        spec_gate(s, k).b < bits::pow2(n as nat),
        spec_gate(s, k).a != spec_gate(s, k).b,
        -256 <= spec_gate(s, k).angle <= 256,
        !spec_gate(s, k).rotation ==> spec_gate(s, k).angle == 0,
{
    reveal(spec_gate);
    bits::lemma_pow2_values();
    lemma_brev_bound(4, k);
    lemma_brev_bound(3, 7 - k);
    lemma_brev_bound(2, 3 - k);
    lemma_brev_bound(2, k / 2);
}

/// The bit reversal of the low `bits` of `x`.
fn brev(bits: u32, x: usize) -> (y: usize)
    requires
        bits <= 6,
        x < 64,
    ensures
        y == spec_brev(bits as nat, x as int),
        y < bits::pow2(bits as nat) <= 64,
{
    let mut y: usize = 0;
    let mut rest: usize = x;
    let mut left: u32 = bits;
    proof {
        bits::lemma_pow2_values();
        bits::lemma_pow2_monotonic(bits as nat, 6);
        lemma_brev_bound(bits as nat, x as int);
        assert(0 * bits::pow2(bits as nat) == 0);
    }
    while left > 0
        invariant
            left <= bits <= 6,
            rest < 64,
            spec_brev(bits as nat, x as int) == y * bits::pow2(left as nat) + spec_brev(
                left as nat,
                rest as int,
            ),
            0 <= spec_brev(bits as nat, x as int) < bits::pow2(bits as nat) <= 64,
        decreases left,
    {
        let ghost h = bits::pow2((left - 1) as nat);
        let ghost tail = spec_brev((left - 1) as nat, rest as int / 2);
        proof {
            bits::lemma_pow2_positive((left - 1) as nat);
            lemma_brev_bound((left - 1) as nat, rest as int / 2);
            let low = rest as int % 2;
            assert(y * (2 * h) + (low * h + tail) == (2 * y + low) * h + tail) by (nonlinear_arith);
            assert(2 * y + low < 64) by (nonlinear_arith)
                requires
                    (2 * y + low) * h + tail < 64,
                    h >= 1,
                    tail >= 0,
                    y >= 0,
                    low >= 0,
            ;
        }
        y = 2 * y + rest % 2;
        rest = rest / 2;
        left = left - 1;
    }
    proof {
        assert(y * 1 == y);
    }
    y
}

/// A butterfly rotation of entries `a` and `b`, exchanged when `flip` is set.
fn butterfly<T: Lane>(t: &mut Vec<T>, a: usize, b: usize, angle: i32, flip: bool)
    requires
        a < old(t).len(),
        b < old(t).len(),
        a != b,
        -256 <= angle <= 256,
    ensures
        final(t).len() == old(t).len(),
        forall|l: int, r: int|
            #![trigger lane_of(final(t)@, l), apply_gate(
                lane_of(old(t)@, l),
                (Gate { rotation: true, a, b, angle, flip }),
                r,
            )]
            0 <= l < T::lanes() ==> lane_of(final(t)@, l) == apply_gate(
                lane_of(old(t)@, l),
                (Gate { rotation: true, a, b, angle, flip }),
                r,
            ),
{
    let c: i64 = cos128(angle) as i64;
    let s: i64 = sin128(angle) as i64;
    let ghost before = t@;
    let (x, y): (T, T) = T::btf(t[a], t[b], c, s);
    if flip {
        t.set(a, y);
        t.set(b, x);
    } else {
        t.set(a, x);
        t.set(b, y);
    }
    proof {
        assert forall|l: int, r: int| 0 <= l < T::lanes() implies lane_of(t@, l) == #[trigger] apply_gate(
            lane_of(before, l),
            Gate { rotation: true, a, b, angle, flip },
            r,
        ) by {
            assert(lane_of(t@, l) =~= apply_gate(
                lane_of(before, l),
                Gate { rotation: true, a, b, angle, flip },
                r,
            ));
        }
    }
}

/// A Hadamard rotation of entries `a` and `b`, the other way round when `flip`
/// is set, its outputs held to `r` bits.
fn hadamard<T: Lane>(t: &mut Vec<T>, a: usize, b: usize, flip: bool, r: usize)
    requires
        a < old(t).len(),
        b < old(t).len(),
        a != b,
        1 <= r <= 32,
    ensures
        final(t).len() == old(t).len(),
        forall|l: int|
            0 <= l < T::lanes() ==> #[trigger] lane_of(final(t)@, l) == apply_gate(
                lane_of(old(t)@, l),
                (Gate { rotation: false, a, b, angle: 0, flip }),
                r as int,
            ),
{
    let (p, q): (usize, usize) = if flip {
        (b, a)
    } else {
        (a, b)
    };
    let ghost before = t@;
    let (x, y): (T, T) = T::had(t[p], t[q], r);
    t.set(p, x);
    t.set(q, y);
    proof {
        assert forall|l: int| 0 <= l < T::lanes() implies #[trigger] lane_of(t@, l) == apply_gate(
            lane_of(before, l),
            Gate { rotation: false, a, b, angle: 0, flip },
            r as int,
        ) by {
            assert(lane_of(t@, l) =~= apply_gate(
                lane_of(before, l),
                Gate { rotation: false, a, b, angle: 0, flip },
                r as int,
            ));
        }
    }
}

/// An in-place bit reversal of the order of `2^n` entries.
///
/// A bit reversal is an involution, so exchanging every entry with a later
/// one it reverses to visits each pair once.
fn permute<T: Lane>(t: &mut Vec<T>, n: u32)
    requires
        n <= 6,
        old(t).len() == bits::pow2(n as nat),
    ensures
        final(t).len() == old(t).len(),
        forall|l: int|
            #[trigger] lane_of(final(t)@, l) == spec_permute(lane_of(old(t)@, l), n as nat),
{
    let ghost before = t@;
    let m: usize = t.len();
    proof {
        bits::lemma_pow2_values();
        bits::lemma_pow2_monotonic(n as nat, 6);
        assert forall|k: int| 0 <= k < m implies 0 <= #[trigger] spec_brev(n as nat, k) < m
            && spec_brev(n as nat, spec_brev(n as nat, k)) == k by {
            lemma_brev_bound(n as nat, k);
            bit_reversal_is_an_involution(n as nat, k);
        }
    }
    for i in 0..m
        invariant
            n <= 6,
            m == bits::pow2(n as nat),
            m <= 64,
            t.len() == m,
            before.len() == m,
            forall|k: int|
                0 <= k < m ==> 0 <= #[trigger] spec_brev(n as nat, k) < m && spec_brev(
                    n as nat,
                    spec_brev(n as nat, k),
                ) == k,
            forall|k: int|
                #![trigger t@[k]]
                0 <= k < m ==> t@[k] == if k < i || spec_brev(n as nat, k) < i {
                    before[spec_brev(n as nat, k)]
                } else {
                    before[k]
                },
    {
        let j: usize = brev(n, i);
        if j > i {
            let x: T = t[i];
            let y: T = t[j];
            t.set(i, y);
            t.set(j, x);
        }
    }
    proof {
        assert forall|l: int| #[trigger] lane_of(t@, l) == spec_permute(
            lane_of(before, l),
            n as nat,
        ) by {
            assert(lane_of(t@, l) =~= spec_permute(lane_of(before, l), n as nat));
        }
    }
}

/// A rotation gate.
fn rotation_gate(a: usize, b: usize, angle: i32, flip: bool) -> (g: Gate)
    ensures
        g == rotation_of(a as int, b as int, angle as int, flip),
{
    Gate { rotation: true, a, b, angle, flip }
}

/// A Hadamard gate.
fn hadamard_gate(a: usize, b: usize, flip: bool) -> (g: Gate)
    ensures
        g == hadamard_of(a as int, b as int, flip),
{
    Gate { rotation: false, a, b, angle: 0, flip }
}

/// How many gates of stage `s` a `2^n`-point transform runs.
fn gates_of_stage(n: u32, s: usize) -> (count: usize)
    requires
        s < STAGES,
    ensures
        count == stage_gates(n as int, s as int),
        count <= 32,
{
    let smallest: u32 = match s {
        10 | 15 => 2,
        6 | 11 | 16 | 20 => 3,
        3 | 7 | 12 | 17 | 21 | 24 => 4,
        1 | 4 | 8 | 13 | 18 | 22 | 25 | 27 => 5,
        _ => 6,
    };
    if n < smallest {
        return 0;
    }
    match s {
        16 => 1,
        6 | 10 | 11 | 12 | 15 | 21 => 2,
        3 | 7 | 8 | 17 | 18 | 20 | 25 => 4,
        1 | 4 | 5 | 13 | 14 | 22 | 23 | 24 | 28 => 8,
        29 => 32,
        _ => 16,
    }
}

/// Gate `k` of stage `s` of the inverse network.
#[verifier::rlimit(30)]
fn gate_at(s: usize, k: usize) -> (g: Gate)
    requires
        s < STAGES,
        k < stage_width(s as int),
    ensures
        g == spec_gate(s as int, k as int),
{
    proof {
        reveal(spec_gate);
        bits::lemma_pow2_values();
    }
    let odd: bool = k % 2 == 1;
    let (i2, j2): (usize, usize) = (k / 2, k % 2);
    let (i4, j4): (usize, usize) = (k / 4, k % 4);
    match s {
        0 => rotation_gate(32 + k, 63 - k, 63 - 4 * (brev(4, k) as i32), false),
        1 => rotation_gate(16 + k, 31 - k, 6 + 8 * (brev(3, 7 - k) as i32), false),
        2 => hadamard_gate(32 + 2 * k, 33 + 2 * k, odd),
        3 => rotation_gate(8 + k, 15 - k, 12 + 16 * (brev(2, 3 - k) as i32), false),
        4 => hadamard_gate(16 + 2 * k, 17 + 2 * k, odd),
        5 => {
            let angle: i32 = 60 - 16 * (brev(2, i2) as i32) + 64 * (j2 as i32);
            rotation_gate(62 - 4 * i2 - j2, 33 + 4 * i2 + j2, angle, true)
        },
        6 => rotation_gate(4 + k, 7 - k, 56 - 32 * (k as i32), false),
        7 => hadamard_gate(8 + 2 * k, 9 + 2 * k, odd),
        8 => {
            let angle: i32 = 24 + 64 * (j2 as i32) + 32 * (1 - i2 as i32);
            rotation_gate(30 - 4 * i2 - j2, 17 + 4 * i2 + j2, angle, true)
        },
        9 => hadamard_gate(32 + 4 * i2 + j2, 35 + 4 * i2 - j2, i2 % 2 == 1),
        10 => rotation_gate(2 * k, 2 * k + 1, 32 + 16 * (k as i32), k == 0),
        11 => hadamard_gate(4 + 2 * k, 5 + 2 * k, k == 1),
        12 => rotation_gate(14 - k, 9 + k, 48 + 64 * (k as i32), true),
        13 => hadamard_gate(16 + 4 * i2 + j2, 19 + 4 * i2 - j2, i2 % 2 == 1),
        14 => {
            let angle: i32 = 56 - 32 * (i4 as i32) + 64 * ((j4 / 2) as i32);
            rotation_gate(61 - 8 * i4 - j4, 34 + 8 * i4 + j4, angle, true)
        },
        15 => hadamard_gate(k, 3 - k, false),
        16 => rotation_gate(6, 5, 32, true),
        17 => hadamard_gate(8 + 4 * i2 + j2, 11 + 4 * i2 - j2, i2 == 1),
        18 => rotation_gate(29 - k, 18 + k, 48 + 64 * ((k / 2) as i32), true),
        19 => hadamard_gate(32 + 8 * i4 + j4, 39 + 8 * i4 - j4, i4 % 2 == 1),
        20 => hadamard_gate(k, 7 - k, false),
        21 => rotation_gate(13 - k, 10 + k, 32, true),
        22 => hadamard_gate(16 + 8 * i4 + j4, 23 + 8 * i4 - j4, i4 == 1),
        23 => rotation_gate(59 - k, 36 + k, if k < 4 { 48 } else { 112 }, true),
        24 => hadamard_gate(k, 15 - k, false),
        25 => rotation_gate(27 - k, 20 + k, 32, true),
        26 => hadamard_gate(32 + 16 * j2 + i2, 47 + 16 * j2 - i2, j2 == 1),
        27 => hadamard_gate(k, 31 - k, false),
        28 => rotation_gate(55 - k, 40 + k, 32, true),
        _ => hadamard_gate(k, 63 - k, false),
    }
}

/// Runs stage `s` of the network in place, transposed for the forward one.
fn stage<T: Lane>(t: &mut Vec<T>, n: u32, s: usize, r: usize, forward: bool)
    requires
        2 <= n <= 6,
        s < STAGES,
        1 <= r <= 32,
        old(t).len() == bits::pow2(n as nat),
    ensures
        final(t).len() == old(t).len(),
        forall|l: int|
            0 <= l < T::lanes() ==> #[trigger] lane_of(final(t)@, l) == run_stage(
                lane_of(old(t)@, l),
                s as int,
                stage_gates(n as int, s as int),
                r as int,
                forward,
            ),
{
    let ghost before = t@;
    let count: usize = gates_of_stage(n, s);
    for k in 0..count
        invariant
            2 <= n <= 6,
            s < STAGES,
            1 <= r <= 32,
            count == stage_gates(n as int, s as int),
            before.len() == bits::pow2(n as nat),
            t.len() == before.len(),
            forall|l: int|
                0 <= l < T::lanes() ==> #[trigger] lane_of(t@, l) == run_stage(
                    lane_of(before, l),
                    s as int,
                    k as int,
                    r as int,
                    forward,
                ),
    {
        let ghost here = t@;
        let g: Gate = gate_at(s, k);
        proof {
            lemma_gate_in_range(n as int, s as int, k as int);
        }
        let angle: i32 = if forward && !g.flip {
            -g.angle
        } else {
            g.angle
        };
        let ghost applied = if forward {
            spec_transpose(g)
        } else {
            g
        };
        if g.rotation {
            butterfly(t, g.a, g.b, angle, g.flip);
        } else {
            hadamard(t, g.a, g.b, g.flip, r);
        }
        proof {
            assert(g.rotation ==> applied == Gate { rotation: true, a: g.a, b: g.b, angle, flip: g.flip });
            assert(!g.rotation ==> applied == Gate { rotation: false, a: g.a, b: g.b, angle: 0, flip: g.flip });
            assert forall|l: int| 0 <= l < T::lanes() implies #[trigger] lane_of(t@, l) == run_stage(
                lane_of(before, l),
                s as int,
                k + 1,
                r as int,
                forward,
            ) by {
                assert(lane_of(t@, l) == apply_gate(lane_of(here, l), applied, r as int));
            }
        }
    }
}

/// The inverse DCT network on `2^n` entries, sums held to `r` bits.
fn inverse_dct_n<T: Lane>(t: &mut Vec<T>, n: u32, r: usize)
    requires
        2 <= n <= 6,
        1 <= r <= 32,
        old(t).len() == bits::pow2(n as nat),
    ensures
        final(t).len() == old(t).len(),
        forall|l: int|
            0 <= l < T::lanes() ==> #[trigger] lane_of(final(t)@, l) == spec_inverse_dct(
                lane_of(old(t)@, l),
                n as int,
                r as int,
            ),
{
    let ghost before = t@;
    permute(t, n);
    for s in 0..STAGES
        invariant
            2 <= n <= 6,
            1 <= r <= 32,
            before.len() == bits::pow2(n as nat),
            t.len() == before.len(),
            forall|l: int|
                0 <= l < T::lanes() ==> #[trigger] lane_of(t@, l) == run_inverse(
                    spec_permute(lane_of(before, l), n as nat),
                    n as int,
                    s as int,
                    r as int,
                ),
    {
        let ghost here = t@;
        stage(t, n, s, r, false);
        assert forall|l: int| 0 <= l < T::lanes() implies #[trigger] lane_of(t@, l) == run_inverse(
            spec_permute(lane_of(before, l), n as nat),
            n as int,
            s + 1,
            r as int,
        ) by {
            assert(lane_of(here, l) == run_inverse(
                spec_permute(lane_of(before, l), n as nat),
                n as int,
                s as int,
                r as int,
            ));
        }
    }
}

/// The forward DCT network on `2^n` entries: the inverse network's stages in
/// reverse order, each one transposed.
fn forward_dct_n<T: Lane>(t: &mut Vec<T>, n: u32, r: usize)
    requires
        2 <= n <= 6,
        1 <= r <= 32,
        old(t).len() == bits::pow2(n as nat),
    ensures
        final(t).len() == old(t).len(),
        forall|l: int|
            0 <= l < T::lanes() ==> #[trigger] lane_of(final(t)@, l) == spec_forward_dct(
                lane_of(old(t)@, l),
                n as int,
                r as int,
            ),
{
    let ghost before = t@;
    for s in 0..STAGES
        invariant
            2 <= n <= 6,
            1 <= r <= 32,
            before.len() == bits::pow2(n as nat),
            t.len() == before.len(),
            forall|l: int|
                0 <= l < T::lanes() ==> #[trigger] lane_of(t@, l) == run_forward(
                    lane_of(before, l),
                    n as int,
                    s as int,
                    r as int,
                ),
    {
        let ghost here = t@;
        stage(t, n, STAGES - 1 - s, r, true);
        assert forall|l: int| 0 <= l < T::lanes() implies #[trigger] lane_of(t@, l) == run_forward(
            lane_of(before, l),
            n as int,
            s + 1,
            r as int,
        ) by {
            assert(lane_of(here, l) == run_forward(
                lane_of(before, l),
                n as int,
                s as int,
                r as int,
            ));
        }
    }
    permute(t, n);
}

/// Runs the inverse DCT in place on the first `2^n` entries of `t`, sums held
/// to `r` bits; the entries behind them stay as they are.
pub fn inverse_dct(t: &mut [i32], n: u32, r: usize)
    requires
        2 <= n <= 6,
        1 <= r <= 32,
        old(t).len() >= bits::pow2(n as nat),
    ensures
        final(t)@ == spec_inverse_dct(
            old(t)@.take(bits::pow2(n as nat)),
            n as int,
            r as int,
        ) + old(t)@.skip(bits::pow2(n as nat)),
{
    let ghost m = bits::pow2(n as nat);
    let ghost before = t@;
    let size: usize = size_of_log2(n);
    let mut own: Vec<i32> = Vec::new();
    for i in 0..size
        invariant
            size == m,
            t@ == before,
            before.len() >= m,
            own.len() == i,
            forall|k: int| 0 <= k < i ==> own@[k] == before[k],
    {
        own.push(t[i]);
    }
    assert(lane_of(own@, 0) =~= before.take(m));
    inverse_dct_n(&mut own, n, r);
    for i in 0..size
        invariant
            size == m,
            own.len() == m,
            t.len() == before.len() >= m,
            forall|k: int| 0 <= k < i ==> t@[k] == own@[k],
            forall|k: int| i <= k < before.len() ==> t@[k] == before[k],
    {
        t[i] = own[i];
    }
    assert(lane_of(own@, 0) =~= own@);
    assert(own@ == spec_inverse_dct(before.take(m), n as int, r as int));
    assert(t@ =~= own@ + before.skip(m));
}

/// `2^n`.
pub fn size_of_log2(n: u32) -> (size: usize)
    requires
        n <= 6,
    ensures
        size == bits::pow2(n as nat),
        1 <= size <= 64,
{
    proof {
        bits::lemma_pow2_values();
    }
    match n {
        0 => 1,
        1 => 2,
        2 => 4,
        3 => 8,
        4 => 16,
        5 => 32,
        _ => 64,
    }
}

/// The inverse DCT of exactly `2^n` coefficients, in place.
pub fn inverse_dct_fixed(t: &mut Vec<i32>, n: u32, r: usize)
    requires
        2 <= n <= 6,
        1 <= r <= 32,
        old(t).len() == bits::pow2(n as nat),
    ensures
        final(t)@ == spec_inverse_dct(old(t)@, n as int, r as int),
        final(t).len() == old(t).len(),
{
    assert(lane_of(t@, 0) =~= t@);
    inverse_dct_n(t, n, r);
    assert(lane_of(t@, 0) =~= t@);
}

/// The inverse DCT of eight columns of `2^n` coefficients at once, in place:
/// each column comes out as it would alone.
pub fn inverse_dct_x8(t: &mut Vec<[i32; 8]>, n: u32, r: usize)
    requires
        2 <= n <= 6,
        1 <= r <= 32,
        old(t).len() == bits::pow2(n as nat),
    ensures
        final(t).len() == old(t).len(),
        forall|l: int|
            0 <= l < 8 ==> #[trigger] lane_of(final(t)@, l) == spec_inverse_dct(
                lane_of(old(t)@, l),
                n as int,
                r as int,
            ),
{
    inverse_dct_n(t, n, r);
}

/// The forward DCT of exactly `2^n` samples, in place.
pub fn forward_dct_fixed(t: &mut Vec<i32>, n: u32, r: usize)
    requires
        2 <= n <= 6,
        1 <= r <= 32,
        old(t).len() == bits::pow2(n as nat),
    ensures
        final(t)@ == spec_forward_dct(old(t)@, n as int, r as int),
        final(t).len() == old(t).len(),
{
    assert(lane_of(t@, 0) =~= t@);
    forward_dct_n(t, n, r);
    assert(lane_of(t@, 0) =~= t@);
}

/// `len` zeros.
pub open spec fn zeros(len: nat) -> Seq<i32> {
    Seq::new(len, |i: int| 0i32)
}

proof fn lemma_stage_of_zeros(n: int, s: int, k: int, r: int, forward: bool)
    requires
        2 <= n <= 6,
        0 <= s < STAGES,
        0 <= k <= stage_gates(n, s),
        1 <= r <= 32,
    ensures
        run_stage(zeros(bits::pow2(n as nat) as nat), s, k, r, forward) == zeros(
            bits::pow2(n as nat) as nat,
        ),
    decreases k,
{
    if k > 0 {
        lemma_stage_of_zeros(n, s, k - 1, r, forward);
        lemma_gate_in_range(n, s, k - 1);
        let z = zeros(bits::pow2(n as nat) as nat);
        let g = if forward {
            spec_transpose(spec_gate(s, k - 1))
        } else {
            spec_gate(s, k - 1)
        };
        lane::lemma_clamp_range(0, r);
        let c = cosine::spec_cos128(g.angle as int);
        let w = cosine::spec_sin128(g.angle as int);
        assert(lane::rotated_first(0, 0, c, w) == 0 && lane::rotated_second(0, 0, c, w) == 0);
        assert(lane::summed(0, 0, r) == 0 && lane::differenced(0, 0, r) == 0);
        assert(apply_gate(z, g, r) =~= z);
    }
}

proof fn lemma_inverse_of_zeros(n: int, stages: int, r: int)
    requires
        2 <= n <= 6,
        0 <= stages <= STAGES,
        1 <= r <= 32,
    ensures
        run_inverse(zeros(bits::pow2(n as nat) as nat), n, stages, r) == zeros(
            bits::pow2(n as nat) as nat,
        ),
        run_forward(zeros(bits::pow2(n as nat) as nat), n, stages, r) == zeros(
            bits::pow2(n as nat) as nat,
        ),
    decreases stages,
{
    if stages > 0 {
        lemma_inverse_of_zeros(n, stages - 1, r);
        lemma_stage_of_zeros(n, stages - 1, stage_gates(n, stages - 1), r, false);
        lemma_stage_of_zeros(n, STAGES - stages, stage_gates(n, STAGES - stages), r, true);
    }
}

/// A vector of zeros transforms to zeros, in both directions, at every size
/// and every clamp.
pub proof fn dct_of_zeros_is_zeros(n: int, r: int)
    requires
        2 <= n <= 6,
        1 <= r <= 32,
    ensures
        spec_inverse_dct(zeros(bits::pow2(n as nat) as nat), n, r) == zeros(
            bits::pow2(n as nat) as nat,
        ),
        spec_forward_dct(zeros(bits::pow2(n as nat) as nat), n, r) == zeros(
            bits::pow2(n as nat) as nat,
        ),
{
    let m = bits::pow2(n as nat);
    let z = zeros(m as nat);
    bits::lemma_pow2_positive(n as nat);
    lemma_inverse_of_zeros(n, STAGES as int, r);
    assert forall|i: int| 0 <= i < m implies 0 <= #[trigger] spec_brev(n as nat, i) < m by {
        lemma_brev_bound(n as nat, i);
    }
    assert(spec_permute(z, n as nat) =~= z);
}

/// The two-by-two matrix of a gate before any rounding, row by row, in units
/// of 1/4096.
pub open spec fn gate_matrix(g: Gate) -> ((int, int), (int, int)) {
    let c = cosine::spec_cos128(g.angle as int);
    let s = cosine::spec_sin128(g.angle as int);
    if g.rotation && g.flip {
        ((s, c), (c, -s))
    } else if g.rotation {
        ((c, -s), (s, c))
    } else if g.flip {
        ((-4096, 4096), (4096, 4096))
    } else {
        ((4096, 4096), (4096, -4096))
    }
}

/// The forward network is the inverse one transposed: each of its gates has the
/// transposed matrix of its counterpart, on the same entries.
pub proof fn forward_gates_are_transposed(s: int, k: int)
    requires
        0 <= s < STAGES,
        0 <= k < stage_width(s),
    ensures
        ({
            let g = spec_gate(s, k);
            let f = spec_transpose(g);
            let (gm, fm) = (gate_matrix(g), gate_matrix(f));
            &&& f.a == g.a && f.b == g.b && f.rotation == g.rotation && f.flip == g.flip
            &&& fm.0.0 == gm.0.0 && fm.0.1 == gm.1.0
            &&& fm.1.0 == gm.0.1 && fm.1.1 == gm.1.1
        }),
{
    lemma_gate_in_range(6, s, k);
    cosine::cosine_is_even_and_sine_is_odd(spec_gate(s, k).angle as int);
}

/// The bit reversal at the network's end undoes itself.
pub proof fn permutation_is_an_involution(t: Seq<i32>, n: nat)
    requires
        t.len() == bits::pow2(n),
    ensures
        spec_permute(spec_permute(t, n), n) == t,
{
    assert forall|i: int| 0 <= i < t.len() implies 0 <= #[trigger] spec_brev(n, i) < t.len()
        && spec_brev(n, spec_brev(n, i)) == i by {
        lemma_brev_bound(n, i);
        bit_reversal_is_an_involution(n, i);
    }
    assert(spec_permute(spec_permute(t, n), n) =~= t);
}

/// The last stage that a `2^n`-point transform runs.
spec fn last_stage(n: int) -> int {
    if n == 2 {
        15
    } else if n == 3 {
        20
    } else if n == 4 {
        24
    } else if n == 5 {
        27
    } else {
        29
    }
}

/// Whether every entry of `t` fits a signed integer of `r` bits.
pub open spec fn fits_bits(t: Seq<i32>, r: int) -> bool {
    forall|i: int|
        0 <= i < t.len() ==> -bits::pow2((r - 1) as nat) <= #[trigger] t[i] < bits::pow2(
            (r - 1) as nat,
        )
}

proof fn lemma_lengths(t: Seq<i32>, n: int, stages: int, r: int)
    requires
        2 <= n <= 6,
        t.len() == bits::pow2(n as nat),
        0 <= stages <= STAGES,
    ensures
        run_inverse(t, n, stages, r).len() == t.len(),
    decreases stages,
{
    if stages > 0 {
        lemma_lengths(t, n, stages - 1, r);
        lemma_stage_length(
            run_inverse(t, n, stages - 1, r),
            n,
            stages - 1,
            stage_gates(n, stages - 1),
            r,
        );
    }
}

proof fn lemma_stage_length(t: Seq<i32>, n: int, s: int, k: int, r: int)
    requires
        2 <= n <= 6,
        t.len() == bits::pow2(n as nat),
        0 <= s < STAGES,
        0 <= k <= stage_gates(n, s),
    ensures
        run_stage(t, s, k, r, false).len() == t.len(),
    decreases k,
{
    if k > 0 {
        lemma_stage_length(t, n, s, k - 1, r);
        lemma_gate_in_range(n, s, k - 1);
    }
}

proof fn lemma_last_stage_clamps(t: Seq<i32>, n: int, k: int, r: int)
    requires
        2 <= n <= 6,
        t.len() == bits::pow2(n as nat),
        0 <= k <= stage_gates(n, last_stage(n)),
        1 <= r <= 32,
    ensures
        ({
            let out = run_stage(t, last_stage(n), k, r, false);
            &&& out.len() == t.len()
            &&& forall|i: int|
                0 <= i < k || t.len() - k <= i < t.len() ==> -bits::pow2((r - 1) as nat)
                    <= #[trigger] out[i] < bits::pow2((r - 1) as nat)
        }),
    decreases k,
{
    bits::lemma_pow2_values();
    if k > 0 {
        lemma_last_stage_clamps(t, n, k - 1, r);
        lemma_gate_in_range(n, last_stage(n), k - 1);
        let u = run_stage(t, last_stage(n), k - 1, r, false);
        let g = spec_gate(last_stage(n), k - 1);
        assert(!g.rotation && g.a == k - 1 && g.b == t.len() - k && !g.flip) by {
            reveal(spec_gate);
        }
        lane::lemma_clamp_range(u[g.a as int].wrapping_add(u[g.b as int]) as int, r);
        lane::lemma_clamp_range(u[g.a as int].wrapping_sub(u[g.b as int]) as int, r);
    }
}

proof fn lemma_no_stage_after_the_last(t: Seq<i32>, n: int, stages: int, r: int)
    requires
        2 <= n <= 6,
        last_stage(n) < stages <= STAGES,
    ensures
        run_inverse(t, n, stages, r) == run_inverse(t, n, last_stage(n) + 1, r),
    decreases stages,
{
    if stages > last_stage(n) + 1 {
        lemma_no_stage_after_the_last(t, n, stages - 1, r);
    }
}

/// Whatever goes in, every output of the inverse DCT fits in the `r` bits its
/// sums are held to.
pub proof fn inverse_dct_output_fits(t: Seq<i32>, n: int, r: int)
    requires
        2 <= n <= 6,
        t.len() == bits::pow2(n as nat),
        1 <= r <= 32,
    ensures
        spec_inverse_dct(t, n, r).len() == t.len(),
        fits_bits(spec_inverse_dct(t, n, r), r),
{
    let p = spec_permute(t, n as nat);
    let last = last_stage(n);
    lemma_lengths(p, n, last, r);
    lemma_no_stage_after_the_last(p, n, STAGES as int, r);
    lemma_last_stage_clamps(run_inverse(p, n, last, r), n, stage_gates(n, last), r);
    bits::lemma_pow2_values();
}

} // verus!
