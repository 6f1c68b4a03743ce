//! What negating a block's coefficients does to its residual.
//!
//! Every rounding takes halves up, so a rotation of two negated entries is the
//! negation of their rotation but for one. The slack of an entry below is how
//! far its values on two such inputs can be from each other's negation; it is
//! followed through the network from the first two entries of a line.
use crate::bits;
use crate::quant;
use crate::transform::cosine;
use crate::transform::dct;
use crate::transform::dct::STAGES;
use crate::transform::inverse;
use crate::transform::lane;
use crate::transform::tx_type;
use crate::transform::tx_type::{TxType, TxType1d};
use vstd::prelude::*;

verus! {

/// Whether two values are each other's negation but for `slack`, and neither
/// is larger than `most`. Two values of negative slack are zero.
pub open spec fn near(x: int, y: int, slack: int, most: int) -> bool {
    if slack < 0 {
        x == 0 && y == 0
    } else {
        &&& -slack <= x + y <= slack
        &&& -most <= x <= most
        &&& -most <= y <= most
    }
}

/// The magnitude of a number.
pub open spec fn size(x: int) -> int {
    if x < 0 {
        -x
    } else {
        x
    }
}

/// How much of a value of this slack reaches a sum at a factor.
spec fn share(slack: int, factor: int) -> int {
    if slack < 0 {
        0
    } else {
        size(factor)
    }
}

proof fn lemma_share(x: int, y: int, slack: int, most: int, factor: int, m: int)
    requires
        near(x, y, slack, most),
        slack <= m,
        0 <= m,
        0 <= most,
        -4096 <= factor <= 4096,
    ensures
        -(m * share(slack, factor)) <= x * factor + y * factor <= m * share(slack, factor),
        -(most * share(slack, factor)) <= x * factor <= most * share(slack, factor),
        -(most * share(slack, factor)) <= y * factor <= most * share(slack, factor),
{
    let f = share(slack, factor);
    if slack < 0 {
        assert(m * f == 0 && most * f == 0 && x * factor == 0 && y * factor == 0)
            by (nonlinear_arith)
            requires
                f == 0,
                x == 0,
                y == 0,
        ;
    } else {
        assert(-(m * f) <= x * factor + y * factor <= m * f && -(most * f) <= x * factor <= most * f
            && -(most * f) <= y * factor <= most * f) by (nonlinear_arith)
            requires
                -m <= x + y <= m,
                -most <= x <= most,
                -most <= y <= most,
                f == factor || f == -factor,
                f >= 0,
        ;
    }
}

proof fn lemma_rounded(p: int, q: int, d: int, slack: int, most: int)
    requires
        -d <= p + q <= d,
        d < 4096 * slack,
        -4096 * most <= p <= 4096 * most,
        -4096 * most <= q <= 4096 * most,
        0 <= most <= 0x1000_0000,
    ensures
        near(lane::spec_round_cos(p) as int, lane::spec_round_cos(q) as int, slack, most),
{
}

/// A rotation: one slack more than its entries' share of it.
proof fn lemma_rotation(
    a: (i32, i32),
    b: (i32, i32),
    slack: (int, int),
    most: int,
    turn: (int, int),
    m: int,
    weight: int,
    next: (int, int),
)
    requires
        near(a.0 as int, a.1 as int, slack.0, most),
        near(b.0 as int, b.1 as int, slack.1, most),
        slack.0 <= m && slack.1 <= m && 0 <= m,
        0 <= most,
        -4096 <= turn.0 <= 4096 && -4096 <= turn.1 <= 4096,
        share(slack.0, turn.0) + share(slack.1, turn.1) <= weight,
        share(slack.0, turn.1) + share(slack.1, turn.0) <= weight,
        m * weight < 4096 * next.0,
        most * weight <= 4096 * next.1,
        next.1 <= 0x1000_0000,
    ensures
        near(
            lane::rotated_first(a.0, b.0, turn.0, turn.1) as int,
            lane::rotated_first(a.1, b.1, turn.0, turn.1) as int,
            next.0,
            next.1,
        ),
        near(
            lane::rotated_second(a.0, b.0, turn.0, turn.1) as int,
            lane::rotated_second(a.1, b.1, turn.0, turn.1) as int,
            next.0,
            next.1,
        ),
{
    let (c, s) = turn;
    let (a0, a1) = (a.0 as int, a.1 as int);
    let (b0, b1) = (b.0 as int, b.1 as int);
    lemma_share(a0, a1, slack.0, most, c, m);
    lemma_share(a0, a1, slack.0, most, s, m);
    lemma_share(b0, b1, slack.1, most, c, m);
    lemma_share(b0, b1, slack.1, most, s, m);
    let (ac, as_) = (share(slack.0, c), share(slack.0, s));
    let (bc, bs) = (share(slack.1, c), share(slack.1, s));
    assert(m * ac + m * bs <= m * weight && m * as_ + m * bc <= m * weight && most * ac + most * bs
        <= most * weight && most * as_ + most * bc <= most * weight && 0 <= m * weight)
        by (nonlinear_arith)
        requires
            ac + bs <= weight,
            as_ + bc <= weight,
            0 <= ac,
            0 <= bs,
            0 <= m,
            0 <= most,
    ;
    lemma_rounded(a0 * c - b0 * s, a1 * c - b1 * s, m * weight, next.0, next.1);
    lemma_rounded(a0 * s + b0 * c, a1 * s + b1 * c, m * weight, next.0, next.1);
}

/// A clamp keeps a slack, if it is one at least.
proof fn lemma_clamped(x: int, y: int, slack: int, most: int, r: int)
    requires
        near(x, y, slack, most),
        slack != 0,
        0 <= most <= 0x7fff_ffff,
        1 <= r <= 32,
    ensures
        near(
            lane::spec_clamp_range(x, r) as i32 as int,
            lane::spec_clamp_range(y, r) as i32 as int,
            slack,
            most,
        ),
{
    reveal(lane::spec_clamp_range);
    bits::lemma_pow2_positive((r - 1) as nat);
}

/// The slack of a sum of two values: the sum of theirs, and one at least.
spec fn joined(a: int, b: int) -> int {
    if a < 0 && b < 0 {
        -1
    } else if a < 0 {
        if b < 1 {
            1
        } else {
            b
        }
    } else if b < 0 {
        if a < 1 {
            1
        } else {
            a
        }
    } else if a + b < 1 {
        1
    } else {
        a + b
    }
}

/// A Hadamard sum and difference: no larger than the one entry that is not zero
/// where there is no more than one.
proof fn lemma_hadamard(
    a: (i32, i32),
    b: (i32, i32),
    slack: (int, int),
    most: int,
    next: (int, int),
    r: int,
)
    requires
        near(a.0 as int, a.1 as int, slack.0, most),
        near(b.0 as int, b.1 as int, slack.1, most),
        joined(slack.0, slack.1) <= next.0,
        0 <= most <= next.1 <= 0x7fff_fffe,
        slack.0 >= 0 && slack.1 >= 0 ==> 2 * most <= next.1,
        1 <= r <= 32,
    ensures
        near(
            lane::summed(a.0, b.0, r) as int,
            lane::summed(a.1, b.1, r) as int,
            next.0,
            next.1,
        ),
        near(
            lane::differenced(a.0, b.0, r) as int,
            lane::differenced(a.1, b.1, r) as int,
            next.0,
            next.1,
        ),
{
    let wide = joined(slack.0, slack.1);
    lemma_clamped(a.0 + b.0, a.1 + b.1, wide, next.1, r);
    lemma_clamped(a.0 - b.0, a.1 - b.1, wide, next.1, r);
}

/// How many leading entries the first entry of a line has reached after `s`
/// stages.
spec fn even_reach(s: int) -> int {
    if s <= 10 {
        1
    } else if s <= 15 {
        2
    } else if s <= 20 {
        4
    } else if s <= 24 {
        8
    } else if s <= 27 {
        16
    } else {
        32
    }
}

/// How many entries at either end of the upper half the second entry of a line
/// has reached.
spec fn odd_reach(n: int, s: int) -> int {
    if n == 5 {
        if s <= 4 {
            1
        } else if s <= 13 {
            2
        } else if s <= 22 {
            4
        } else {
            8
        }
    } else {
        if s <= 2 {
            1
        } else if s <= 9 {
            2
        } else if s <= 19 {
            4
        } else if s <= 26 {
            8
        } else {
            16
        }
    }
}

/// Their slack, of a line that starts with a slack of one.
spec fn odd_slack(n: int, s: int) -> int {
    if n == 5 {
        if s <= 8 {
            1
        } else if s <= 18 {
            2
        } else if s <= 25 {
            3
        } else {
            5
        }
    } else {
        if s <= 5 {
            1
        } else if s <= 14 {
            2
        } else if s <= 23 {
            3
        } else if s <= 28 {
            4
        } else {
            6
        }
    }
}

/// Their slack, of a line that starts with a slack of two.
spec fn loose_odd_slack(n: int, s: int) -> int {
    if n == 5 {
        if s <= 8 {
            2
        } else if s <= 18 {
            3
        } else if s <= 25 {
            4
        } else {
            6
        }
    } else {
        if s <= 5 {
            2
        } else if s <= 14 {
            3
        } else if s <= 23 {
            4
        } else if s <= 28 {
            6
        } else {
            9
        }
    }
}

/// The entry that the second one of a line starts at, half of them before it.
spec fn half_of(n: int) -> int {
    if n == 5 {
        16
    } else {
        32
    }
}

/// The slack of entry `i` of a `2^n`-point line after `s` stages, where only
/// the first two entries carry anything and have a slack of `e`.
#[verifier::opaque]
spec fn slack_at(n: int, e: int, s: int, i: int) -> int {
    let half = half_of(n);
    if s > (if n == 5 {
        27int
    } else {
        29int
    }) {
        if e == 1 {
            7
        } else {
            11
        }
    } else if i < half {
        if i >= even_reach(s) {
            -1
        } else {
            e
        }
    } else if s <= 6 - n {
        if i == half {
            e
        } else {
            -1
        }
    } else if i >= half + odd_reach(n, s) && i < 2 * half - odd_reach(n, s) {
        -1
    } else if e == 1 {
        odd_slack(n, s)
    } else {
        loose_odd_slack(n, s)
    }
}

/// How large an entry can be after `s` stages.
spec fn most_at(s: int) -> int {
    if s <= 5 {
        0x8_0000
    } else if s <= 8 {
        0x10_0000
    } else if s <= 14 {
        0x20_0000
    } else if s <= 18 {
        0x40_0000
    } else if s <= 23 {
        0x80_0000
    } else if s <= 25 {
        0x100_0000
    } else if s <= 27 {
        0x200_0000
    } else if s <= 28 {
        0x400_0000
    } else if s <= 29 {
        0x800_0000
    } else {
        0x1000_0000
    }
}

/// The lines followed here: 32 or 64 points, with a slack of one or two.
spec fn is_line(n: int, e: int) -> bool {
    (n == 5 || n == 6) && (e == 1 || e == 2)
}

/// The most a rotation of stage `s` that turns anything weighs its entries by.
spec fn weight_at(s: int) -> int {
    if s <= 1 {
        4095
    } else if s == 5 {
        4477
    } else if s == 10 {
        2896
    } else if s == 8 || s == 14 {
        4816
    } else if s == 18 || s == 23 {
        5351
    } else if s == 25 || s == 28 {
        5792
    } else {
        4096
    }
}

/// The two entries that gate `k` of stage `s` acts on.
#[verifier::opaque]
spec fn ends(s: int, k: int) -> (int, int) {
    if s == 0 {
        (32 + k, 63 - k)
    } else if s == 1 {
        (16 + k, 31 - k)
    } else if s == 2 {
        (32 + 2 * k, 33 + 2 * k)
    } else if s == 3 {
        (8 + k, 15 - k)
    } else if s == 4 {
        (16 + 2 * k, 17 + 2 * k)
    } else if s == 5 {
        (62 - 4 * (k / 2) - k % 2, 33 + 4 * (k / 2) + k % 2)
    } else if s == 6 {
        (4 + k, 7 - k)
    } else if s == 7 {
        (8 + 2 * k, 9 + 2 * k)
    } else if s == 8 {
        (30 - 4 * (k / 2) - k % 2, 17 + 4 * (k / 2) + k % 2)
    } else if s == 9 {
        (32 + 4 * (k / 2) + k % 2, 35 + 4 * (k / 2) - k % 2)
    } else if s == 10 {
        (2 * k, 2 * k + 1)
    } else if s == 11 {
        (4 + 2 * k, 5 + 2 * k)
    } else if s == 12 {
        (14 - k, 9 + k)
    } else if s == 13 {
        (16 + 4 * (k / 2) + k % 2, 19 + 4 * (k / 2) - k % 2)
    } else if s == 14 {
        (61 - 8 * (k / 4) - k % 4, 34 + 8 * (k / 4) + k % 4)
    } else if s == 15 {
        (k, 3 - k)
    } else if s == 16 {
        (6int, 5int)
    } else if s == 17 {
        (8 + 4 * (k / 2) + k % 2, 11 + 4 * (k / 2) - k % 2)
    } else if s == 18 {
        (29 - k, 18 + k)
    } else if s == 19 {
        (32 + 8 * (k / 4) + k % 4, 39 + 8 * (k / 4) - k % 4)
    } else if s == 20 {
        (k, 7 - k)
    } else if s == 21 {
        (13 - k, 10 + k)
    } else if s == 22 {
        (16 + 8 * (k / 4) + k % 4, 23 + 8 * (k / 4) - k % 4)
    } else if s == 23 {
        (59 - k, 36 + k)
    } else if s == 24 {
        (k, 15 - k)
    } else if s == 25 {
        (27 - k, 20 + k)
    } else if s == 26 {
        (32 + 16 * (k % 2) + k / 2, 47 + 16 * (k % 2) - k / 2)
    } else if s == 27 {
        (k, 31 - k)
    } else if s == 28 {
        (55 - k, 40 + k)
    } else {
        (k, 63 - k)
    }
}

proof fn lemma_ends(s: int, k: int)
    requires
        0 <= s < STAGES,
        0 <= k < dct::stage_width(s),
    ensures
        dct::spec_gate(s, k).a == ends(s, k).0,
        dct::spec_gate(s, k).b == ends(s, k).1,
        0 <= ends(s, k).0 < 64,
        0 <= ends(s, k).1 < 64,
{
    reveal(ends);
    reveal(dct::spec_gate);
}

proof fn lemma_place(n: int, s: int, k: int)
    requires
        n == 5 || n == 6,
        0 <= s < STAGES,
        0 <= k < dct::stage_gates(n, s),
    ensures
        0 <= ends(s, k).0 < 2 * half_of(n),
        0 <= ends(s, k).1 < 2 * half_of(n),
        ends(s, k).0 != ends(s, k).1,
        dct::spec_gate(s, k).a == ends(s, k).0,
        dct::spec_gate(s, k).b == ends(s, k).1,
{
    dct::lemma_gate_in_range(n, s, k);
    bits::lemma_pow2_values();
    lemma_ends(s, k);
}

/// Whether two pairs of entries have none in common.
spec fn apart(p: (int, int), q: (int, int)) -> bool {
    p.0 != q.0 && p.0 != q.1 && p.1 != q.0 && p.1 != q.1
}

proof fn lemma_first_stages_apart(s: int, j: int, k: int)
    requires
        0 <= s < 10,
        0 <= j < k < dct::stage_width(s),
    ensures
        apart(ends(s, j), ends(s, k)),
{
    reveal(ends);
    if s == 0 {
        assert(apart(ends(0, j), ends(0, k)));
    } else if s == 1 {
        assert(apart(ends(1, j), ends(1, k)));
    } else if s == 2 {
        assert(apart(ends(2, j), ends(2, k)));
    } else if s == 3 {
        assert(apart(ends(3, j), ends(3, k)));
    } else if s == 4 {
        assert(apart(ends(4, j), ends(4, k)));
    } else if s == 5 {
        assert(apart(ends(5, j), ends(5, k)));
    } else if s == 6 {
        assert(apart(ends(6, j), ends(6, k)));
    } else if s == 7 {
        assert(apart(ends(7, j), ends(7, k)));
    } else if s == 8 {
        assert(apart(ends(8, j), ends(8, k)));
    } else if s == 9 {
        assert(apart(ends(9, j), ends(9, k)));
    }
}

proof fn lemma_middle_stages_apart(s: int, j: int, k: int)
    requires
        10 <= s < 20,
        0 <= j < k < dct::stage_width(s),
    ensures
        apart(ends(s, j), ends(s, k)),
{
    reveal(ends);
    if s == 10 {
        assert(apart(ends(10, j), ends(10, k)));
    } else if s == 11 {
        assert(apart(ends(11, j), ends(11, k)));
    } else if s == 12 {
        assert(apart(ends(12, j), ends(12, k)));
    } else if s == 13 {
        assert(apart(ends(13, j), ends(13, k)));
    } else if s == 14 {
        assert(apart(ends(14, j), ends(14, k)));
    } else if s == 15 {
        assert(apart(ends(15, j), ends(15, k)));
    } else if s == 16 {
        assert(apart(ends(16, j), ends(16, k)));
    } else if s == 17 {
        assert(apart(ends(17, j), ends(17, k)));
    } else if s == 18 {
        assert(apart(ends(18, j), ends(18, k)));
    } else if s == 19 {
        assert(apart(ends(19, j), ends(19, k)));
    }
}

proof fn lemma_last_stages_apart(s: int, j: int, k: int)
    requires
        20 <= s < 30,
        0 <= j < k < dct::stage_width(s),
    ensures
        apart(ends(s, j), ends(s, k)),
{
    reveal(ends);
    if s == 20 {
        assert(apart(ends(20, j), ends(20, k)));
    } else if s == 21 {
        assert(apart(ends(21, j), ends(21, k)));
    } else if s == 22 {
        assert(apart(ends(22, j), ends(22, k)));
    } else if s == 23 {
        assert(apart(ends(23, j), ends(23, k)));
    } else if s == 24 {
        assert(apart(ends(24, j), ends(24, k)));
    } else if s == 25 {
        assert(apart(ends(25, j), ends(25, k)));
    } else if s == 26 {
        assert(apart(ends(26, j), ends(26, k)));
    } else if s == 27 {
        assert(apart(ends(27, j), ends(27, k)));
    } else if s == 28 {
        assert(apart(ends(28, j), ends(28, k)));
    } else if s == 29 {
        assert(apart(ends(29, j), ends(29, k)));
    }
}

/// No two gates of a stage share an entry.
proof fn lemma_gates_apart(s: int, j: int, k: int)
    requires
        0 <= s < STAGES,
        0 <= j < k < dct::stage_width(s),
    ensures
        apart(ends(s, j), ends(s, k)),
{
    if s < 10 {
        lemma_first_stages_apart(s, j, k);
    } else if s < 20 {
        lemma_middle_stages_apart(s, j, k);
    } else {
        lemma_last_stages_apart(s, j, k);
    }
}

/// The weights of the rotations that turn anything.
proof fn lemma_weights()
    ensures
        size(cosine::spec_cos128(60)) + size(cosine::spec_sin128(60)) == 4477,
        size(cosine::spec_cos128(56)) + size(cosine::spec_sin128(56)) == 4816,
        size(cosine::spec_cos128(48)) + size(cosine::spec_sin128(48)) == 5351,
        cosine::spec_cos128(32) == 2896 && cosine::spec_sin128(32) == 2896,
        cosine::spec_cos128(63) == 101 && cosine::spec_sin128(63) == 4095,
        cosine::spec_cos128(62) == 201 && cosine::spec_sin128(62) == 4091,
{
    reveal(cosine::folded);
    assert(cosine::COS128_LOOKUP[63] == 101 && cosine::COS128_LOOKUP[1] == 4095);
    assert(cosine::COS128_LOOKUP[62] == 201 && cosine::COS128_LOOKUP[2] == 4091);
    assert(cosine::COS128_LOOKUP[60] == 401 && cosine::COS128_LOOKUP[4] == 4076);
    assert(cosine::COS128_LOOKUP[56] == 799 && cosine::COS128_LOOKUP[8] == 4017);
    assert(cosine::COS128_LOOKUP[48] == 1567 && cosine::COS128_LOOKUP[16] == 3784);
    assert(cosine::COS128_LOOKUP[32] == 2896);
}

proof fn lemma_reversed_zero(bits: nat)
    ensures
        dct::spec_brev(bits, 0) == 0,
    decreases bits,
{
    if bits > 0 {
        lemma_reversed_zero((bits - 1) as nat);
        assert(0 * bits::pow2((bits - 1) as nat) == 0);
    }
}

proof fn lemma_reversed_seven()
    ensures
        dct::spec_brev(3, 7) == 7,
{
    reveal_with_fuel(dct::spec_brev, 4);
    bits::lemma_pow2_values();
}

proof fn lemma_reversed_one(bits: nat)
    requires
        bits > 0,
    ensures
        dct::spec_brev(bits, 1) == bits::pow2((bits - 1) as nat),
{
    lemma_reversed_zero((bits - 1) as nat);
    assert(1 * bits::pow2((bits - 1) as nat) == bits::pow2((bits - 1) as nat));
}

/// A number as often as a stage's weight.
spec fn weighed(s: int, m: int) -> int {
    if s <= 1 {
        m * 4095
    } else if s == 5 {
        m * 4477
    } else if s == 10 {
        m * 2896
    } else if s == 8 || s == 14 {
        m * 4816
    } else if s == 18 || s == 23 {
        m * 5351
    } else if s == 25 || s == 28 {
        m * 5792
    } else {
        m * 4096
    }
}

proof fn lemma_weighed(s: int, m: int)
    ensures
        weighed(s, m) == m * weight_at(s),
{
    let w = weight_at(s);
    let product = weighed(s, m);
    assert(m * w == product) by (nonlinear_arith)
        requires
            w == 4095 && product == m * 4095 || w == 4477 && product == m * 4477 || w == 2896
                && product == m * 2896 || w == 4816 && product == m * 4816 || w == 5351 && product
                == m * 5351 || w == 5792 && product == m * 5792 || w == 4096 && product == m
                * 4096,
    ;
}

/// Whether stage `s` rotates.
spec fn is_turning(s: int) -> bool {
    s == 0 || s == 1 || s == 3 || s == 5 || s == 6 || s == 8 || s == 10 || s == 12 || s == 14 || s
        == 16 || s == 18 || s == 21 || s == 23 || s == 25 || s == 28
}

/// The rotations that turn anything, and how far.
proof fn lemma_turns(s: int, k: int)
    requires
        0 <= s < STAGES,
        0 <= k < dct::stage_width(s),
    ensures
        dct::spec_gate(s, k).rotation == is_turning(s),
        s == 0 && k == 0 ==> dct::spec_gate(s, k).angle == 63,
        s == 1 && k == 0 ==> dct::spec_gate(s, k).angle == 62,
        s == 5 && k == 0 ==> dct::spec_gate(s, k).angle == 60,
        s == 8 && k == 0 ==> dct::spec_gate(s, k).angle == 56,
        s == 10 && k == 0 ==> dct::spec_gate(s, k).angle == 32,
        s == 14 && k < 2 ==> dct::spec_gate(s, k).angle == 56,
        s == 18 && k < 2 ==> dct::spec_gate(s, k).angle == 48,
        s == 23 && k < 4 ==> dct::spec_gate(s, k).angle == 48,
        s == 25 || s == 28 ==> dct::spec_gate(s, k).angle == 32,
{
    reveal(dct::spec_gate);
    lemma_reversed_zero(2);
    lemma_reversed_zero(4);
    lemma_reversed_seven();
}

/// The larger of two slacks.
spec fn larger(a: int, b: int) -> int {
    if a < b {
        b
    } else {
        a
    }
}

/// Whether gate `k` of stage `s` leaves its two entries with no more slack than
/// the next stage finds.
#[verifier::opaque]
spec fn settles(n: int, e: int, s: int, k: int) -> bool {
    let g = dct::spec_gate(s, k);
    let (a, b) = ends(s, k);
    let (sa, sb) = (slack_at(n, e, s, a), slack_at(n, e, s, b));
    let (na, nb) = (slack_at(n, e, s + 1, a), slack_at(n, e, s + 1, b));
    if sa < 0 && sb < 0 {
        true
    } else if g.rotation {
        let (c, t) = (
            cosine::spec_cos128(g.angle as int),
            cosine::spec_sin128(g.angle as int),
        );
        &&& share(sa, c) + share(sb, t) <= weight_at(s)
        &&& share(sa, t) + share(sb, c) <= weight_at(s)
        &&& weighed(s, larger(sa, sb)) < 4096 * na
        &&& weighed(s, larger(sa, sb)) < 4096 * nb
        &&& weighed(s, most_at(s)) <= 4096 * most_at(s + 1)
    } else {
        &&& joined(sa, sb) <= na
        &&& joined(sa, sb) <= nb
        &&& sa >= 0 && sb >= 0 ==> 2 * most_at(s) <= most_at(s + 1)
    }
}

proof fn lemma_first_stages_settle(n: int, e: int, s: int, k: int)
    requires
        is_line(n, e),
        0 <= s < 6,
        0 <= k < dct::stage_gates(n, s),
    ensures
        settles(n, e, s, k),
{
    reveal(ends);
    reveal(slack_at);
    reveal(settles);
    lemma_weights();
    lemma_turns(s, k);
    if s == 0 {
        assert(settles(n, e, 0, k));
    } else if s == 1 {
        assert(settles(n, e, 1, k));
    } else if s == 2 {
        assert(settles(n, e, 2, k));
    } else if s == 3 {
        assert(settles(n, e, 3, k));
    } else if s == 4 {
        assert(settles(n, e, 4, k));
    } else if s == 5 {
        assert(settles(n, e, 5, k));
    }
}

proof fn lemma_early_stages_settle(n: int, e: int, s: int, k: int)
    requires
        is_line(n, e),
        6 <= s < 12,
        0 <= k < dct::stage_gates(n, s),
    ensures
        settles(n, e, s, k),
{
    reveal(ends);
    reveal(slack_at);
    reveal(settles);
    lemma_weights();
    lemma_turns(s, k);
    if s == 6 {
        assert(settles(n, e, 6, k));
    } else if s == 7 {
        assert(settles(n, e, 7, k));
    } else if s == 8 {
        assert(settles(n, e, 8, k));
    } else if s == 9 {
        assert(settles(n, e, 9, k));
    } else if s == 10 {
        assert(settles(n, e, 10, k));
    } else if s == 11 {
        assert(settles(n, e, 11, k));
    }
}

proof fn lemma_middle_stages_settle(n: int, e: int, s: int, k: int)
    requires
        is_line(n, e),
        12 <= s < 18,
        0 <= k < dct::stage_gates(n, s),
    ensures
        settles(n, e, s, k),
{
    reveal(ends);
    reveal(slack_at);
    reveal(settles);
    lemma_weights();
    lemma_turns(s, k);
    if s == 12 {
        assert(settles(n, e, 12, k));
    } else if s == 13 {
        assert(settles(n, e, 13, k));
    } else if s == 14 {
        assert(settles(n, e, 14, k));
    } else if s == 15 {
        assert(settles(n, e, 15, k));
    } else if s == 16 {
        assert(settles(n, e, 16, k));
    } else if s == 17 {
        assert(settles(n, e, 17, k));
    }
}

proof fn lemma_late_stages_settle(n: int, e: int, s: int, k: int)
    requires
        is_line(n, e),
        18 <= s < 24,
        0 <= k < dct::stage_gates(n, s),
    ensures
        settles(n, e, s, k),
{
    reveal(ends);
    reveal(slack_at);
    reveal(settles);
    lemma_weights();
    lemma_turns(s, k);
    if s == 18 {
        assert(settles(n, e, 18, k));
    } else if s == 19 {
        assert(settles(n, e, 19, k));
    } else if s == 20 {
        assert(settles(n, e, 20, k));
    } else if s == 21 {
        assert(settles(n, e, 21, k));
    } else if s == 22 {
        assert(settles(n, e, 22, k));
    } else if s == 23 {
        assert(settles(n, e, 23, k));
    }
}

proof fn lemma_last_stages_settle(n: int, e: int, s: int, k: int)
    requires
        is_line(n, e),
        24 <= s < 30,
        0 <= k < dct::stage_gates(n, s),
    ensures
        settles(n, e, s, k),
{
    reveal(ends);
    reveal(slack_at);
    reveal(settles);
    lemma_weights();
    lemma_turns(s, k);
    if s == 24 {
        assert(settles(n, e, 24, k));
    } else if s == 25 {
        assert(settles(n, e, 25, k));
    } else if s == 26 {
        assert(settles(n, e, 26, k));
    } else if s == 27 {
        assert(settles(n, e, 27, k));
    } else if s == 28 {
        assert(settles(n, e, 28, k));
    } else if s == 29 {
        assert(settles(n, e, 29, k));
    }
}

/// Every gate leaves its two entries with no more slack than the next stage
/// finds.
proof fn lemma_gates_settle(n: int, e: int, s: int, k: int)
    requires
        is_line(n, e),
        0 <= s < STAGES,
        0 <= k < dct::stage_gates(n, s),
    ensures
        settles(n, e, s, k),
{
    if s < 6 {
        lemma_first_stages_settle(n, e, s, k);
    } else if s < 12 {
        lemma_early_stages_settle(n, e, s, k);
    } else if s < 18 {
        lemma_middle_stages_settle(n, e, s, k);
    } else if s < 24 {
        lemma_late_stages_settle(n, e, s, k);
    } else {
        lemma_last_stages_settle(n, e, s, k);
    }
}

/// An entry that no gate touches has no less slack than before.
proof fn lemma_slack_grows(n: int, e: int, s: int, i: int)
    requires
        is_line(n, e),
        0 <= s < STAGES,
    ensures
        slack_at(n, e, s, i) <= slack_at(n, e, s + 1, i),
        most_at(s) <= most_at(s + 1),
{
    reveal(slack_at);
}

/// What a gate that settles does to two lines.
proof fn lemma_gate(x: Seq<i32>, y: Seq<i32>, n: int, e: int, s: int, k: int, r: int)
    requires
        is_line(n, e),
        0 <= s < STAGES,
        0 <= k < dct::stage_gates(n, s),
        x.len() == 2 * half_of(n),
        y.len() == x.len(),
        1 <= r <= 32,
        ({
            let (a, b) = ends(s, k);
            &&& near(x[a] as int, y[a] as int, slack_at(n, e, s, a), most_at(s))
            &&& near(x[b] as int, y[b] as int, slack_at(n, e, s, b), most_at(s))
        }),
    ensures
        ({
            let (a, b) = ends(s, k);
            let g = dct::spec_gate(s, k);
            let (u, v) = (dct::apply_gate(x, g, r), dct::apply_gate(y, g, r));
            &&& u.len() == x.len() && v.len() == y.len()
            &&& near(u[a] as int, v[a] as int, slack_at(n, e, s + 1, a), most_at(s + 1))
            &&& near(u[b] as int, v[b] as int, slack_at(n, e, s + 1, b), most_at(s + 1))
            &&& forall|i: int| i != a && i != b && 0 <= i < x.len() ==> #[trigger] u[i] == x[i]
            &&& forall|i: int| i != a && i != b && 0 <= i < x.len() ==> #[trigger] v[i] == y[i]
        }),
{
    lemma_gates_settle(n, e, s, k);
    reveal(settles);
    lemma_place(n, s, k);
    let g = dct::spec_gate(s, k);
    let (a, b) = ends(s, k);
    let (sa, sb) = (slack_at(n, e, s, a), slack_at(n, e, s, b));
    let (na, nb) = (slack_at(n, e, s + 1, a), slack_at(n, e, s + 1, b));
    let c = cosine::spec_cos128(g.angle as int);
    let t = cosine::spec_sin128(g.angle as int);
    if sa < 0 && sb < 0 {
        lane::lemma_clamp_range(0, r);
        assert(0 * c == 0 && 0 * t == 0);
    } else if g.rotation {
        cosine::cosines_are_at_most_one(g.angle as int);
        cosine::cosines_are_at_most_one(g.angle as int - 64);
        let m = larger(sa, sb);
        lemma_weighed(s, m);
        lemma_weighed(s, most_at(s));
        lemma_rotation(
            (x[a], y[a]),
            (x[b], y[b]),
            (sa, sb),
            most_at(s),
            (c, t),
            m,
            weight_at(s),
            (na, most_at(s + 1)),
        );
        lemma_rotation(
            (x[a], y[a]),
            (x[b], y[b]),
            (sa, sb),
            most_at(s),
            (c, t),
            m,
            weight_at(s),
            (nb, most_at(s + 1)),
        );
    } else {
        lemma_hadamard((x[a], y[a]), (x[b], y[b]), (sa, sb), most_at(s), (na, most_at(s + 1)), r);
        lemma_hadamard((x[a], y[a]), (x[b], y[b]), (sa, sb), most_at(s), (nb, most_at(s + 1)), r);
        lemma_hadamard((x[b], y[b]), (x[a], y[a]), (sb, sa), most_at(s), (na, most_at(s + 1)), r);
        lemma_hadamard((x[b], y[b]), (x[a], y[a]), (sb, sa), most_at(s), (nb, most_at(s + 1)), r);
    }
}

/// Whether one of the first `k` gates of stage `s` acts on entry `i`.
spec fn is_touched(s: int, k: int, i: int) -> bool
    decreases k,
{
    k > 0 && (ends(s, k - 1).0 == i || ends(s, k - 1).1 == i || is_touched(s, k - 1, i))
}

proof fn lemma_untouched(s: int, j: int, k: int)
    requires
        0 <= s < STAGES,
        0 <= j <= k < dct::stage_width(s),
    ensures
        !is_touched(s, j, ends(s, k).0),
        !is_touched(s, j, ends(s, k).1),
    decreases j,
{
    if j > 0 {
        lemma_untouched(s, j - 1, k);
        lemma_gates_apart(s, j - 1, k);
    }
}

/// Whether two lines are each other's negation but for the slack that each
/// entry has after `s` stages.
#[verifier::opaque]
spec fn are_near(x: Seq<i32>, y: Seq<i32>, n: int, e: int, s: int) -> bool {
    &&& x.len() == 2 * half_of(n)
    &&& y.len() == x.len()
    &&& forall|i: int|
        0 <= i < x.len() ==> near(
            #[trigger] x[i] as int,
            y[i] as int,
            slack_at(n, e, s, i),
            most_at(s),
        )
}

proof fn lemma_near_at(x: Seq<i32>, y: Seq<i32>, n: int, e: int, s: int, i: int)
    requires
        are_near(x, y, n, e, s),
        0 <= i < 2 * half_of(n),
    ensures
        x.len() == 2 * half_of(n),
        y.len() == x.len(),
        near(x[i] as int, y[i] as int, slack_at(n, e, s, i), most_at(s)),
{
    reveal(are_near);
}

/// Whether two lines have come as far as the first `k` gates of a stage: what
/// these touch has the slack of the next stage, and the rest is as it was.
#[verifier::opaque]
spec fn are_under_way(
    from: (Seq<i32>, Seq<i32>),
    to: (Seq<i32>, Seq<i32>),
    n: int,
    e: int,
    s: int,
    k: int,
) -> bool {
    &&& to.0.len() == from.0.len()
    &&& to.1.len() == from.1.len()
    &&& forall|i: int|
        0 <= i < 2 * half_of(n) ==> if is_touched(s, k, i) {
            near(
                #[trigger] to.0[i] as int,
                to.1[i] as int,
                slack_at(n, e, s + 1, i),
                most_at(s + 1),
            )
        } else {
            to.0[i] == from.0[i] && to.1[i] == from.1[i]
        }
}

proof fn lemma_untouched_at(
    from: (Seq<i32>, Seq<i32>),
    to: (Seq<i32>, Seq<i32>),
    n: int,
    e: int,
    s: int,
    k: int,
    i: int,
)
    requires
        are_under_way(from, to, n, e, s, k),
        0 <= i < 2 * half_of(n),
        !is_touched(s, k, i),
    ensures
        to.0[i] == from.0[i],
        to.1[i] == from.1[i],
        to.0.len() == from.0.len(),
        to.1.len() == from.1.len(),
{
    reveal(are_under_way);
    assert(to.0[i] == from.0[i]);
}

proof fn lemma_next_gate(
    from: (Seq<i32>, Seq<i32>),
    to: (Seq<i32>, Seq<i32>),
    next: (Seq<i32>, Seq<i32>),
    n: int,
    e: int,
    s: int,
    k: int,
)
    requires
        k > 0,
        are_under_way(from, to, n, e, s, k - 1),
        to.0.len() == 2 * half_of(n),
        to.1.len() == 2 * half_of(n),
        next.0.len() == to.0.len(),
        next.1.len() == to.1.len(),
        ({
            let (a, b) = ends(s, k - 1);
            &&& near(next.0[a] as int, next.1[a] as int, slack_at(n, e, s + 1, a), most_at(s + 1))
            &&& near(next.0[b] as int, next.1[b] as int, slack_at(n, e, s + 1, b), most_at(s + 1))
            &&& forall|i: int|
                i != a && i != b && 0 <= i < to.0.len() ==> #[trigger] next.0[i] == to.0[i]
            &&& forall|i: int|
                i != a && i != b && 0 <= i < to.0.len() ==> #[trigger] next.1[i] == to.1[i]
        }),
    ensures
        are_under_way(from, next, n, e, s, k),
{
    reveal(are_under_way);
    let (a, b) = ends(s, k - 1);
    assert forall|i: int| 0 <= i < 2 * half_of(n) implies if is_touched(s, k, i) {
        near(
            #[trigger] next.0[i] as int,
            next.1[i] as int,
            slack_at(n, e, s + 1, i),
            most_at(s + 1),
        )
    } else {
        next.0[i] == from.0[i] && next.1[i] == from.1[i]
    } by {
        if i != a && i != b {
            assert(next.0[i] == to.0[i] && next.1[i] == to.1[i]);
            assert(is_touched(s, k, i) == is_touched(s, k - 1, i));
        }
    }
}

proof fn lemma_stage(x: Seq<i32>, y: Seq<i32>, n: int, e: int, s: int, k: int, r: int)
    requires
        is_line(n, e),
        0 <= s < STAGES,
        0 <= k <= dct::stage_gates(n, s),
        are_near(x, y, n, e, s),
        1 <= r <= 32,
    ensures
        are_under_way(
            (x, y),
            (dct::run_stage(x, s, k, r, false), dct::run_stage(y, s, k, r, false)),
            n,
            e,
            s,
            k,
        ),
    decreases k,
{
    if k <= 0 {
        reveal(are_under_way);
    } else {
        lemma_stage(x, y, n, e, s, k - 1, r);
        lemma_untouched(s, k - 1, k - 1);
        lemma_place(n, s, k - 1);
        let u = dct::run_stage(x, s, k - 1, r, false);
        let v = dct::run_stage(y, s, k - 1, r, false);
        let (a, b) = ends(s, k - 1);
        lemma_untouched_at((x, y), (u, v), n, e, s, k - 1, a);
        lemma_untouched_at((x, y), (u, v), n, e, s, k - 1, b);
        lemma_near_at(x, y, n, e, s, a);
        lemma_near_at(x, y, n, e, s, b);
        lemma_gate(u, v, n, e, s, k - 1, r);
        let g = dct::spec_gate(s, k - 1);
        lemma_next_gate(
            (x, y),
            (u, v),
            (dct::apply_gate(u, g, r), dct::apply_gate(v, g, r)),
            n,
            e,
            s,
            k,
        );
    }
}

proof fn lemma_stage_over(
    from: (Seq<i32>, Seq<i32>),
    to: (Seq<i32>, Seq<i32>),
    n: int,
    e: int,
    s: int,
    k: int,
)
    requires
        is_line(n, e),
        0 <= s < STAGES,
        are_near(from.0, from.1, n, e, s),
        are_under_way(from, to, n, e, s, k),
    ensures
        are_near(to.0, to.1, n, e, s + 1),
{
    reveal(are_near);
    reveal(are_under_way);
    assert forall|i: int| 0 <= i < to.0.len() implies near(
        #[trigger] to.0[i] as int,
        to.1[i] as int,
        slack_at(n, e, s + 1, i),
        most_at(s + 1),
    ) by {
        lemma_slack_grows(n, e, s, i);
        if !is_touched(s, k, i) {
            lemma_near_at(from.0, from.1, n, e, s, i);
            lemma_untouched_at(from, to, n, e, s, k, i);
        }
    }
}

/// The network on two lines that are each other's negation but for a slack in
/// their first two entries.
proof fn lemma_network(x: Seq<i32>, y: Seq<i32>, n: int, e: int, s: int, r: int)
    requires
        is_line(n, e),
        0 <= s <= STAGES,
        are_near(x, y, n, e, 0),
        1 <= r <= 32,
    ensures
        are_near(dct::run_inverse(x, n, s, r), dct::run_inverse(y, n, s, r), n, e, s),
    decreases s,
{
    if s > 0 {
        lemma_network(x, y, n, e, s - 1, r);
        let u = dct::run_inverse(x, n, s - 1, r);
        let v = dct::run_inverse(y, n, s - 1, r);
        let k = dct::stage_gates(n, s - 1);
        lemma_stage(u, v, n, e, s - 1, k, r);
        lemma_stage_over(
            (u, v),
            (
                dct::run_stage(u, s - 1, k, r, false),
                dct::run_stage(v, s - 1, k, r, false),
            ),
            n,
            e,
            s - 1,
            k,
        );
    }
}

/// Whether two lines carry only their first two entries, each the other's
/// negation but for a slack of `e`.
#[verifier::opaque]
spec fn are_low(x: Seq<i32>, y: Seq<i32>, e: int) -> bool {
    &&& y.len() == x.len()
    &&& forall|j: int|
        0 <= j < x.len() ==> near(
            #[trigger] x[j] as int,
            y[j] as int,
            if j < 2 {
                e
            } else {
                -1
            },
            0x8_0000,
        )
}

/// The network finds the first entry in its place, and the second one half way.
proof fn lemma_permuted(x: Seq<i32>, y: Seq<i32>, n: int, e: int, j: int)
    requires
        is_line(n, e),
        are_low(x, y, e),
        x.len() == 2 * half_of(n),
        0 <= j < x.len(),
    ensures
        near(
            dct::spec_permute(x, n as nat)[j] as int,
            dct::spec_permute(y, n as nat)[j] as int,
            slack_at(n, e, 0, j),
            most_at(0),
        ),
{
    reveal(slack_at);
    reveal(are_low);
    bits::lemma_pow2_values();
    dct::lemma_brev_bound(n as nat, j);
    dct::bit_reversal_is_an_involution(n as nat, j);
    lemma_reversed_zero(n as nat);
    lemma_reversed_one(n as nat);
    let from = dct::spec_brev(n as nat, j);
    assert(near(x[from] as int, y[from] as int, if from < 2 { e } else { -1 }, 0x8_0000));
}

/// The slack that a whole line ends with.
spec fn line_slack(e: int) -> int {
    if e == 1 {
        7
    } else {
        11
    }
}

/// The inverse DCT of two such lines.
proof fn lemma_line(x: Seq<i32>, y: Seq<i32>, n: int, e: int, r: int, i: int)
    requires
        is_line(n, e),
        1 <= r <= 32,
        x.len() == 2 * half_of(n),
        are_low(x, y, e),
        0 <= i < x.len(),
    ensures
        near(
            dct::spec_inverse_dct(x, n, r)[i] as int,
            dct::spec_inverse_dct(y, n, r)[i] as int,
            line_slack(e),
            0x1000_0000,
        ),
{
    let u = dct::spec_permute(x, n as nat);
    let v = dct::spec_permute(y, n as nat);
    assert(u.len() == x.len() && v.len() == x.len()) by {
        reveal(are_low);
    }
    assert(are_near(u, v, n, e, 0)) by {
        reveal(are_near);
        assert forall|j: int| 0 <= j < u.len() implies near(
            #[trigger] u[j] as int,
            v[j] as int,
            slack_at(n, e, 0, j),
            most_at(0),
        ) by {
            lemma_permuted(x, y, n, e, j);
        }
    }
    lemma_network(u, v, n, e, STAGES as int, r);
    lemma_near_at(
        dct::run_inverse(u, n, STAGES as int, r),
        dct::run_inverse(v, n, STAGES as int, r),
        n,
        e,
        STAGES as int,
        i,
    );
    assert(slack_at(n, e, STAGES as int, i) == line_slack(e)) by {
        reveal(slack_at);
    }
}

/// The inverse transform of a row or column of a 32x32 or 64x64 DCT block.
proof fn lemma_transformed(x: Seq<i32>, y: Seq<i32>, side: int, e: int, r: int, i: int)
    requires
        side == 32 || side == 64,
        e == 1 || e == 2,
        1 <= r <= 32,
        x.len() == side,
        are_low(x, y, e),
        0 <= i < side,
    ensures
        near(
            inverse::spec_inverse_1d(x, r, TxType1d::Dct)[i] as int,
            inverse::spec_inverse_1d(y, r, TxType1d::Dct)[i] as int,
            line_slack(e),
            0x1000_0000,
        ),
{
    assert(y.len() == side) by {
        reveal(are_low);
    }
    lemma_line(x, y, inverse::log2_side(side), e, r, i);
    reveal(inverse::spec_inverse_1d);
}

pub proof fn lemma_pow2_bounds(n: nat)
    requires
        n <= 19,
    ensures
        0 < bits::pow2(n) <= 0x8_0000,
{
    bits::lemma_pow2_positive(n);
    bits::lemma_pow2_monotonic(n, 19);
    assert(bits::pow2(19) == 0x8_0000) by {
        reveal_with_fuel(bits::pow2, 20);
    }
}

proof fn lemma_shifted(v: int)
    ensures
        bits::spec_round2(v, 2) == (v + 2) / 4,
        bits::spec_round2(v, 4) == (v + 8) / 16,
{
    bits::lemma_pow2_values();
    reveal(bits::spec_round2);
}

/// What the row pass rounds off leaves a slack of two.
proof fn lemma_quartered(v: int, w: int, r: int)
    requires
        near(v, w, 7, 0x1000_0000),
        1 <= r <= 20,
    ensures
        near(
            lane::spec_clamp_range(bits::spec_round2(v, 2), r) as i32 as int,
            lane::spec_clamp_range(bits::spec_round2(w, 2), r) as i32 as int,
            2,
            0x8_0000,
        ),
{
    lemma_shifted(v);
    lemma_shifted(w);
    let p = (v + 2) / 4;
    let q = (w + 2) / 4;
    assert(near(p, q, 2, 0x1000_0000));
    lemma_clamped(p, q, 2, 0x1000_0000, r);
    lane::lemma_clamp_range(p, r);
    lane::lemma_clamp_range(q, r);
    lemma_pow2_bounds((r - 1) as nat);
}

/// What the column pass rounds off leaves a slack of one.
proof fn lemma_sixteenth(v: int, w: int)
    requires
        near(v, w, 11, 0x1000_0000),
    ensures
        -1 <= bits::spec_round2(v, 4) as i32 + bits::spec_round2(w, 4) as i32 <= 1,
{
    lemma_shifted(v);
    lemma_shifted(w);
}

/// Whether two squares of coefficients carry only their corners, and one is the
/// other's negation but for a slack of one.
#[verifier::opaque]
pub open spec fn are_opposite(c: Seq<i32>, d: Seq<i32>, side: int) -> bool {
    forall|i: int, j: int|
        0 <= i < side && 0 <= j < side ==> near(
            #[trigger] inverse::coefficient(c, side, i, j) as int,
            inverse::coefficient(d, side, i, j) as int,
            if i >= 2 || j >= 2 {
                -1
            } else {
                1
            },
            0x8_0000,
        )
}

proof fn lemma_row_inputs(c: Seq<i32>, d: Seq<i32>, side: int, i: int)
    requires
        side == 32 || side == 64,
        are_opposite(c, d, side),
        0 <= i < 2,
    ensures
        are_low(inverse::row_input(c, side, side, i), inverse::row_input(d, side, side, i), 1),
{
    reveal(are_low);
    let x = inverse::row_input(c, side, side, i);
    let y = inverse::row_input(d, side, side, i);
    assert forall|k: int| 0 <= k < side implies near(
        #[trigger] x[k] as int,
        y[k] as int,
        if k < 2 {
            1
        } else {
            -1
        },
        0x8_0000,
    ) by {
        reveal(are_opposite);
        assert(near(
            inverse::coefficient(c, side, i, k) as int,
            inverse::coefficient(d, side, i, k) as int,
            if k < 2 {
                1
            } else {
                -1
            },
            0x8_0000,
        ));
    }
}

proof fn lemma_rows_past_the_corner(
    c: Seq<i32>,
    d: Seq<i32>,
    side: int,
    bit_depth: int,
    i: int,
    j: int,
)
    requires
        side == 32 || side == 64,
        are_opposite(c, d, side),
        quant::is_bit_depth(bit_depth),
        2 <= i < side,
        0 <= j < side,
    ensures
        inverse::row_output(c, side, side, bit_depth, TxType::DctDct, i)[j] == 0,
        inverse::row_output(d, side, side, bit_depth, TxType::DctDct, i)[j] == 0,
{
    assert forall|k: int| 0 <= k < side implies inverse::coefficient(c, side, i, k) == 0
        && inverse::coefficient(d, side, i, k) == 0 by {
        reveal(are_opposite);
        assert(near(
            inverse::coefficient(c, side, i, k) as int,
            inverse::coefficient(d, side, i, k) as int,
            -1,
            0x8_0000,
        ));
    }
    inverse::lemma_empty_row(c, side, side, bit_depth, TxType::DctDct, i);
    inverse::lemma_empty_row(d, side, side, bit_depth, TxType::DctDct, i);
}

proof fn lemma_row_output(c: Seq<i32>, side: int, bit_depth: int, i: int, j: int)
    requires
        side == 32 || side == 64,
        0 <= j < side,
    ensures
        inverse::row_output(c, side, side, bit_depth, TxType::DctDct, i)[j]
            == lane::spec_clamp_range(
            bits::spec_round2(
                inverse::spec_inverse_1d(
                    inverse::row_input(c, side, side, i),
                    inverse::row_clamp(bit_depth),
                    TxType1d::Dct,
                )[j] as int,
                2,
            ),
            inverse::col_clamp(bit_depth),
        ) as i32,
{
    assert(tx_type::row_kind(TxType::DctDct) == TxType1d::Dct) by {
        reveal(tx_type::row_kind);
    }
}

/// A row of the first pass that carries something.
proof fn lemma_row_of_the_corner(
    c: Seq<i32>,
    d: Seq<i32>,
    side: int,
    bit_depth: int,
    i: int,
    j: int,
)
    requires
        side == 32 || side == 64,
        are_opposite(c, d, side),
        quant::is_bit_depth(bit_depth),
        0 <= i < 2,
        0 <= j < side,
    ensures
        near(
            inverse::row_output(c, side, side, bit_depth, TxType::DctDct, i)[j] as int,
            inverse::row_output(d, side, side, bit_depth, TxType::DctDct, i)[j] as int,
            2,
            0x8_0000,
        ),
{
    let x = inverse::row_input(c, side, side, i);
    let y = inverse::row_input(d, side, side, i);
    let r = inverse::row_clamp(bit_depth);
    lemma_row_inputs(c, d, side, i);
    lemma_transformed(x, y, side, 1, r, j);
    lemma_quartered(
        inverse::spec_inverse_1d(x, r, TxType1d::Dct)[j] as int,
        inverse::spec_inverse_1d(y, r, TxType1d::Dct)[j] as int,
        inverse::col_clamp(bit_depth),
    );
    lemma_row_output(c, side, bit_depth, i, j);
    lemma_row_output(d, side, bit_depth, i, j);
}

/// A column as the second pass reads it.
proof fn lemma_column(c: Seq<i32>, d: Seq<i32>, side: int, bit_depth: int, j: int)
    requires
        side == 32 || side == 64,
        are_opposite(c, d, side),
        quant::is_bit_depth(bit_depth),
        0 <= j < side,
    ensures
        are_low(
            inverse::column_input(c, side, side, bit_depth, TxType::DctDct, j),
            inverse::column_input(d, side, side, bit_depth, TxType::DctDct, j),
            2,
        ),
{
    reveal(are_low);
    let x = inverse::column_input(c, side, side, bit_depth, TxType::DctDct, j);
    let y = inverse::column_input(d, side, side, bit_depth, TxType::DctDct, j);
    assert forall|k: int| 0 <= k < side implies near(
        #[trigger] x[k] as int,
        y[k] as int,
        if k < 2 {
            2
        } else {
            -1
        },
        0x8_0000,
    ) by {
        if k < 2 {
            lemma_row_of_the_corner(c, d, side, bit_depth, k, j);
        } else {
            lemma_rows_past_the_corner(c, d, side, bit_depth, k, j);
        }
    }
}

/// A sample of the second pass.
proof fn lemma_sample(c: Seq<i32>, d: Seq<i32>, side: int, bit_depth: int, i: int, j: int)
    requires
        side == 32 || side == 64,
        are_opposite(c, d, side),
        quant::is_bit_depth(bit_depth),
        0 <= i < side,
        0 <= j < side,
    ensures
        -1 <= inverse::residual_at(c, side, side, bit_depth, TxType::DctDct, i, j)
            + inverse::residual_at(d, side, side, bit_depth, TxType::DctDct, i, j) <= 1,
{
    let tx = TxType::DctDct;
    let x = inverse::column_input(c, side, side, bit_depth, tx, j);
    let y = inverse::column_input(d, side, side, bit_depth, tx, j);
    let r = inverse::col_clamp(bit_depth);
    lemma_column(c, d, side, bit_depth, j);
    lemma_transformed(x, y, side, 2, r, i);
    lemma_sixteenth(
        inverse::spec_inverse_1d(x, r, TxType1d::Dct)[i] as int,
        inverse::spec_inverse_1d(y, r, TxType1d::Dct)[i] as int,
    );
    assert(tx_type::col_kind(tx) == TxType1d::Dct && !tx_type::flips_rows(tx)
        && !tx_type::flips_columns(tx)) by {
        reveal(tx_type::col_kind);
        reveal(tx_type::flips_rows);
        reveal(tx_type::flips_columns);
    }
}

/// The residuals of two such blocks are each other's negation but for one.
pub proof fn lemma_residuals(c: Seq<i32>, d: Seq<i32>, side: int, bit_depth: int, p: int)
    requires
        side == 32 || side == 64,
        are_opposite(c, d, side),
        quant::is_bit_depth(bit_depth),
        0 <= p < side * side,
    ensures
        -1 <= inverse::spec_inverse_2d(c, side, side, bit_depth, TxType::DctDct)[p]
            + inverse::spec_inverse_2d(d, side, side, bit_depth, TxType::DctDct)[p] <= 1,
{
    let i = p / side;
    let j = p % side;
    assert(0 <= i < side && 0 <= j < side) by (nonlinear_arith)
        requires
            0 <= p < side * side,
            side > 0,
            i == p / side,
            j == p % side,
    ;
    lemma_sample(c, d, side, bit_depth, i, j);
}

} // verus!
