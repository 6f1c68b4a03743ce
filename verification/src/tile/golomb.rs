//! The Golomb tail of a level too wide for the base-range syntax.
use crate::bits;
use crate::tile::ops;
use crate::tile::ops::{put_literal, Op};
use vstd::prelude::*;

verus! {

/// How many bits a number takes.
pub open spec fn bit_length(x: int) -> int
    decreases x,
{
    if x <= 0 {
        0
    } else {
        1 + bit_length(x / 2)
    }
}

/// Bit `i` of a number.
pub open spec fn bit_of(x: int, i: int) -> int {
    (x / bits::pow2(i as nat)) % 2
}

/// The bits of the tail of `value`: the length of `value + 1` in unary, less
/// one, as zeros, then its own bits, the most significant first.
pub open spec fn golomb_ops(value: int) -> Seq<Op> {
    let x = value + 1;
    let length = bit_length(x);
    Seq::new(
        (2 * length - 1) as nat,
        |i: int|
            if i < length - 1 {
                ops::literal(0, 1)
            } else {
                ops::literal(bit_of(x, 2 * length - 2 - i), 1)
            },
    )
}

/// How many zeros a sequence of bits starts with.
pub open spec fn leading_zeros(bits: Seq<Op>) -> int
    decreases bits.len(),
{
    if bits.len() == 0 || bits[0] != ops::literal(0, 1) {
        0
    } else {
        1 + leading_zeros(bits.drop_first())
    }
}

/// The number that the `count` bits from `from` on spell.
pub open spec fn number(bits: Seq<Op>, from: int, count: int) -> int
    decreases count,
{
    if count <= 0 {
        0
    } else {
        2 * number(bits, from, count - 1) + if bits[from + count - 1] == ops::literal(1, 1) {
            1int
        } else {
            0int
        }
    }
}

/// The value a decoder reads a Golomb tail as: the zeros say how many bits
/// follow the first one.
pub open spec fn read_golomb(bits: Seq<Op>) -> int {
    let zeros = leading_zeros(bits);
    number(bits, zeros, zeros + 1) - 1
}

/// A number lies between the powers of two that its bits name.
pub proof fn bit_length_is_tight(x: int)
    requires
        1 <= x,
    ensures
        1 <= bit_length(x),
        bits::pow2((bit_length(x) - 1) as nat) <= x < bits::pow2(bit_length(x) as nat),
    decreases x,
{
    if x == 1 {
        assert(bit_length(0) == 0);
        assert(bits::pow2(1) == 2 * bits::pow2(0));
    } else {
        bit_length_is_tight(x / 2);
        let l = bit_length(x / 2);
        assert(bits::pow2(l as nat) == 2 * bits::pow2((l - 1) as nat));
        assert(bits::pow2((l + 1) as nat) == 2 * bits::pow2(l as nat));
    }
}

/// The bits of a number are bounded by its size.
pub proof fn lemma_bit_length_bound(x: int, n: nat)
    requires
        0 <= x < bits::pow2(n),
    ensures
        0 <= bit_length(x) <= n,
{
    if x > 0 {
        bit_length_is_tight(x);
        if bit_length(x) > n {
            bits::lemma_pow2_monotonic(n, (bit_length(x) - 1) as nat);
        }
    }
}

proof fn lemma_zeros(bits: Seq<Op>, n: int)
    requires
        0 <= n < bits.len(),
        forall|i: int| 0 <= i < n ==> bits[i] == ops::literal(0, 1),
        bits[n] == ops::literal(1, 1),
    ensures
        leading_zeros(bits) == n,
    decreases n,
{
    if n > 0 {
        assert(bits.drop_first()[n - 1] == bits[n]);
        lemma_zeros(bits.drop_first(), n - 1);
    }
}

proof fn lemma_number(value: int, count: int)
    requires
        0 <= value,
        0 <= count <= bit_length(value + 1),
    ensures
        number(golomb_ops(value), bit_length(value + 1) - 1, count) == (value + 1) / bits::pow2(
            (bit_length(value + 1) - count) as nat,
        ),
    decreases count,
{
    let x = value + 1;
    let length = bit_length(x);
    bit_length_is_tight(x);
    if count == 0 {
        bits::lemma_quotient(x, bits::pow2(length as nat), 0);
    } else {
        lemma_number(value, count - 1);
        let i = length - count;
        let p = bits::pow2(i as nat);
        let q = bits::pow2((i + 1) as nat);
        bits::lemma_halves(x, i as nat);
        assert(q == bits::pow2((i as nat + 1) as nat));
        assert(golomb_ops(value)[length - 1 + count - 1] == ops::literal(bit_of(x, i), 1));
        assert(bit_of(x, i) == 0 || bit_of(x, i) == 1);
    }
}

/// A decoder reads back the value a Golomb tail was written for, and reads no
/// more than twenty bits of each half where the value is below `2^20 - 1`.
pub proof fn golomb_tail_reads_back(value: int)
    requires
        0 <= value,
    ensures
        read_golomb(golomb_ops(value)) == value,
        value < 0xf_ffff ==> golomb_ops(value).len() <= 39,
{
    let x = value + 1;
    let length = bit_length(x);
    bit_length_is_tight(x);
    let all = golomb_ops(value);
    assert(all[length - 1] == ops::literal(1, 1)) by {
        let p = bits::pow2((length - 1) as nat);
        assert(bits::pow2(length as nat) == 2 * p);
        bits::lemma_quotient(x, p, 1);
    }
    lemma_zeros(all, length - 1);
    lemma_number(value, length);
    if value < 0xf_ffff {
        bits::lemma_pow2_values();
        bits::lemma_pow2_add(10, 10);
        lemma_bit_length_bound(x, 20);
    }
}

/// Writes the remainder of a level the base and base-range syntax could not
/// reach: the value plus one, as its bit length in unary followed by the
/// value's own bits, most significant first.
pub fn write_golomb(out: &mut Vec<Op>, value: u32)
    requires
        value < u32::MAX,
    ensures
        final(out)@ == old(out)@ + golomb_ops(value as int),
{
    let x: u64 = value as u64 + 1;
    let mut length: u32 = 1;
    let mut top: u64 = 1;
    let mut rest: u64 = x / 2;
    proof {
        bits::lemma_pow2_values();
        lemma_bit_length_bound(x as int, 32);
    }
    while rest > 0
        invariant
            1 <= length,
            length - 1 + bit_length(rest as int) + 1 == bit_length(x as int),
            bit_length(x as int) <= 33,
            top == bits::pow2((length - 1) as nat),
            top * rest <= x,
            1 <= x <= 0xffff_ffff,
        decreases rest,
    {
        proof {
            bit_length_is_tight(rest as int);
            assert(2 * top <= 2 * x) by (nonlinear_arith)
                requires
                    top * rest <= x,
                    rest > 0,
                    top >= 0,
            ;
            assert((2 * top) * (rest / 2) <= top * rest) by (nonlinear_arith)
                requires
                    2 * (rest / 2) <= rest,
                    top >= 0,
            ;
            assert(bits::pow2(length as nat) == 2 * bits::pow2((length - 1) as nat));
        }
        rest = rest / 2;
        length += 1;
        top = 2 * top;
    }
    proof {
        assert(length == bit_length(x as int));
        assert(out@ =~= old(out)@ + golomb_ops(value as int).take(0));
    }
    let mut i: u32 = 0;
    while i < length - 1
        invariant
            i <= length - 1,
            length == bit_length(value + 1),
            1 <= length <= 33,
            out@ == old(out)@ + golomb_ops(value as int).take(i as int),
        decreases length - i,
    {
        put_literal(out, 0, 1);
        i += 1;
        proof {
            assert(golomb_ops(value as int).take(i as int) =~= golomb_ops(value as int).take(
                i - 1,
            ).push(ops::literal(0, 1)));
        }
    }
    while i < 2 * length - 1
        invariant
            length - 1 <= i <= 2 * length - 1,
            x == value + 1,
            length == bit_length(x as int),
            1 <= length <= 33,
            i < 2 * length - 1 ==> top == bits::pow2((2 * length - 2 - i) as nat),
            out@ == old(out)@ + golomb_ops(value as int).take(i as int),
        decreases 2 * length - i,
    {
        proof {
            bits::lemma_pow2_positive((2 * length - 2 - i) as nat);
        }
        put_literal(out, ((x / top) % 2) as u32, 1);
        proof {
            if i + 1 < 2 * length - 1 {
                assert(bits::pow2((2 * length - 2 - i) as nat) == 2 * bits::pow2(
                    (2 * length - 3 - i) as nat,
                ));
            }
            assert(golomb_ops(value as int).take(i + 1) =~= golomb_ops(value as int).take(
                i as int,
            ).push(ops::literal(bit_of(x as int, 2 * length - 2 - i), 1)));
        }
        top = top / 2;
        i += 1;
    }
    proof {
        assert(golomb_ops(value as int).take(i as int) =~= golomb_ops(value as int));
    }
}

} // verus!
