//! The values a transform network carries: one coefficient, or eight
//! neighbouring columns at once.
use crate::bits;
use crate::bits::clamp_range;
use vstd::prelude::*;

verus! {

/// `Round2` at the cosine table's precision, of a rotation's 64-bit sum.
pub open spec fn spec_round_cos(x: int) -> i32 {
    ((x + 2048) / 4096) as i32
}

/// The first output of a rotation by cosine `c` and sine `s`.
pub open spec fn rotated_first(a: i32, b: i32, c: int, s: int) -> i32 {
    spec_round_cos(a * c - b * s)
}

/// The second output of a rotation by cosine `c` and sine `s`.
pub open spec fn rotated_second(a: i32, b: i32, c: int, s: int) -> i32 {
    spec_round_cos(a * s + b * c)
}

/// `x` held to a signed integer of `r` bits.
#[verifier::opaque]
pub open spec fn spec_clamp_range(x: int, r: int) -> int {
    bits::spec_clamp(x, -bits::pow2((r - 1) as nat), bits::pow2((r - 1) as nat) - 1)
}

/// The sum output of a Hadamard rotation held to `r` bits.
pub open spec fn summed(a: i32, b: i32, r: int) -> i32 {
    spec_clamp_range(a.wrapping_add(b) as int, r) as i32
}

/// The difference output of a Hadamard rotation held to `r` bits.
pub open spec fn differenced(a: i32, b: i32, r: int) -> i32 {
    spec_clamp_range(a.wrapping_sub(b) as int, r) as i32
}

/// A clamp to `r` bits stays in `r` bits, and leaves zero alone.
pub proof fn lemma_clamp_range(x: int, r: int)
    requires
        1 <= r <= 32,
    ensures
        -bits::pow2((r - 1) as nat) <= spec_clamp_range(x, r) < bits::pow2((r - 1) as nat),
        bits::pow2((r - 1) as nat) <= 0x8000_0000,
        spec_clamp_range(0, r) == 0,
{
    reveal(spec_clamp_range);
    bits::lemma_pow2_positive((r - 1) as nat);
    bits::lemma_pow2_monotonic((r - 1) as nat, 31);
    bits::lemma_pow2_values();
}

/// `x` held to a signed integer of `r` bits.
pub fn clamp_to(x: i32, r: usize) -> (y: i32)
    requires
        1 <= r <= 32,
    ensures
        y == spec_clamp_range(x as int, r as int),
{
    proof {
        reveal(spec_clamp_range);
    }
    clamp_range(x, r)
}

/// `Round2(x, COS_BITS)`, of which the low 32 bits are kept.
pub fn round_cos(x: i64) -> (y: i32)
    requires
        x < 0x7fff_ffff_ffff_f000,
    ensures
        y == spec_round_cos(x as int),
{
    proof {
        bits::lemma_shr_i64((x + 2048) as i64, 12);
        bits::lemma_pow2_values();
    }
    ((x + 2048) >> 12u32) as i32
}

/// What a transform network computes on: every operation acts on each lane
/// of the value alone, and acts on all of them alike.
pub trait Lane: Copy {
    /// How many coefficients a value carries.
    spec fn lanes() -> nat;

    /// The coefficient in lane `l`.
    spec fn lane(self, l: int) -> i32;

    /// Both outputs of one rotation, lane by lane.
    fn btf(a: Self, b: Self, c: i64, s: i64) -> (out: (Self, Self))
        requires
            -4096 <= c <= 4096,
            -4096 <= s <= 4096,
        ensures
            forall|l: int|
                0 <= l < Self::lanes() ==> #[trigger] out.0.lane(l) == rotated_first(
                    a.lane(l),
                    b.lane(l),
                    c as int,
                    s as int,
                ),
            forall|l: int|
                0 <= l < Self::lanes() ==> #[trigger] out.1.lane(l) == rotated_second(
                    a.lane(l),
                    b.lane(l),
                    c as int,
                    s as int,
                ),
    ;

    /// Both outputs of one Hadamard rotation held to `r` bits, lane by lane.
    fn had(a: Self, b: Self, r: usize) -> (out: (Self, Self))
        requires
            1 <= r <= 32,
        ensures
            forall|l: int|
                0 <= l < Self::lanes() ==> #[trigger] out.0.lane(l) == summed(
                    a.lane(l),
                    b.lane(l),
                    r as int,
                ),
            forall|l: int|
                0 <= l < Self::lanes() ==> #[trigger] out.1.lane(l) == differenced(
                    a.lane(l),
                    b.lane(l),
                    r as int,
                ),
    ;
}

/// A product of a coefficient and a cosine stays far inside 64 bits.
proof fn lemma_product_bounds(a: i32, c: i64)
    requires
        -4096 <= c <= 4096,
    ensures
        -0x800_0000_0000 <= a * c <= 0x800_0000_0000,
{
    assert(-0x800_0000_0000 <= a * c <= 0x800_0000_0000) by (nonlinear_arith)
        requires
            -4096 <= c <= 4096,
            -0x8000_0000 <= a <= 0x7fff_ffff,
    ;
}

/// One rotation of one coefficient pair.
fn btf_one(a: i32, b: i32, c: i64, s: i64) -> (out: (i32, i32))
    requires
        -4096 <= c <= 4096,
        -4096 <= s <= 4096,
    ensures
        out.0 == rotated_first(a, b, c as int, s as int),
        out.1 == rotated_second(a, b, c as int, s as int),
{
    proof {
        lemma_product_bounds(a, c);
        lemma_product_bounds(a, s);
        lemma_product_bounds(b, c);
        lemma_product_bounds(b, s);
    }
    let ta: i64 = a as i64;
    let tb: i64 = b as i64;
    (round_cos(ta * c - tb * s), round_cos(ta * s + tb * c))
}

impl Lane for i32 {
    open spec fn lanes() -> nat {
        1
    }

    open spec fn lane(self, l: int) -> i32 {
        self
    }

    fn btf(a: Self, b: Self, c: i64, s: i64) -> (out: (Self, Self)) {
        btf_one(a, b, c, s)
    }

    fn had(a: Self, b: Self, r: usize) -> (out: (Self, Self)) {
        (clamp_to(a.wrapping_add(b), r), clamp_to(a.wrapping_sub(b), r))
    }
}

/// Eight columns at once.
impl Lane for [i32; 8] {
    open spec fn lanes() -> nat {
        8
    }

    open spec fn lane(self, l: int) -> i32 {
        self[l]
    }

    fn btf(a: Self, b: Self, c: i64, s: i64) -> (out: (Self, Self)) {
        let mut x: [i32; 8] = [0i32; 8];
        let mut y: [i32; 8] = [0i32; 8];
        for l in 0..8usize
            invariant
                -4096 <= c <= 4096,
                -4096 <= s <= 4096,
                forall|k: int|
                    0 <= k < l ==> #[trigger] x[k] == rotated_first(a[k], b[k], c as int, s as int),
                forall|k: int|
                    0 <= k < l ==> #[trigger] y[k] == rotated_second(a[k], b[k], c as int, s as int),
        {
            let (p, q): (i32, i32) = btf_one(a[l], b[l], c, s);
            x[l] = p;
            y[l] = q;
        }
        (x, y)
    }

    fn had(a: Self, b: Self, r: usize) -> (out: (Self, Self)) {
        let mut x: [i32; 8] = [0i32; 8];
        let mut y: [i32; 8] = [0i32; 8];
        for l in 0..8usize
            invariant
                1 <= r <= 32,
                forall|k: int| 0 <= k < l ==> #[trigger] x[k] == summed(a[k], b[k], r as int),
                forall|k: int| 0 <= k < l ==> #[trigger] y[k] == differenced(a[k], b[k], r as int),
        {
            x[l] = clamp_to(a[l].wrapping_add(b[l]), r);
            y[l] = clamp_to(a[l].wrapping_sub(b[l]), r);
        }
        (x, y)
    }
}

} // verus!
