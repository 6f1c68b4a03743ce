//! The fixed-point cosines every rotation of the transforms is made of.
use vstd::prelude::*;

verus! {

/// `4096 * cos(angle * pi / 128)`, rounded, over the first quadrant.
pub const COS128_LOOKUP: [i32; 65] = [
    4096, 4095, 4091, 4085, 4076, 4065, 4052, 4036, 4017, 3996, 3973, 3948, 3920, 3889, 3857, 3822,
    3784, 3745, 3703, 3659, 3612, 3564, 3513, 3461, 3406, 3349, 3290, 3229, 3166, 3102, 3035, 2967,
    2896, 2824, 2751, 2675, 2598, 2520, 2440, 2359, 2276, 2191, 2106, 2019, 1931, 1842, 1751, 1660,
    1567, 1474, 1380, 1285, 1189, 1092, 995, 897, 799, 700, 601, 501, 401, 301, 201, 101, 0,
];

/// The cosine of `a / 256` of a turn, of the first one, folded from its first
/// quadrant.
#[verifier::opaque]
pub open spec fn folded(a: int) -> int {
    if a <= 64 {
        COS128_LOOKUP[a] as int
    } else if a <= 128 {
        -COS128_LOOKUP[128 - a]
    } else if a <= 192 {
        -COS128_LOOKUP[a - 128]
    } else {
        COS128_LOOKUP[256 - a] as int
    }
}

/// The cosine of `angle / 256` of a turn.
pub open spec fn spec_cos128(angle: int) -> int {
    folded(angle % 256)
}

/// The sine of `angle / 256` of a turn: the cosine a quarter turn back.
pub open spec fn spec_sin128(angle: int) -> int {
    spec_cos128(angle - 64)
}

/// No cosine leaves the unit interval.
pub proof fn cosines_are_at_most_one(angle: int)
    ensures
        -4096 <= spec_cos128(angle) <= 4096,
{
    reveal(folded);
    assert(forall|i: int| 0 <= i < 65 ==> 0 <= #[trigger] COS128_LOOKUP[i] <= 4096);
}

/// Every cosine repeats after a whole turn.
pub proof fn cosine_is_periodic(angle: int)
    ensures
        spec_cos128(angle + 256) == spec_cos128(angle),
        spec_sin128(angle + 256) == spec_sin128(angle),
{
    assert((angle + 256) % 256 == angle % 256);
    assert((angle + 256 - 64) % 256 == (angle - 64) % 256);
}

/// Half a turn on, the cosine is the same with the other sign.
pub proof fn cosine_changes_sign_over_half_a_turn(angle: int)
    ensures
        spec_cos128(angle + 128) == -spec_cos128(angle),
{
    reveal(folded);
    let a = angle % 256;
    assert((angle + 128) % 256 == if a < 128 { a + 128 } else { a - 128 });
    assert(COS128_LOOKUP[64] == 0);
}

/// The cosine is even and the sine is odd, exactly, rounding included.
pub proof fn cosine_is_even_and_sine_is_odd(angle: int)
    ensures
        spec_cos128(-angle) == spec_cos128(angle),
        spec_sin128(-angle) == -spec_sin128(angle),
{
    lemma_cosine_is_even(angle);
    lemma_cosine_is_even(angle + 64);
    assert(-angle - 64 == -(angle + 64));
    cosine_changes_sign_over_half_a_turn(angle - 64);
    assert(angle - 64 + 128 == angle + 64);
}

proof fn lemma_cosine_is_even(angle: int)
    ensures
        spec_cos128(-angle) == spec_cos128(angle),
{
    reveal(folded);
    let a = angle % 256;
    assert((-angle) % 256 == if a == 0 { 0 } else { 256 - a });
    assert(COS128_LOOKUP[64] == 0);
}

/// `cos128(angle)`.
pub fn cos128(angle: i32) -> (c: i32)
    ensures
        c == spec_cos128(angle as int),
        -4096 <= c <= 4096,
{
    proof {
        reveal(folded);
        cosines_are_at_most_one(angle as int);
        assert((angle & 255) == angle as int % 256) by {
            assert(0 <= (angle & 255) < 256) by (bit_vector);
            let low = angle & 255;
            let rest = angle >> 8;
            assert(angle == rest * 256 + low) by (bit_vector)
                requires
                    low == angle & 255,
                    rest == angle >> 8,
            ;
        }
        assert(forall|i: int| 0 <= i < 65 ==> 0 <= #[trigger] COS128_LOOKUP[i] <= 4096);
    }
    let a: usize = (angle & 255) as usize;
    if a <= 64 {
        COS128_LOOKUP[a]
    } else if a <= 128 {
        -COS128_LOOKUP[128 - a]
    } else if a <= 192 {
        -COS128_LOOKUP[a - 128]
    } else {
        COS128_LOOKUP[256 - a]
    }
}

/// `sin128(angle)`.
pub fn sin128(angle: i32) -> (s: i32)
    requires
        angle >= -0x8000_0000 + 64,
    ensures
        s == spec_sin128(angle as int),
        -4096 <= s <= 4096,
{
    cos128(angle - 64)
}

} // verus!
