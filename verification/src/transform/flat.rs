//! What a transform along one axis does to coefficients that do not vary along
//! it: the cosine transform spreads them evenly, and the identity keeps them
//! apart.
use crate::bits;
use crate::transform::adst;
use crate::transform::cosine;
use crate::transform::dct;
use crate::transform::dct::STAGES;
use crate::transform::inverse;
use crate::transform::lane;
use crate::transform::tx_type;
use crate::transform::tx_type::{TxType, TxType1d};
use vstd::prelude::*;

verus! {

/// Whether the first `m` entries of a line are all `v`, and the rest zero.
spec fn is_flat(t: Seq<i32>, m: int, v: i32) -> bool {
    forall|i: int|
        0 <= i < t.len() ==> #[trigger] t[i] == if i < m {
            v
        } else {
            0i32
        }
}

/// How many entries the first one has reached after `s` stages.
spec fn reach(s: int) -> int {
    if s <= 10 {
        1
    } else if s <= 15 {
        2
    } else if s <= 20 {
        4
    } else if s <= 24 {
        8
    } else if s <= 27 {
        16
    } else if s <= 29 {
        32
    } else {
        64
    }
}

/// What those entries are then.
spec fn spread(c: i32, s: int, r: int) -> i32 {
    if s <= 10 {
        c
    } else if s <= 15 {
        lane::spec_round_cos(2896 * c)
    } else {
        lane::spec_clamp_range(lane::spec_round_cos(2896 * c) as int, r) as i32
    }
}

/// Whether a stage passes the first entry on.
spec fn is_passing(s: int) -> bool {
    s == 10 || s == 15 || s == 20 || s == 24 || s == 27 || s == 29
}

proof fn lemma_gates_ahead(s: int, k: int)
    requires
        0 <= s < STAGES,
        !is_passing(s),
        0 <= k < dct::stage_width(s),
    ensures
        dct::spec_gate(s, k).a >= reach(s),
        dct::spec_gate(s, k).b >= reach(s),
{
    reveal(dct::spec_gate);
}

/// A gate on two entries that are zero changes nothing.
proof fn lemma_idle_gate(t: Seq<i32>, g: dct::Gate, r: int)
    requires
        1 <= r <= 32,
        0 <= g.a < t.len(),
        0 <= g.b < t.len(),
        t[g.a as int] == 0,
        t[g.b as int] == 0,
    ensures
        dct::apply_gate(t, g, r) == t,
{
    lane::lemma_clamp_range(0, r);
    let c = cosine::spec_cos128(g.angle as int);
    let w = cosine::spec_sin128(g.angle as int);
    assert(lane::rotated_first(0, 0, c, w) == 0 && lane::rotated_second(0, 0, c, w) == 0);
    assert(lane::summed(0, 0, r) == 0 && lane::differenced(0, 0, r) == 0);
    assert(dct::apply_gate(t, g, r) =~= t);
}

proof fn lemma_idle_stage(t: Seq<i32>, v: i32, n: int, s: int, k: int, r: int)
    requires
        2 <= n <= 6,
        0 <= s < STAGES,
        !is_passing(s),
        0 <= k <= dct::stage_gates(n, s),
        1 <= r <= 32,
        t.len() == bits::pow2(n as nat),
        is_flat(t, reach(s), v),
    ensures
        dct::run_stage(t, s, k, r, false) == t,
    decreases k,
{
    if k > 0 {
        lemma_idle_stage(t, v, n, s, k - 1, r);
        dct::lemma_gate_in_range(n, s, k - 1);
        lemma_gates_ahead(s, k - 1);
        lemma_idle_gate(t, dct::spec_gate(s, k - 1), r);
    }
}

/// The line after `k` gates of a stage that doubles the reach of `v` from `m`
/// entries, as `w`.
spec fn is_half_spread(t: Seq<i32>, m: int, v: i32, w: i32, k: int) -> bool {
    forall|i: int|
        0 <= i < t.len() ==> #[trigger] t[i] == if i < k || 2 * m - k <= i < 2 * m {
            w
        } else if i < m {
            v
        } else {
            0i32
        }
}

proof fn lemma_passing_gate(s: int, k: int)
    requires
        s == 15 || s == 20 || s == 24 || s == 27 || s == 29,
        0 <= k < dct::stage_width(s),
    ensures
        dct::spec_gate(s, k) == dct::hadamard_of(k, 2 * reach(s) - 1 - k, false),
        dct::stage_width(s) == reach(s),
        reach(s + 1) == 2 * reach(s),
{
    reveal(dct::spec_gate);
}

proof fn lemma_passing_stage(t: Seq<i32>, v: i32, n: int, s: int, k: int, r: int)
    requires
        2 <= n <= 6,
        s == 15 || s == 20 || s == 24 || s == 27 || s == 29,
        n >= dct::smallest_size(s),
        0 <= k <= reach(s),
        1 <= r <= 32,
        t.len() == bits::pow2(n as nat),
        is_flat(t, reach(s), v),
    ensures
        dct::run_stage(t, s, k, r, false).len() == t.len(),
        is_half_spread(
            dct::run_stage(t, s, k, r, false),
            reach(s),
            v,
            lane::spec_clamp_range(v as int, r) as i32,
            k,
        ),
    decreases k,
{
    if k > 0 {
        lemma_passing_stage(t, v, n, s, k - 1, r);
        lemma_passing_gate(s, k - 1);
        dct::lemma_gate_in_range(n, s, k - 1);
        let before = dct::run_stage(t, s, k - 1, r, false);
        let g = dct::spec_gate(s, k - 1);
        assert(before[k - 1] == v);
        assert(before[2 * reach(s) - k] == 0);
        assert(lane::summed(v, 0, r) == lane::spec_clamp_range(v as int, r) as i32);
        assert(lane::differenced(v, 0, r) == lane::spec_clamp_range(v as int, r) as i32);
        assert(dct::run_stage(t, s, k, r, false) == dct::apply_gate(before, g, r));
    }
}

proof fn lemma_first_turn(t: Seq<i32>, c: i32, n: int, r: int)
    requires
        2 <= n <= 6,
        1 <= r <= 32,
        t.len() == bits::pow2(n as nat),
        is_flat(t, 1, c),
    ensures
        dct::run_stage(t, 10, 2, r, false).len() == t.len(),
        is_flat(dct::run_stage(t, 10, 2, r, false), 2, lane::spec_round_cos(2896 * c)),
{
    reveal(dct::spec_gate);
    bits::lemma_pow2_values();
    dct::lemma_gate_in_range(n, 10, 0);
    dct::lemma_gate_in_range(n, 10, 1);
    assert(cosine::spec_cos128(32) == 2896 && cosine::spec_sin128(32) == 2896) by {
        reveal(cosine::folded);
        assert(cosine::COS128_LOOKUP[32] == 2896);
    }
    let g = dct::spec_gate(10, 0);
    assert(g == dct::rotation_of(0, 1, 32, true));
    let one = dct::apply_gate(t, g, r);
    assert(t[0] == c && t[1] == 0);
    assert(c * 2896 - 0 * 2896 == 2896 * c && c * 2896 + 0 * 2896 == 2896 * c);
    assert(is_flat(one, 2, lane::spec_round_cos(2896 * c)));
    let h = dct::spec_gate(10, 1);
    assert(h == dct::rotation_of(2, 3, 48, false));
    lemma_idle_gate(one, h, r);
    reveal_with_fuel(dct::run_stage, 3);
}

proof fn lemma_clamped_twice(x: int, r: int)
    requires
        1 <= r <= 32,
        -0x8000_0000 <= x <= 0x7fff_ffff,
    ensures
        ({
            let w = lane::spec_clamp_range(x, r);
            &&& -0x8000_0000 <= w <= 0x7fff_ffff
            &&& lane::spec_clamp_range(w, r) == w
        }),
{
    bits::lemma_pow2_positive((r - 1) as nat);
    reveal(lane::spec_clamp_range);
    bits::lemma_pow2_monotonic((r - 1) as nat, 31);
    bits::lemma_pow2_values();
}

/// The entries reached, held to the length of the line.
spec fn reach_in(n: int, s: int) -> int {
    let all = bits::pow2(n as nat);
    if reach(s) < all {
        reach(s)
    } else {
        all
    }
}

proof fn lemma_flat_network(t: Seq<i32>, c: i32, n: int, s: int, r: int)
    requires
        2 <= n <= 6,
        0 <= s <= STAGES,
        1 <= r <= 32,
        t.len() == bits::pow2(n as nat),
        is_flat(t, 1, c),
    ensures
        dct::run_inverse(t, n, s, r).len() == t.len(),
        is_flat(dct::run_inverse(t, n, s, r), reach_in(n, s), spread(c, s, r)),
    decreases s,
{
    bits::lemma_pow2_values();
    if s > 0 {
        lemma_flat_network(t, c, n, s - 1, r);
        let before = dct::run_inverse(t, n, s - 1, r);
        let v = spread(c, s - 1, r);
        let done = dct::run_stage(before, s - 1, dct::stage_gates(n, s - 1), r, false);
        assert(dct::run_inverse(t, n, s, r) == done);
        if dct::stage_gates(n, s - 1) == 0 {
            assert(done == before);
        } else if s - 1 == 10 {
            lemma_first_turn(before, c, n, r);
        } else if is_passing(s - 1) {
            lemma_passing_gate(s - 1, 0);
            lemma_passing_stage(before, v, n, s - 1, reach(s - 1), r);
            lemma_clamped_twice(lane::spec_round_cos(2896 * c) as int, r);
        } else {
            lemma_idle_stage(before, v, n, s - 1, dct::stage_gates(n, s - 1), r);
        }
    }
}

proof fn lemma_first_stays_first(n: nat)
    ensures
        dct::spec_brev(n, 0) == 0,
    decreases n,
{
    if n > 0 {
        lemma_first_stays_first((n - 1) as nat);
        assert(0 * bits::pow2((n - 1) as nat) == 0);
    }
}

/// The cosine transform of a line that holds its first coefficient alone is the
/// same all along: that coefficient times the square root of a half, rounded,
/// and held to the range.
pub proof fn first_coefficients_spread_evenly(t: Seq<i32>, n: int, r: int, i: int)
    requires
        2 <= n <= 6,
        1 <= r <= 32,
        t.len() == bits::pow2(n as nat),
        forall|j: int| 0 < j < t.len() ==> #[trigger] t[j] == 0,
        0 <= i < t.len(),
    ensures
        dct::spec_inverse_dct(t, n, r).len() == t.len(),
        dct::spec_inverse_dct(t, n, r)[i] == lane::spec_clamp_range(
            ((2896 * t[0] + 2048) / 4096) as i32 as int,
            r,
        ) as i32,
{
    let p = dct::spec_permute(t, n as nat);
    bits::lemma_pow2_positive(n as nat);
    bits::lemma_pow2_values();
    lemma_first_stays_first(n as nat);
    assert forall|j: int| 0 <= j < p.len() implies #[trigger] p[j] == if j < 1 {
        t[0]
    } else {
        0i32
    } by {
        dct::lemma_brev_bound(n as nat, j);
        if j > 0 && dct::spec_brev(n as nat, j) == 0 {
            dct::bit_reversal_is_an_involution(n as nat, j);
        }
    }
    lemma_flat_network(p, t[0], n, STAGES as int, r);
}

/// Under a type with the cosine transform along the rows, coefficients in the
/// first column alone give a residual that is constant along every row.
pub proof fn cosine_rows_spread_evenly(
    dequant: Seq<i32>,
    w: int,
    h: int,
    bit_depth: int,
    tx: TxType,
    i: int,
    j: int,
)
    requires
        inverse::is_tx_size(w, h),
        0 <= bit_depth <= 24,
        tx == TxType::DctDct || tx == TxType::AdstDct || tx == TxType::FlipAdstDct || tx
            == TxType::HDct,
        forall|a: int, b: int|
            0 <= a < h && 0 < b < w ==> #[trigger] inverse::coefficient(dequant, w, a, b) == 0,
        0 <= i < h,
        0 <= j < w,
    ensures
        inverse::spec_inverse_2d(dequant, w, h, bit_depth, tx)[i * w + j]
            == inverse::spec_inverse_2d(dequant, w, h, bit_depth, tx)[i * w],
{
    reveal(inverse::spec_inverse_1d);
    assert(tx_type::row_kind(tx) == TxType1d::Dct) by {
        reveal(tx_type::row_kind);
    }
    assert(!tx_type::flips_rows(tx)) by {
        reveal(tx_type::flips_rows);
    }
    inverse::lemma_grid_index(w, h, i, j);
    inverse::lemma_grid_index(w, h, i, 0);
    assert forall|a: int| 0 <= a < h implies #[trigger] inverse::row_output(
        dequant,
        w,
        h,
        bit_depth,
        tx,
        a,
    )[j] == inverse::row_output(dequant, w, h, bit_depth, tx, a)[0] by {
        let line = inverse::row_input(dequant, w, h, a);
        let r = inverse::row_clamp(bit_depth);
        assert forall|b: int| 0 < b < line.len() implies #[trigger] line[b] == 0 by {
            if a < 32 && b < 32 {
                assert(inverse::coefficient(dequant, w, a, b) == 0);
                bits::lemma_round2_zero(12);
            }
        }
        inverse::lemma_log2_side(w);
        first_coefficients_spread_evenly(line, inverse::log2_side(w), r, j);
        first_coefficients_spread_evenly(line, inverse::log2_side(w), r, 0);
    }
    assert(inverse::column_input(dequant, w, h, bit_depth, tx, j) =~= inverse::column_input(
        dequant,
        w,
        h,
        bit_depth,
        tx,
        0,
    ));
}

/// Under a type with the cosine transform down the columns, coefficients in the
/// first row alone give a residual that is constant down every column.
pub proof fn cosine_columns_spread_evenly(
    dequant: Seq<i32>,
    w: int,
    h: int,
    bit_depth: int,
    tx: TxType,
    i: int,
    j: int,
)
    requires
        inverse::is_tx_size(w, h),
        0 <= bit_depth <= 24,
        tx == TxType::DctDct || tx == TxType::DctAdst || tx == TxType::DctFlipAdst || tx
            == TxType::VDct,
        forall|a: int, b: int|
            0 < a < h && 0 <= b < w ==> #[trigger] inverse::coefficient(dequant, w, a, b) == 0,
        0 <= i < h,
        0 <= j < w,
    ensures
        inverse::spec_inverse_2d(dequant, w, h, bit_depth, tx)[i * w + j]
            == inverse::spec_inverse_2d(dequant, w, h, bit_depth, tx)[j],
{
    reveal(inverse::spec_inverse_1d);
    assert(tx_type::col_kind(tx) == TxType1d::Dct) by {
        reveal(tx_type::col_kind);
    }
    assert(!tx_type::flips_columns(tx)) by {
        reveal(tx_type::flips_columns);
    }
    inverse::lemma_grid_index(w, h, i, j);
    inverse::lemma_grid_index(w, h, 0, j);
    let from = if tx_type::flips_rows(tx) {
        w - 1 - j
    } else {
        j
    };
    let line = inverse::column_input(dequant, w, h, bit_depth, tx, from);
    assert forall|a: int| 0 < a < line.len() implies #[trigger] line[a] == 0 by {
        inverse::lemma_empty_row(dequant, w, h, bit_depth, tx, a);
        assert(inverse::row_output(dequant, w, h, bit_depth, tx, a)[from] == 0);
    }
    inverse::lemma_log2_side(h);
    let r = inverse::col_clamp(bit_depth);
    first_coefficients_spread_evenly(line, inverse::log2_side(h), r, i);
    first_coefficients_spread_evenly(line, inverse::log2_side(h), r, 0);
}

/// Under a type with the identity along the rows, a column without coefficients
/// has no residual.
pub proof fn identity_rows_keep_columns_apart(
    dequant: Seq<i32>,
    w: int,
    h: int,
    bit_depth: int,
    tx: TxType,
    i: int,
    j: int,
)
    requires
        inverse::is_tx_size(w, h),
        w <= 32,
        0 <= bit_depth <= 24,
        tx == TxType::Idtx || tx == TxType::VDct || tx == TxType::VAdst || tx
            == TxType::VFlipAdst,
        forall|a: int| 0 <= a < h ==> #[trigger] inverse::coefficient(dequant, w, a, j) == 0,
        0 <= i < h,
        0 <= j < w,
    ensures
        inverse::spec_inverse_2d(dequant, w, h, bit_depth, tx)[i * w + j] == 0,
{
    reveal(inverse::spec_inverse_1d);
    assert(tx_type::row_kind(tx) == TxType1d::Identity) by {
        reveal(tx_type::row_kind);
    }
    assert(!tx_type::flips_rows(tx)) by {
        reveal(tx_type::flips_rows);
    }
    inverse::lemma_grid_index(w, h, i, j);
    let line = inverse::column_input(dequant, w, h, bit_depth, tx, j);
    bits::lemma_pow2_positive((inverse::col_clamp(bit_depth) - 1) as nat);
    assert forall|a: int| 0 <= a < h implies #[trigger] line[a] == 0 by {
        assert(inverse::coefficient(dequant, w, a, j) == 0);
        bits::lemma_round2_zero(12);
        bits::lemma_round2_zero(inverse::spec_row_shift(w, h) as nat);
        let x = inverse::row_input(dequant, w, h, a);
        assert(x[j] == 0);
        assert(adst::identity_scaled(0, w) == 0);
        lane::lemma_clamp_range(0, inverse::col_clamp(bit_depth));
        assert(inverse::spec_inverse_1d(x, inverse::row_clamp(bit_depth), TxType1d::Identity)[j]
            == 0);
        assert(inverse::row_output(dequant, w, h, bit_depth, tx, a)[j] == 0);
    }
    assert(line =~= dct::zeros(h as nat));
    inverse::inverse_1d_of_zeros_is_zeros(h, inverse::col_clamp(bit_depth), tx_type::col_kind(tx));
    bits::lemma_round2_zero(4);
}

/// Under a type with the identity down the columns, a row without coefficients
/// has no residual.
pub proof fn identity_columns_keep_rows_apart(
    dequant: Seq<i32>,
    w: int,
    h: int,
    bit_depth: int,
    tx: TxType,
    i: int,
    j: int,
)
    requires
        inverse::is_tx_size(w, h),
        h <= 32,
        0 <= bit_depth <= 24,
        tx == TxType::Idtx || tx == TxType::HDct || tx == TxType::HAdst || tx
            == TxType::HFlipAdst,
        forall|b: int| 0 <= b < w ==> #[trigger] inverse::coefficient(dequant, w, i, b) == 0,
        0 <= i < h,
        0 <= j < w,
    ensures
        inverse::spec_inverse_2d(dequant, w, h, bit_depth, tx)[i * w + j] == 0,
{
    reveal(inverse::spec_inverse_1d);
    assert(tx_type::col_kind(tx) == TxType1d::Identity) by {
        reveal(tx_type::col_kind);
    }
    assert(!tx_type::flips_columns(tx)) by {
        reveal(tx_type::flips_columns);
    }
    inverse::lemma_grid_index(w, h, i, j);
    let from = if tx_type::flips_rows(tx) {
        w - 1 - j
    } else {
        j
    };
    inverse::lemma_empty_row(dequant, w, h, bit_depth, tx, i);
    let line = inverse::column_input(dequant, w, h, bit_depth, tx, from);
    assert(line[i] == 0);
    assert(adst::identity_scaled(0, h) == 0);
    bits::lemma_round2_zero(4);
}

} // verus!
