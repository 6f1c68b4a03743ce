//! What negating a block's levels does to its residual.
use crate::bits;
use crate::quant;
use crate::transform::dct;
use crate::transform::inverse;
use crate::transform::negation;
use crate::transform::reconstruct;
use crate::transform::tx_type::TxType;
use vstd::prelude::*;

verus! {

/// Whether a square of levels carries only its two lowest frequencies along
/// either axis.
pub open spec fn is_corner(levels: Seq<i32>, side: int) -> bool {
    forall|k: int|
        0 <= k < levels.len() && k != 0 && k != 1 && k != side && k != side + 1
            ==> #[trigger] levels[k] == 0
}

/// Negating a level negates its coefficient but for one, where the coefficient
/// is held to its range.
proof fn lemma_coefficient(level: int, q: int, denom: int, bit_depth: int)
    requires
        quant::is_bit_depth(bit_depth),
        q > 0,
        denom > 0,
    ensures
        negation::near(
            quant::spec_dequant(level, q, denom, bit_depth),
            quant::spec_dequant(-level, q, denom, bit_depth),
            if level == 0 {
                -1
            } else {
                1
            },
            0x8_0000,
        ),
{
    negation::lemma_pow2_bounds((bit_depth + 7) as nat);
    quant::zero_dequantizes_to_zero(q, denom, bit_depth);
    let magnitude = negation::size(level);
    let scaled = ((magnitude * q) % 0x100_0000) / denom;
    let most = bits::pow2((bit_depth + 7) as nat);
    let (there, back) = if level < 0 {
        (-scaled, scaled)
    } else {
        (scaled, -scaled)
    };
    if level != 0 {
        assert(quant::spec_dequant(level, q, denom, bit_depth) == bits::spec_clamp(
            there,
            -most,
            most - 1,
        ));
        assert(quant::spec_dequant(-level, q, denom, bit_depth) == bits::spec_clamp(
            back,
            -most,
            most - 1,
        ));
    }
}

proof fn lemma_opposite(
    levels: Seq<i32>,
    negated: Seq<i32>,
    side: int,
    bit_depth: int,
    q_idx: int,
    dc_delta: int,
    ac_delta: int,
)
    requires
        side == 32 || side == 64,
        quant::is_bit_depth(bit_depth),
        levels.len() == side * side,
        negated.len() == levels.len(),
        is_corner(levels, side),
        forall|k: int| 0 <= k < levels.len() ==> #[trigger] negated[k] == -levels[k],
    ensures
        negation::are_opposite(
            quant::spec_dequant_wh(levels, side, side, bit_depth, q_idx, dc_delta, ac_delta),
            quant::spec_dequant_wh(negated, side, side, bit_depth, q_idx, dc_delta, ac_delta),
            side,
        ),
{
    let c = quant::spec_dequant_wh(levels, side, side, bit_depth, q_idx, dc_delta, ac_delta);
    let d = quant::spec_dequant_wh(negated, side, side, bit_depth, q_idx, dc_delta, ac_delta);
    let denom = quant::spec_dq_denom(side, side);
    reveal(negation::are_opposite);
    assert forall|i: int, j: int| 0 <= i < side && 0 <= j < side implies negation::near(
        #[trigger] inverse::coefficient(c, side, i, j) as int,
        inverse::coefficient(d, side, i, j) as int,
        if i >= 2 || j >= 2 {
            -1
        } else {
            1
        },
        0x8_0000,
    ) by {
        inverse::lemma_grid_index(side, side, i, j);
        let k = i * side + j;
        let q = quant::step_at(k, bit_depth, q_idx, dc_delta, ac_delta);
        quant::steps_are_positive(bit_depth, q_idx + dc_delta);
        quant::steps_are_positive(bit_depth, q_idx + ac_delta);
        assert(negated[k] == -levels[k]);
        if i >= 2 || j >= 2 {
            assert(k != 0 && k != 1 && k != side && k != side + 1) by (nonlinear_arith)
                requires
                    k == i * side + j,
                    0 <= i,
                    0 <= j < side,
                    i >= 2 || j >= 2,
                    side >= 4,
            ;
            assert(levels[k] == 0);
        }
        lemma_coefficient(levels[k] as int, q, denom, bit_depth);
    }
}

proof fn lemma_both_zero(levels: Seq<i32>, negated: Seq<i32>)
    requires
        negated.len() == levels.len(),
        forall|k: int| 0 <= k < levels.len() ==> #[trigger] negated[k] == -levels[k],
    ensures
        reconstruct::all_zero(levels) == reconstruct::all_zero(negated),
{
    let z = dct::zeros(levels.len());
    if reconstruct::all_zero(levels) {
        assert(negated =~= z);
    }
    if reconstruct::all_zero(negated) {
        assert forall|k: int| 0 <= k < levels.len() implies levels[k] == z[k] by {
            assert(negated[k] == -levels[k]);
        }
        assert(levels =~= z);
    }
}

/// Negating levels negates their residual but for one, on a 32x32 or 64x64
/// block that carries only its two lowest frequencies along either axis.
pub proof fn negating_the_levels_negates_the_residual(
    levels: Seq<i32>,
    negated: Seq<i32>,
    side: int,
    bit_depth: int,
    q_idx: int,
    dc_delta: int,
    ac_delta: int,
)
    requires
        side == 32 || side == 64,
        quant::is_bit_depth(bit_depth),
        levels.len() == side * side,
        negated.len() == levels.len(),
        is_corner(levels, side),
        forall|k: int| 0 <= k < levels.len() ==> #[trigger] negated[k] == -levels[k],
    ensures
        ({
            let tx = TxType::DctDct;
            let there = reconstruct::dense_residual(
                levels,
                side,
                bit_depth,
                q_idx,
                dc_delta,
                ac_delta,
                tx,
            );
            let back = reconstruct::dense_residual(
                negated,
                side,
                bit_depth,
                q_idx,
                dc_delta,
                ac_delta,
                tx,
            );
            forall|p: int| 0 <= p < side * side ==> -1 <= #[trigger] there[p] + back[p] <= 1
        }),
{
    let tx = TxType::DctDct;
    let there = reconstruct::dense_residual(
        levels,
        side,
        bit_depth,
        q_idx,
        dc_delta,
        ac_delta,
        tx,
    );
    let back = reconstruct::dense_residual(
        negated,
        side,
        bit_depth,
        q_idx,
        dc_delta,
        ac_delta,
        tx,
    );
    lemma_both_zero(levels, negated);
    let c = quant::spec_dequant_wh(levels, side, side, bit_depth, q_idx, dc_delta, ac_delta);
    let d = quant::spec_dequant_wh(negated, side, side, bit_depth, q_idx, dc_delta, ac_delta);
    lemma_opposite(levels, negated, side, bit_depth, q_idx, dc_delta, ac_delta);
    assert forall|p: int| 0 <= p < side * side implies -1 <= #[trigger] there[p] + back[p]
        <= 1 by {
        if !reconstruct::all_zero(levels) {
            negation::lemma_residuals(c, d, side, bit_depth, p);
        }
    }
}

} // verus!
