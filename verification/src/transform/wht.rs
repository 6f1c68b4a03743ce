//! The 4x4 Walsh-Hadamard transform of lossless blocks.
use crate::bits;
use crate::quant;
use crate::quant::dequant_wh;
use crate::transform::adst;
use crate::transform::inverse::is_zero_grid;
use crate::transform::reconstruct;
use vstd::prelude::*;

verus! {

/// Four values through the inverse lifting steps.
pub open spec fn wht_line(x: (int, int, int, int)) -> (int, int, int, int) {
    let a1 = x.0 + x.1;
    let d1 = x.2 - x.3;
    let e1 = (a1 - d1) / 2;
    let b = e1 - x.3;
    let c = e1 - x.1;
    (a1 - b, b, c, d1 + c)
}

/// Four values through the same lifting steps, each undone.
pub open spec fn wht_line_undone(y: (int, int, int, int)) -> (int, int, int, int) {
    let a1 = y.0 + y.1;
    let d1 = y.3 - y.2;
    let e1 = (a1 - d1) / 2;
    let b = e1 - y.1;
    let c = e1 - y.2;
    (a1 - c, c, d1 + b, b)
}

/// Whether no lifting step on these four values leaves 32 bits.
pub open spec fn wht_line_fits(x: (int, int, int, int)) -> bool {
    let a1 = x.0 + x.1;
    let d1 = x.2 - x.3;
    let e1 = (a1 - d1) / 2;
    let b = e1 - x.3;
    let c = e1 - x.1;
    &&& adst::fits_i32(a1)
    &&& adst::fits_i32(d1)
    &&& adst::fits_i32(a1 - d1)
    &&& adst::fits_i32(b)
    &&& adst::fits_i32(c)
    &&& adst::fits_i32(a1 - b)
    &&& adst::fits_i32(d1 + c)
}

/// Entry `k` of a line.
pub open spec fn entry(x: (int, int, int, int), k: int) -> int {
    if k == 0 {
        x.0
    } else if k == 1 {
        x.1
    } else if k == 2 {
        x.2
    } else {
        x.3
    }
}

/// Row `i` of a 4x4 grid in raster order.
pub open spec fn grid_row(g: Seq<int>, i: int) -> (int, int, int, int) {
    (g[4 * i], g[4 * i + 1], g[4 * i + 2], g[4 * i + 3])
}

/// Column `j` of a 4x4 grid in raster order.
pub open spec fn grid_column(g: Seq<int>, j: int) -> (int, int, int, int) {
    (g[j], g[4 + j], g[8 + j], g[12 + j])
}

/// Every row of a grid through the inverse lifting steps.
pub open spec fn wht_rows(g: Seq<int>) -> Seq<int> {
    Seq::new(16, |p: int| entry(wht_line(grid_row(g, p / 4)), p % 4))
}

/// Every column of a grid through the inverse lifting steps.
pub open spec fn wht_columns(g: Seq<int>) -> Seq<int> {
    Seq::new(16, |p: int| entry(wht_line(grid_column(g, p % 4)), p / 4))
}

/// Every row of a grid through the undone lifting steps.
pub open spec fn wht_rows_undone(g: Seq<int>) -> Seq<int> {
    Seq::new(16, |p: int| entry(wht_line_undone(grid_row(g, p / 4)), p % 4))
}

/// Every column of a grid through the undone lifting steps.
pub open spec fn wht_columns_undone(g: Seq<int>) -> Seq<int> {
    Seq::new(16, |p: int| entry(wht_line_undone(grid_column(g, p % 4)), p / 4))
}

/// A grid with the dequantizer's two extra bits shifted out.
pub open spec fn shifted_down(dq: Seq<i32>) -> Seq<int> {
    Seq::new(dq.len(), |i: int| dq[i] as int / 4)
}

/// The residual of a lossless block of dequantized coefficients.
pub open spec fn spec_inverse_wht(dq: Seq<i32>) -> Seq<int> {
    wht_columns(wht_rows(shifted_down(dq)))
}

/// The levels whose inverse transform is `residual`.
pub open spec fn spec_forward_wht(residual: Seq<int>) -> Seq<int> {
    wht_rows_undone(wht_columns_undone(residual))
}

/// Whether no step of the inverse transform leaves 32 bits.
pub open spec fn wht_fits(dq: Seq<i32>) -> bool {
    &&& forall|i: int| 0 <= i < 4 ==> wht_line_fits(#[trigger] grid_row(shifted_down(dq), i))
    &&& forall|j: int|
        0 <= j < 4 ==> wht_line_fits(#[trigger] grid_column(wht_rows(shifted_down(dq)), j))
}

/// Four values through the inverse lifting steps.
fn lift(x0: i32, x1: i32, x2: i32, x3: i32) -> (y: (i32, i32, i32, i32))
    requires
        wht_line_fits((x0 as int, x1 as int, x2 as int, x3 as int)),
    ensures
        (y.0 as int, y.1 as int, y.2 as int, y.3 as int) == wht_line(
            (x0 as int, x1 as int, x2 as int, x3 as int),
        ),
{
    let a1: i32 = x0 + x1;
    let d1: i32 = x2 - x3;
    proof {
        bits::lemma_shr_i32((a1 - d1) as i32, 1);
        bits::lemma_pow2_values();
    }
    let e1: i32 = (a1 - d1) >> 1u32;
    let b: i32 = e1 - x3;
    let c: i32 = e1 - x1;
    (a1 - b, b, c, d1 + c)
}

/// The inverse 4x4 Walsh-Hadamard transform of a dequantized grid.
pub fn inverse_wht4x4(dq: &[i32]) -> (out: Vec<i32>)
    requires
        dq.len() == 16,
        wht_fits(dq@),
    ensures
        out.len() == 16,
        forall|p: int| 0 <= p < 16 ==> #[trigger] out@[p] as int == spec_inverse_wht(dq@)[p],
{
    let ghost g = shifted_down(dq@);
    let mut mid: Vec<i32> = Vec::new();
    for i in 0..4usize
        invariant
            dq.len() == 16,
            g == shifted_down(dq@),
            wht_fits(dq@),
            mid.len() == 4 * i,
            forall|p: int| 0 <= p < 4 * i ==> #[trigger] mid@[p] as int == wht_rows(g)[p],
    {
        proof {
            bits::lemma_shr_i32(dq@[4 * i], 2);
            bits::lemma_shr_i32(dq@[4 * i + 1], 2);
            bits::lemma_shr_i32(dq@[4 * i + 2], 2);
            bits::lemma_shr_i32(dq@[4 * i + 3], 2);
            bits::lemma_pow2_values();
            assert(wht_line_fits(grid_row(g, i as int)));
        }
        let (a, b, c, d): (i32, i32, i32, i32) = lift(
            dq[4 * i] >> 2u32,
            dq[4 * i + 1] >> 2u32,
            dq[4 * i + 2] >> 2u32,
            dq[4 * i + 3] >> 2u32,
        );
        mid.push(a);
        mid.push(b);
        mid.push(c);
        mid.push(d);
    }
    let ghost m = wht_rows(g);
    let mut top: Vec<i32> = Vec::new();
    let mut upper: Vec<i32> = Vec::new();
    let mut lower: Vec<i32> = Vec::new();
    let mut bottom: Vec<i32> = Vec::new();
    for j in 0..4usize
        invariant
            g == shifted_down(dq@),
            m == wht_rows(g),
            wht_fits(dq@),
            mid.len() == 16,
            forall|p: int| 0 <= p < 16 ==> #[trigger] mid@[p] as int == m[p],
            top.len() == j,
            upper.len() == j,
            lower.len() == j,
            bottom.len() == j,
            forall|k: int|
                0 <= k < j ==> #[trigger] top@[k] as int == wht_line(grid_column(m, k)).0,
            forall|k: int|
                0 <= k < j ==> #[trigger] upper@[k] as int == wht_line(grid_column(m, k)).1,
            forall|k: int|
                0 <= k < j ==> #[trigger] lower@[k] as int == wht_line(grid_column(m, k)).2,
            forall|k: int|
                0 <= k < j ==> #[trigger] bottom@[k] as int == wht_line(grid_column(m, k)).3,
    {
        assert(wht_line_fits(grid_column(m, j as int)));
        let (a, b, c, d): (i32, i32, i32, i32) = lift(mid[j], mid[4 + j], mid[8 + j], mid[12 + j]);
        top.push(a);
        upper.push(b);
        lower.push(c);
        bottom.push(d);
    }
    let mut out: Vec<i32> = top;
    out.append(&mut upper);
    out.append(&mut lower);
    out.append(&mut bottom);
    out
}

/// The residual of a lossless block's levels, nothing where they are all zero.
pub open spec fn lossless_residual(
    levels: Seq<i32>,
    bit_depth: int,
    q_idx: int,
    dc_delta: int,
    ac_delta: int,
) -> Seq<int> {
    if reconstruct::all_zero(levels) {
        Seq::empty()
    } else {
        spec_inverse_wht(
            quant::spec_dequant_wh(levels, 4, 4, bit_depth, q_idx, dc_delta, ac_delta),
        )
    }
}

/// Dequantizes and inverse transforms one lossless block; levels that are all
/// zero come back as an empty residual.
pub fn dequant_and_inverse_wht4x4(
    levels: &[i32],
    bit_depth: u8,
    q_idx: i32,
    dc_delta: i32,
    ac_delta: i32,
) -> (out: Vec<i32>)
    requires
        !reconstruct::all_zero(levels@) ==> {
            &&& levels.len() == 16
            &&& quant::is_bit_depth(bit_depth as int)
            &&& adst::fits_i32(q_idx + dc_delta)
            &&& adst::fits_i32(q_idx + ac_delta)
        },
    ensures
        ({
            let residual = lossless_residual(
                levels@,
                bit_depth as int,
                q_idx as int,
                dc_delta as int,
                ac_delta as int,
            );
            out.len() == residual.len() && forall|p: int|
                0 <= p < out.len() ==> #[trigger] out@[p] as int == residual[p]
        }),
{
    if is_zero_grid(levels) {
        return Vec::new();
    }
    let dq: Vec<i32> = dequant_wh(levels, 4, 4, bit_depth, q_idx, dc_delta, ac_delta);
    proof {
        quant::dequantized_grids_fit(
            levels@,
            4,
            4,
            bit_depth as int,
            q_idx as int,
            dc_delta as int,
            ac_delta as int,
        );
        bits::lemma_pow2_monotonic((bit_depth + 7) as nat, 19);
        assert(bits::pow2(19) == 0x8_0000) by {
            reveal_with_fuel(bits::pow2, 20);
        }
        small_grids_fit(dq@);
    }
    inverse_wht4x4(dq.as_slice())
}

/// Coefficients of up to 24 bits never overflow the transform.
pub proof fn small_grids_fit(dq: Seq<i32>)
    requires
        dq.len() == 16,
        adst::within(dq, 0x80_0000),
    ensures
        wht_fits(dq),
{
    let g = shifted_down(dq);
    let m = wht_rows(g);
    assert(forall|p: int| 0 <= p < 16 ==> -0x20_0000 <= #[trigger] g[p] <= 0x20_0000);
    assert forall|p: int| 0 <= p < 16 implies -0x200_0000 <= #[trigger] m[p] <= 0x200_0000 by {
        let i = p / 4;
        assert(-0x20_0000 <= g[4 * i] <= 0x20_0000);
        assert(-0x20_0000 <= g[4 * i + 1] <= 0x20_0000);
        assert(-0x20_0000 <= g[4 * i + 2] <= 0x20_0000);
        assert(-0x20_0000 <= g[4 * i + 3] <= 0x20_0000);
    }
    assert forall|i: int| 0 <= i < 4 implies wht_line_fits(#[trigger] grid_row(g, i)) by {
        assert(-0x20_0000 <= g[4 * i] <= 0x20_0000);
        assert(-0x20_0000 <= g[4 * i + 1] <= 0x20_0000);
        assert(-0x20_0000 <= g[4 * i + 2] <= 0x20_0000);
        assert(-0x20_0000 <= g[4 * i + 3] <= 0x20_0000);
    }
    assert forall|j: int| 0 <= j < 4 implies wht_line_fits(#[trigger] grid_column(m, j)) by {
        assert(-0x200_0000 <= m[j] <= 0x200_0000);
        assert(-0x200_0000 <= m[4 + j] <= 0x200_0000);
        assert(-0x200_0000 <= m[8 + j] <= 0x200_0000);
        assert(-0x200_0000 <= m[12 + j] <= 0x200_0000);
    }
}

/// The lifting steps undo each other, rounding included.
pub proof fn lifting_is_exact(y: (int, int, int, int))
    ensures
        wht_line(wht_line_undone(y)) == y,
{
}

proof fn lemma_rows_undone(g: Seq<int>)
    requires
        g.len() == 16,
    ensures
        wht_rows(wht_rows_undone(g)) == g,
{
    let u = wht_rows_undone(g);
    assert forall|p: int| 0 <= p < 16 implies #[trigger] wht_rows(u)[p] == g[p] by {
        let i = p / 4;
        lifting_is_exact(grid_row(g, i));
        assert(grid_row(u, i) == wht_line_undone(grid_row(g, i)));
    }
    assert(wht_rows(u) =~= g);
}

proof fn lemma_columns_undone(g: Seq<int>)
    requires
        g.len() == 16,
    ensures
        wht_columns(wht_columns_undone(g)) == g,
{
    let u = wht_columns_undone(g);
    assert forall|p: int| 0 <= p < 16 implies #[trigger] wht_columns(u)[p] == g[p] by {
        let j = p % 4;
        lifting_is_exact(grid_column(g, j));
        assert(grid_column(u, j) == wht_line_undone(grid_column(g, j)));
    }
    assert(wht_columns(u) =~= g);
}

/// The Walsh-Hadamard pair is lossless: coefficients that carry the forward
/// transform of a residual, times four, come back as that residual exactly.
pub proof fn walsh_hadamard_round_trip_is_exact(residual: Seq<int>, dq: Seq<i32>)
    requires
        residual.len() == 16,
        dq.len() == 16,
        forall|p: int| 0 <= p < 16 ==> #[trigger] dq[p] == 4 * spec_forward_wht(residual)[p],
    ensures
        spec_inverse_wht(dq) == residual,
{
    let c = wht_columns_undone(residual);
    assert(shifted_down(dq) =~= wht_rows_undone(c));
    lemma_rows_undone(c);
    lemma_columns_undone(residual);
}

/// Four times each level.
pub open spec fn quadrupled(levels: Seq<i32>) -> Seq<i32> {
    Seq::new(levels.len(), |p: int| (4 * levels[p]) as i32)
}

/// Quantizer index zero scales by four and nothing else: the residual of a
/// lossless block is the inverse transform of four times its levels, as long as
/// they fit the coefficients' range.
pub proof fn index_zero_scales_by_four(levels: Seq<i32>, bit_depth: int)
    requires
        levels.len() == 16,
        quant::is_bit_depth(bit_depth),
        forall|p: int|
            0 <= p < 16 ==> -bits::pow2((bit_depth + 7) as nat) <= 4 * #[trigger] levels[p]
                < bits::pow2((bit_depth + 7) as nat),
    ensures
        quant::spec_dequant_wh(levels, 4, 4, bit_depth, 0, 0, 0) == quadrupled(levels),
        forall|p: int| 0 <= p < 16 ==> #[trigger] quadrupled(levels)[p] == 4 * levels[p],
        lossless_residual(levels, bit_depth, 0, 0, 0) == if reconstruct::all_zero(levels) {
            Seq::<int>::empty()
        } else {
            spec_inverse_wht(quadrupled(levels))
        },
{
    let dq = quant::spec_dequant_wh(levels, 4, 4, bit_depth, 0, 0, 0);
    bits::lemma_pow2_monotonic((bit_depth + 7) as nat, 19);
    assert(bits::pow2(19) == 0x8_0000) by {
        reveal_with_fuel(bits::pow2, 20);
    }
    quant::index_zero_steps_are_four(bit_depth);
    assert forall|p: int| 0 <= p < 16 implies #[trigger] dq[p] == 4 * levels[p]
        && quadrupled(levels)[p] == 4 * levels[p] by {
        let level = levels[p] as int;
        let magnitude = if level < 0 {
            -level
        } else {
            level
        };
        assert((magnitude * 4) % 0x100_0000 == magnitude * 4);
    }
    assert(dq =~= quadrupled(levels));
}

/// A lossless frame loses nothing: levels that carry the forward transform of
/// a residual reconstruct it exactly at quantizer index zero, as long as they
/// fit the coefficients' range.
pub proof fn lossless_levels_reconstruct_exactly(
    residual: Seq<int>,
    levels: Seq<i32>,
    bit_depth: int,
)
    requires
        residual.len() == 16,
        levels.len() == 16,
        quant::is_bit_depth(bit_depth),
        forall|p: int| 0 <= p < 16 ==> #[trigger] levels[p] == spec_forward_wht(residual)[p],
        forall|p: int|
            0 <= p < 16 ==> -bits::pow2((bit_depth + 7) as nat) <= 4 * #[trigger] levels[p]
                < bits::pow2((bit_depth + 7) as nat),
    ensures
        spec_inverse_wht(quant::spec_dequant_wh(levels, 4, 4, bit_depth, 0, 0, 0)) == residual,
{
    index_zero_scales_by_four(levels, bit_depth);
    let dq = quadrupled(levels);
    assert forall|p: int| 0 <= p < 16 implies #[trigger] dq[p] == 4 * spec_forward_wht(
        residual,
    )[p] by {
        assert(levels[p] == spec_forward_wht(residual)[p]);
    }
    walsh_hadamard_round_trip_is_exact(residual, dq);
}

} // verus!
