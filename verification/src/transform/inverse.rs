//! The inverse transform of a whole block.
use crate::bits;
use crate::bits::round2;
use crate::transform::adst;
use crate::transform::adst::{inverse_adst16, inverse_adst4, inverse_adst8, inverse_identity};
use crate::transform::dct;
use crate::transform::dct::{inverse_dct_fixed, inverse_dct_x8};
use crate::transform::lane;
use crate::transform::lane::clamp_to;
use crate::transform::tx_type;
use crate::transform::tx_type::{TxType, TxType1d};
use vstd::prelude::*;

verus! {

/// Whether a transform axis can have this many points.
pub open spec fn is_side(side: int) -> bool {
    side == 4 || side == 8 || side == 16 || side == 32 || side == 64
}

/// The logarithm of an axis length.
pub open spec fn log2_side(side: int) -> int {
    if side == 4 {
        2
    } else if side == 8 {
        3
    } else if side == 16 {
        4
    } else if side == 32 {
        5
    } else {
        6
    }
}

/// Whether a transform is `w` by `h`: no side is more than four times the
/// other.
pub open spec fn is_tx_size(w: int, h: int) -> bool {
    is_side(w) && is_side(h) && w <= 4 * h && h <= 4 * w
}

/// Whether one side of a `w` by `h` transform is twice the other.
pub open spec fn is_two_to_one(w: int, h: int) -> bool {
    w == 2 * h || h == 2 * w
}

/// How far the row pass of a `w` by `h` transform shifts its output down.
pub open spec fn spec_row_shift(w: int, h: int) -> int {
    if w == h {
        if w == 4 {
            0
        } else if w == 8 {
            1
        } else {
            2
        }
    } else if is_two_to_one(w, h) {
        if w + h == 12 {
            0
        } else {
            1
        }
    } else {
        if w + h == 20 {
            1
        } else {
            2
        }
    }
}

/// The number of bits the row pass holds its sums to.
pub open spec fn row_clamp(bit_depth: int) -> int {
    bit_depth + 8
}

/// The number of bits the column pass holds its input and its sums to.
pub open spec fn col_clamp(bit_depth: int) -> int {
    if bit_depth + 6 > 16 {
        bit_depth + 6
    } else {
        16
    }
}

/// Whether `kind` is defined at `side` points.
pub open spec fn is_defined(kind: TxType1d, side: int) -> bool {
    match kind {
        TxType1d::Dct => is_side(side),
        TxType1d::Adst => side == 4 || side == 8 || side == 16,
        TxType1d::Identity => side == 4 || side == 8 || side == 16 || side == 32,
    }
}

/// The 1D inverse transform of one row or column, sums held to `r` bits; a
/// kind that is not defined at this length leaves the entries alone.
#[verifier::opaque]
pub open spec fn spec_inverse_1d(t: Seq<i32>, r: int, kind: TxType1d) -> Seq<i32> {
    if !is_defined(kind, t.len() as int) {
        t
    } else {
        match kind {
            TxType1d::Dct => dct::spec_inverse_dct(t, log2_side(t.len() as int), r),
            TxType1d::Adst => adst::spec_inverse_adst(t, r),
            TxType1d::Identity => adst::spec_inverse_identity(t),
        }
    }
}

/// The coefficient at row `i`, column `j` of rows of `w`.
pub open spec fn coefficient(dequant: Seq<i32>, w: int, i: int, j: int) -> i32 {
    dequant[i * w + j]
}

/// The coefficient at row `i`, column `j` as the row pass reads it: only the
/// top-left 32 by 32 carry any, and a two-to-one block's are scaled by the
/// square root of a half.
pub open spec fn row_input_at(dequant: Seq<i32>, w: int, h: int, i: int, j: int) -> i32 {
    if i < 32 && j < 32 {
        let c = coefficient(dequant, w, i, j);
        if is_two_to_one(w, h) {
            bits::spec_round2(c * 2896, 12) as i32
        } else {
            c
        }
    } else {
        0
    }
}

/// Row `i` as the row pass reads it.
pub open spec fn row_input(dequant: Seq<i32>, w: int, h: int, i: int) -> Seq<i32> {
    Seq::new(w as nat, |j: int| row_input_at(dequant, w, h, i, j))
}

/// Row `i` as the column pass reads it.
pub open spec fn row_output(
    dequant: Seq<i32>,
    w: int,
    h: int,
    bit_depth: int,
    tx: TxType,
    i: int,
) -> Seq<i32> {
    let v = spec_inverse_1d(
        row_input(dequant, w, h, i),
        row_clamp(bit_depth),
        tx_type::row_kind(tx),
    );
    Seq::new(
        w as nat,
        |j: int|
            lane::spec_clamp_range(
                bits::spec_round2(v[j] as int, spec_row_shift(w, h) as nat),
                col_clamp(bit_depth),
            ) as i32,
    )
}

/// Column `j` of the row pass's output.
pub open spec fn column_input(
    dequant: Seq<i32>,
    w: int,
    h: int,
    bit_depth: int,
    tx: TxType,
    j: int,
) -> Seq<i32> {
    Seq::new(h as nat, |i: int| row_output(dequant, w, h, bit_depth, tx, i)[j])
}

/// Column `j` after the column pass.
pub open spec fn column_output(
    dequant: Seq<i32>,
    w: int,
    h: int,
    bit_depth: int,
    tx: TxType,
    j: int,
) -> Seq<i32> {
    spec_inverse_1d(
        column_input(dequant, w, h, bit_depth, tx, j),
        col_clamp(bit_depth),
        tx_type::col_kind(tx),
    )
}

/// The residual sample at row `i`, column `j`: a flipped axis is read from
/// its other end.
pub open spec fn residual_at(
    dequant: Seq<i32>,
    w: int,
    h: int,
    bit_depth: int,
    tx: TxType,
    i: int,
    j: int,
) -> i32 {
    let src_row = if tx_type::flips_columns(tx) {
        h - 1 - i
    } else {
        i
    };
    let src_col = if tx_type::flips_rows(tx) {
        w - 1 - j
    } else {
        j
    };
    bits::spec_round2(
        column_output(dequant, w, h, bit_depth, tx, src_col)[src_row] as int,
        4,
    ) as i32
}

/// The residual of a `w` by `h` block of coefficients, in raster order.
pub open spec fn spec_inverse_2d(
    dequant: Seq<i32>,
    w: int,
    h: int,
    bit_depth: int,
    tx: TxType,
) -> Seq<i32> {
    Seq::new(
        (w * h) as nat,
        |p: int| residual_at(dequant, w, h, bit_depth, tx, p / w, p % w),
    )
}

/// Whether row `i` carries no coefficient.
pub open spec fn row_is_empty(dequant: Seq<i32>, w: int, i: int) -> bool {
    i >= 32 || forall|j: int| 0 <= j < w && j < 32 ==> #[trigger] coefficient(dequant, w, i, j) == 0
}

/// Whether both passes are defined for a block with something in row `i`, and
/// no arithmetic of that row's leaves 32 bits.
pub open spec fn row_is_computable(
    dequant: Seq<i32>,
    w: int,
    h: int,
    bit_depth: int,
    tx: TxType,
    i: int,
) -> bool {
    &&& is_defined(tx_type::row_kind(tx), w)
    &&& is_defined(tx_type::col_kind(tx), h)
    &&& is_two_to_one(w, h) ==> forall|j: int|
        0 <= j < w && j < 32 ==> adst::fits_i32(#[trigger] coefficient(dequant, w, i, j) * 2896)
    &&& tx_type::row_kind(tx) == TxType1d::Adst ==> adst::adst_fits(
        row_input(dequant, w, h, i),
        row_clamp(bit_depth),
    )
    &&& tx_type::col_kind(tx) == TxType1d::Adst ==> bit_depth <= 23
}

/// Whether the inverse transform of a block is defined and overflows nowhere.
pub open spec fn is_computable(
    dequant: Seq<i32>,
    w: int,
    h: int,
    bit_depth: int,
    tx: TxType,
) -> bool {
    &&& is_tx_size(w, h)
    &&& dequant.len() == w * h
    &&& bit_depth <= 24
    &&& forall|i: int|
        0 <= i < h && !(#[trigger] row_is_empty(dequant, w, i)) ==> row_is_computable(
            dequant,
            w,
            h,
            bit_depth,
            tx,
            i,
        )
}

pub proof fn lemma_log2_side(side: int)
    requires
        is_side(side),
    ensures
        2 <= log2_side(side) <= 6,
        bits::pow2(log2_side(side) as nat) == side,
{
    bits::lemma_pow2_values();
}

/// A 1D transform keeps the length and takes zeros to zeros.
pub proof fn inverse_1d_of_zeros_is_zeros(side: int, r: int, kind: TxType1d)
    requires
        side >= 0,
        1 <= r <= 32,
    ensures
        spec_inverse_1d(dct::zeros(side as nat), r, kind) == dct::zeros(side as nat),
{
    reveal(spec_inverse_1d);
    if is_defined(kind, side) {
        lemma_log2_side(side);
        match kind {
            TxType1d::Dct => {
                dct::dct_of_zeros_is_zeros(log2_side(side), r);
            },
            _ => {
                adst::adst_and_identity_of_zeros_are_zeros(side as nat, r);
            },
        }
    }
}

pub proof fn lemma_inverse_1d_len(t: Seq<i32>, r: int, kind: TxType1d)
    requires
        1 <= r <= 32,
    ensures
        spec_inverse_1d(t, r, kind).len() == t.len(),
{
    reveal(spec_inverse_1d);
    if kind == TxType1d::Dct && is_defined(kind, t.len() as int) {
        lemma_log2_side(t.len() as int);
        dct::inverse_dct_output_fits(t, log2_side(t.len() as int), r);
    }
}

/// A position in a grid of rows of `w`.
pub proof fn lemma_grid_index(w: int, h: int, i: int, j: int)
    requires
        w > 0,
        0 <= i < h,
        0 <= j < w,
    ensures
        0 <= i * w + j < w * h,
        (i * w + j) / w == i,
        (i * w + j) % w == j,
{
    assert(i * w + j < w * h) by (nonlinear_arith)
        requires
            0 <= i < h,
            0 <= j < w,
    ;
    assert(0 <= i * w) by (nonlinear_arith)
        requires
            0 <= i,
            w > 0,
    ;
    vstd::arithmetic::div_mod::lemma_fundamental_div_mod_converse(i * w + j, w, i, j);
}

/// The 1D inverse transform of one row or column, in place.
pub fn inverse_1d(t: &mut Vec<i32>, r: usize, kind: TxType1d)
    requires
        is_defined(kind, old(t).len() as int),
        1 <= r <= 32,
        kind == TxType1d::Adst ==> adst::adst_fits(old(t)@, r as int),
    ensures
        final(t)@ == spec_inverse_1d(old(t)@, r as int, kind),
        final(t).len() == old(t).len(),
{
    let side: usize = t.len();
    proof {
        lemma_inverse_1d_len(t@, r as int, kind);
        reveal(spec_inverse_1d);
        reveal(adst::adst_fits);
    }
    match kind {
        TxType1d::Dct => {
            proof {
                lemma_log2_side(side as int);
            }
            inverse_dct_fixed(t, log2_of(side), r);
        },
        TxType1d::Adst => {
            if side == 4 {
                inverse_adst4(t);
            } else if side == 8 {
                inverse_adst8(t, r);
            } else {
                inverse_adst16(t, r);
            }
        },
        TxType1d::Identity => {
            inverse_identity(t);
        },
    }
}

/// The logarithm of an axis length.
pub fn log2_of(side: usize) -> (n: u32)
    requires
        is_side(side as int),
    ensures
        n == log2_side(side as int),
        2 <= n <= 6,
{
    match side {
        4 => 2,
        8 => 3,
        16 => 4,
        32 => 5,
        _ => 6,
    }
}

/// How far the row pass of a `w` by `h` transform shifts its output down.
pub fn row_shift_wh(w: usize, h: usize) -> (shift: usize)
    requires
        is_tx_size(w as int, h as int),
    ensures
        shift == spec_row_shift(w as int, h as int),
        shift <= 2,
{
    match (w, h) {
        (4, 4) => 0,
        (8, 8) => 1,
        (16, 16) | (32, 32) | (64, 64) => 2,
        (4, 8) | (8, 4) => 0,
        (8, 16) | (16, 8) | (16, 32) | (32, 16) | (32, 64) | (64, 32) => 1,
        (4, 16) | (16, 4) => 1,
        _ => 2,
    }
}

/// `n` zeros.
pub fn zero_vec(n: usize) -> (v: Vec<i32>)
    ensures
        v@ == dct::zeros(n as nat),
{
    let mut v: Vec<i32> = Vec::new();
    for i in 0..n
        invariant
            v.len() == i,
            forall|k: int| 0 <= k < i ==> v@[k] == 0,
    {
        v.push(0);
    }
    assert(v@ =~= dct::zeros(n as nat));
    v
}

/// Whether every entry is zero.
pub fn is_zero_grid(t: &[i32]) -> (zero: bool)
    ensures
        zero == (t@ == dct::zeros(t@.len())),
{
    for i in 0..t.len()
        invariant
            forall|k: int| 0 <= k < i ==> t@[k] == 0,
    {
        if t[i] != 0 {
            assert(t@[i as int] != dct::zeros(t@.len())[i as int]);
            return false;
        }
    }
    assert(t@ =~= dct::zeros(t@.len()));
    true
}

/// Whether row `i` carries no coefficient.
fn row_empty(dequant: &[i32], w: usize, h: usize, i: usize) -> (empty: bool)
    requires
        is_tx_size(w as int, h as int),
        dequant.len() == w * h,
        i < h,
    ensures
        empty == row_is_empty(dequant@, w as int, i as int),
{
    if i >= 32 {
        return true;
    }
    let cols: usize = if w < 32 {
        w
    } else {
        32
    };
    for j in 0..cols
        invariant
            is_tx_size(w as int, h as int),
            dequant.len() == w * h,
            i < h,
            i < 32,
            cols == if w < 32 {
                w
            } else {
                32
            },
            forall|k: int| 0 <= k < j ==> #[trigger] coefficient(dequant@, w as int, i as int, k) == 0,
    {
        proof {
            lemma_grid_index(w as int, h as int, i as int, j as int);
        }
        if dequant[i * w + j] != 0 {
            assert(coefficient(dequant@, w as int, i as int, j as int) != 0);
            return false;
        }
    }
    true
}

/// Row `i` as the row pass reads it.
fn gather_row(dequant: &[i32], w: usize, h: usize, i: usize) -> (t: Vec<i32>)
    requires
        is_tx_size(w as int, h as int),
        dequant.len() == w * h,
        i < h,
        i < 32,
        is_two_to_one(w as int, h as int) ==> forall|j: int|
            0 <= j < w && j < 32 ==> adst::fits_i32(
                #[trigger] coefficient(dequant@, w as int, i as int, j) * 2896,
            ),
    ensures
        t@ == row_input(dequant@, w as int, h as int, i as int),
{
    let rect: bool = w == 2 * h || h == 2 * w;
    let mut t: Vec<i32> = Vec::new();
    for j in 0..w
        invariant
            is_tx_size(w as int, h as int),
            dequant.len() == w * h,
            i < h,
            i < 32,
            rect == is_two_to_one(w as int, h as int),
            rect ==> forall|j: int|
                0 <= j < w && j < 32 ==> adst::fits_i32(
                    #[trigger] coefficient(dequant@, w as int, i as int, j) * 2896,
                ),
            t.len() == j,
            forall|k: int|
                0 <= k < j ==> t@[k] == row_input_at(dequant@, w as int, h as int, i as int, k),
    {
        proof {
            lemma_grid_index(w as int, h as int, i as int, j as int);
        }
        if j < 32 {
            let c: i32 = dequant[i * w + j];
            assert(c == coefficient(dequant@, w as int, i as int, j as int));
            if rect {
                t.push(round2(c * 2896, 12));
            } else {
                t.push(c);
            }
        } else {
            t.push(0);
        }
    }
    assert(t@ =~= row_input(dequant@, w as int, h as int, i as int));
    t
}

/// Row `i` as the column pass reads it.
fn row_pass(dequant: &[i32], w: usize, h: usize, bit_depth: u8, tx: TxType, i: usize) -> (t: Vec<
    i32,
>)
    requires
        is_computable(dequant@, w as int, h as int, bit_depth as int, tx),
        i < h,
        !row_is_empty(dequant@, w as int, i as int),
    ensures
        t@ == row_output(dequant@, w as int, h as int, bit_depth as int, tx, i as int),
{
    let mut t: Vec<i32> = gather_row(dequant, w, h, i);
    let r: usize = bit_depth as usize + 8;
    let c: usize = column_clamp(bit_depth);
    let shift: usize = row_shift_wh(w, h);
    let (kind, _): (TxType1d, TxType1d) = tx.axes();
    inverse_1d(&mut t, r, kind);
    let ghost v = t@;
    for j in 0..w
        invariant
            t.len() == w == v.len(),
            shift == spec_row_shift(w as int, h as int),
            shift <= 2,
            c == col_clamp(bit_depth as int),
            1 <= c <= 32,
            forall|k: int|
                0 <= k < j ==> t@[k] == lane::spec_clamp_range(
                    bits::spec_round2(v[k] as int, shift as nat),
                    c as int,
                ) as i32,
            forall|k: int| j <= k < w ==> t@[k] == v[k],
    {
        let x: i32 = clamp_to(round2(t[j], shift), c);
        t.set(j, x);
    }
    assert(t@ =~= row_output(dequant@, w as int, h as int, bit_depth as int, tx, i as int));
    t
}

/// The number of bits the column pass holds its input and its sums to.
fn column_clamp(bit_depth: u8) -> (c: usize)
    requires
        bit_depth <= 24,
    ensures
        c == col_clamp(bit_depth as int),
        16 <= c <= 32,
{
    let c: usize = bit_depth as usize + 6;
    if c > 16 {
        c
    } else {
        16
    }
}

/// Whether every entry of a row is the same.
fn is_constant(t: &Vec<i32>) -> (constant: bool)
    requires
        t.len() > 0,
    ensures
        constant == (forall|k: int| 0 <= k < t.len() ==> #[trigger] t@[k] == t@[0]),
{
    for i in 0..t.len()
        invariant
            t.len() > 0,
            forall|k: int| 0 <= k < i ==> #[trigger] t@[k] == t@[0],
    {
        if t[i] != t[0] {
            return false;
        }
    }
    true
}

/// An empty row comes out of the row pass as zeros.
pub proof fn lemma_empty_row(dequant: Seq<i32>, w: int, h: int, bit_depth: int, tx: TxType, i: int)
    requires
        is_tx_size(w, h),
        0 <= bit_depth <= 24,
        row_is_empty(dequant, w, i),
    ensures
        row_output(dequant, w, h, bit_depth, tx, i) == dct::zeros(w as nat),
{
    let z = dct::zeros(w as nat);
    bits::lemma_round2_zero(12);
    assert forall|j: int| 0 <= j < w implies #[trigger] row_input(dequant, w, h, i)[j] == 0 by {
        if i < 32 && j < 32 {
            assert(coefficient(dequant, w, i, j) == 0);
        }
    }
    assert(row_input(dequant, w, h, i) =~= z);
    inverse_1d_of_zeros_is_zeros(w, row_clamp(bit_depth), tx_type::row_kind(tx));
    lane::lemma_clamp_range(0, col_clamp(bit_depth));
    bits::lemma_round2_zero(spec_row_shift(w, h) as nat);
    assert(row_output(dequant, w, h, bit_depth, tx, i) =~= z);
}

/// What the column pass reads is held to its own clamp.
proof fn lemma_column_input_within(
    dequant: Seq<i32>,
    w: int,
    h: int,
    bit_depth: int,
    tx: TxType,
    j: int,
)
    requires
        is_tx_size(w, h),
        0 <= bit_depth <= 23,
        0 <= j < w,
    ensures
        adst::within(column_input(dequant, w, h, bit_depth, tx, j), 0x1000_0000),
{
    let c = col_clamp(bit_depth);
    bits::lemma_pow2_monotonic((c - 1) as nat, 28);
    assert(bits::pow2(28) == 0x1000_0000) by {
        reveal_with_fuel(bits::pow2, 29);
    }
    let col = column_input(dequant, w, h, bit_depth, tx, j);
    assert forall|i: int| 0 <= i < col.len() implies -0x1000_0000 <= #[trigger] col[i]
        <= 0x1000_0000 by {
        let row = row_output(dequant, w, h, bit_depth, tx, i);
        assert(col[i] == row[j]);
        let v = spec_inverse_1d(
            row_input(dequant, w, h, i),
            row_clamp(bit_depth),
            tx_type::row_kind(tx),
        );
        lane::lemma_clamp_range(bits::spec_round2(v[j] as int, spec_row_shift(w, h) as nat), c);
    }
}

/// The rows of a block, all of them through the row pass.
pub open spec fn rows_done(
    rows: Seq<Vec<i32>>,
    dequant: Seq<i32>,
    w: int,
    h: int,
    bit_depth: int,
    tx: TxType,
) -> bool {
    &&& rows.len() == h
    &&& forall|i: int|
        0 <= i < h ==> (#[trigger] rows[i])@ == row_output(dequant, w, h, bit_depth, tx, i)
}

/// The columns of a block, the first `count` of them through the column pass.
pub open spec fn columns_done(
    cols: Seq<Vec<i32>>,
    count: int,
    dequant: Seq<i32>,
    w: int,
    h: int,
    bit_depth: int,
    tx: TxType,
) -> bool {
    &&& cols.len() == count
    &&& forall|j: int|
        0 <= j < count ==> (#[trigger] cols[j])@ == column_output(dequant, w, h, bit_depth, tx, j)
}

/// Eight neighbouring columns of the row pass's output, and whether any of
/// them carries anything.
fn gather_x8(rows: &Vec<Vec<i32>>, j: usize, w: usize) -> (out: (Vec<[i32; 8]>, bool))
    requires
        j + 8 <= w <= 64,
        rows.len() <= 64,
        forall|i: int| 0 <= i < rows.len() ==> (#[trigger] rows@[i]).len() == w,
    ensures
        out.0.len() == rows.len(),
        forall|l: int, i: int|
            0 <= l < 8 && 0 <= i < rows.len() ==> #[trigger] out.0@[i][l] == rows@[i]@[j + l],
        !out.1 ==> forall|l: int, i: int|
            0 <= l < 8 && 0 <= i < rows.len() ==> #[trigger] out.0@[i][l] == 0,
{
    let mut t: Vec<[i32; 8]> = Vec::new();
    let mut any: bool = false;
    for i in 0..rows.len()
        invariant
            j + 8 <= w <= 64,
            forall|i: int| 0 <= i < rows.len() ==> (#[trigger] rows@[i]).len() == w,
            t.len() == i,
            forall|l: int, k: int|
                0 <= l < 8 && 0 <= k < i ==> #[trigger] t@[k][l] == rows@[k]@[j + l],
            !any ==> forall|l: int, k: int| 0 <= l < 8 && 0 <= k < i ==> #[trigger] t@[k][l] == 0,
    {
        let mut line: [i32; 8] = [0i32; 8];
        for l in 0..8usize
            invariant
                j + 8 <= w <= 64,
                i < rows.len(),
                rows@[i as int].len() == w,
                forall|m: int| 0 <= m < l ==> #[trigger] line[m] == rows@[i as int]@[j + m],
                !any ==> forall|m: int| 0 <= m < l ==> #[trigger] line[m] == 0,
                !any ==> forall|l: int, k: int|
                    0 <= l < 8 && 0 <= k < i ==> #[trigger] t@[k][l] == 0,
        {
            let v: i32 = rows[i][j + l];
            line[l] = v;
            if v != 0 {
                any = true;
            }
        }
        t.push(line);
    }
    (t, any)
}

/// The column pass over a DCT axis, eight neighbouring columns through the
/// network at once.
fn columns_x8(
    rows: &Vec<Vec<i32>>,
    w: usize,
    h: usize,
    bit_depth: u8,
    Ghost(dequant): Ghost<Seq<i32>>,
    Ghost(tx): Ghost<TxType>,
) -> (cols: Vec<Vec<i32>>)
    requires
        is_tx_size(w as int, h as int),
        w >= 8,
        bit_depth <= 24,
        rows_done(rows@, dequant, w as int, h as int, bit_depth as int, tx),
        tx_type::col_kind(tx) == TxType1d::Dct,
    ensures
        columns_done(cols@, w as int, dequant, w as int, h as int, bit_depth as int, tx),
{
    let c: usize = column_clamp(bit_depth);
    let log2h: u32 = log2_of(h);
    let mut cols: Vec<Vec<i32>> = Vec::new();
    for group in 0..w / 8
        invariant
            is_tx_size(w as int, h as int),
            w >= 8,
            bit_depth <= 24,
            c == col_clamp(bit_depth as int),
            16 <= c <= 32,
            log2h == log2_side(h as int),
            rows_done(rows@, dequant, w as int, h as int, bit_depth as int, tx),
            tx_type::col_kind(tx) == TxType1d::Dct,
            columns_done(
                cols@,
                8 * group,
                dequant,
                w as int,
                h as int,
                bit_depth as int,
                tx,
            ),
    {
        let j: usize = 8 * group;
        let (mut t, any): (Vec<[i32; 8]>, bool) = gather_x8(rows, j, w);
        let ghost before = t@;
        proof {
            assert forall|l: int| 0 <= l < 8 implies #[trigger] dct::lane_of(before, l)
                == column_input(dequant, w as int, h as int, bit_depth as int, tx, j + l) by {
                assert forall|i: int| 0 <= i < h implies #[trigger] dct::lane_of(before, l)[i]
                    == column_input(
                    dequant,
                    w as int,
                    h as int,
                    bit_depth as int,
                    tx,
                    j + l,
                )[i] by {
                    assert(before[i][l] == rows@[i]@[j + l]);
                }
                assert(dct::lane_of(before, l) =~= column_input(
                    dequant,
                    w as int,
                    h as int,
                    bit_depth as int,
                    tx,
                    j + l,
                ));
            }
            lemma_log2_side(h as int);
            reveal(spec_inverse_1d);
        }
        if any {
            inverse_dct_x8(&mut t, log2h, c);
        } else {
            proof {
                dct::dct_of_zeros_is_zeros(log2h as int, c as int);
                assert forall|l: int| 0 <= l < 8 implies #[trigger] dct::lane_of(t@, l)
                    == dct::spec_inverse_dct(
                    dct::lane_of(before, l),
                    log2h as int,
                    c as int,
                ) by {
                    assert forall|i: int| 0 <= i < h implies #[trigger] dct::lane_of(t@, l)[i]
                        == 0 by {
                        assert(t@[i][l] == 0);
                    }
                    assert(dct::lane_of(t@, l) =~= dct::zeros(h as nat));
                }
            }
        }
        for l in 0..8usize
            invariant
                is_tx_size(w as int, h as int),
                j == 8 * group,
                t.len() == h,
                columns_done(cols@, j + l, dequant, w as int, h as int, bit_depth as int, tx),
                forall|l: int|
                    0 <= l < 8 ==> #[trigger] dct::lane_of(t@, l) == column_output(
                        dequant,
                        w as int,
                        h as int,
                        bit_depth as int,
                        tx,
                        j + l,
                    ),
        {
            let mut col: Vec<i32> = Vec::new();
            for i in 0..h
                invariant
                    t.len() == h,
                    l < 8,
                    col.len() == i,
                    forall|k: int| 0 <= k < i ==> col@[k] == #[trigger] t@[k][l as int],
            {
                col.push(t[i][l]);
            }
            assert(col@ =~= dct::lane_of(t@, l as int));
            cols.push(col);
        }
    }
    cols
}

/// The column pass, one column at a time.
fn columns_one_by_one(
    rows: &Vec<Vec<i32>>,
    w: usize,
    h: usize,
    bit_depth: u8,
    tx: TxType,
    Ghost(dequant): Ghost<Seq<i32>>,
) -> (cols: Vec<Vec<i32>>)
    requires
        is_tx_size(w as int, h as int),
        bit_depth <= 24,
        rows_done(rows@, dequant, w as int, h as int, bit_depth as int, tx),
        (exists|i: int| 0 <= i < h && !(#[trigger] row_is_empty(dequant, w as int, i)))
            ==> is_defined(tx_type::col_kind(tx), h as int) && (tx_type::col_kind(tx)
            == TxType1d::Adst ==> bit_depth <= 23),
    ensures
        columns_done(cols@, w as int, dequant, w as int, h as int, bit_depth as int, tx),
{
    let c: usize = column_clamp(bit_depth);
    let (_, kind): (TxType1d, TxType1d) = tx.axes();
    let mut cols: Vec<Vec<i32>> = Vec::new();
    for j in 0..w
        invariant
            is_tx_size(w as int, h as int),
            bit_depth <= 24,
            c == col_clamp(bit_depth as int),
            16 <= c <= 32,
            kind == tx_type::col_kind(tx),
            rows_done(rows@, dequant, w as int, h as int, bit_depth as int, tx),
            (exists|i: int| 0 <= i < h && !(#[trigger] row_is_empty(dequant, w as int, i)))
                ==> is_defined(kind, h as int) && (kind == TxType1d::Adst ==> bit_depth <= 23),
            columns_done(cols@, j as int, dequant, w as int, h as int, bit_depth as int, tx),
    {
        let ghost want = column_input(
            dequant,
            w as int,
            h as int,
            bit_depth as int,
            tx,
            j as int,
        );
        let mut t: Vec<i32> = Vec::new();
        let mut any: bool = false;
        for i in 0..h
            invariant
                rows_done(rows@, dequant, w as int, h as int, bit_depth as int, tx),
                j < w,
                want == column_input(
                    dequant,
                    w as int,
                    h as int,
                    bit_depth as int,
                    tx,
                    j as int,
                ),
                t.len() == i,
                forall|k: int| 0 <= k < i ==> t@[k] == want[k],
                !any ==> forall|k: int| 0 <= k < i ==> t@[k] == 0,
                any ==> exists|k: int| 0 <= k < i && t@[k] != 0,
        {
            assert(rows@[i as int]@ == row_output(
                dequant,
                w as int,
                h as int,
                bit_depth as int,
                tx,
                i as int,
            ));
            let v: i32 = rows[i][j];
            let ghost so_far = t@;
            t.push(v);
            if v != 0 {
                any = true;
                assert(t@[i as int] != 0);
            } else if any {
                proof {
                    let k = choose|k: int| 0 <= k < i && so_far[k] != 0;
                    assert(t@[k] != 0);
                }
            }
        }
        assert(t@ =~= want);
        if any {
            proof {
                let k = choose|k: int| 0 <= k < h && t@[k] != 0;
                if row_is_empty(dequant, w as int, k) {
                    lemma_empty_row(dequant, w as int, h as int, bit_depth as int, tx, k);
                    assert(want[k] == row_output(
                        dequant,
                        w as int,
                        h as int,
                        bit_depth as int,
                        tx,
                        k,
                    )[j as int]);
                }
                if kind == TxType1d::Adst {
                    lemma_column_input_within(
                        dequant,
                        w as int,
                        h as int,
                        bit_depth as int,
                        tx,
                        j as int,
                    );
                    adst::adst_of_29_bits_fits(want, c as int);
                }
            }
            inverse_1d(&mut t, c, kind);
        } else {
            proof {
                assert(want =~= dct::zeros(h as nat));
                inverse_1d_of_zeros_is_zeros(h as int, c as int, kind);
            }
        }
        cols.push(t);
    }
    cols
}

/// The residual from the columns: rounded, and each flipped axis written from
/// its other end.
fn assemble(
    cols: &Vec<Vec<i32>>,
    w: usize,
    h: usize,
    bit_depth: u8,
    tx: TxType,
    Ghost(dequant): Ghost<Seq<i32>>,
) -> (out: Vec<i32>)
    requires
        is_tx_size(w as int, h as int),
        bit_depth <= 24,
        columns_done(cols@, w as int, dequant, w as int, h as int, bit_depth as int, tx),
    ensures
        out@ == spec_inverse_2d(dequant, w as int, h as int, bit_depth as int, tx),
{
    let (ud_flip, lr_flip): (bool, bool) = tx.flip();
    let mut out: Vec<i32> = Vec::new();
    let ghost all = spec_inverse_2d(dequant, w as int, h as int, bit_depth as int, tx);
    for i in 0..h
        invariant
            is_tx_size(w as int, h as int),
            bit_depth <= 24,
            ud_flip == tx_type::flips_columns(tx),
            lr_flip == tx_type::flips_rows(tx),
            columns_done(cols@, w as int, dequant, w as int, h as int, bit_depth as int, tx),
            all == spec_inverse_2d(dequant, w as int, h as int, bit_depth as int, tx),
            out.len() == i * w,
            forall|p: int| 0 <= p < out.len() ==> out@[p] == all[p],
    {
        let src_row: usize = if ud_flip {
            h - 1 - i
        } else {
            i
        };
        for j in 0..w
            invariant
                is_tx_size(w as int, h as int),
                bit_depth <= 24,
                i < h,
                ud_flip == tx_type::flips_columns(tx),
                lr_flip == tx_type::flips_rows(tx),
                src_row == if ud_flip {
                    h - 1 - i
                } else {
                    i as int
                },
                columns_done(cols@, w as int, dequant, w as int, h as int, bit_depth as int, tx),
                all == spec_inverse_2d(dequant, w as int, h as int, bit_depth as int, tx),
                out.len() == i * w + j,
                forall|p: int| 0 <= p < out.len() ==> out@[p] == all[p],
        {
            let src_col: usize = if lr_flip {
                w - 1 - j
            } else {
                j
            };
            proof {
                lemma_grid_index(w as int, h as int, i as int, j as int);
                lemma_inverse_1d_len(
                    column_input(
                        dequant,
                        w as int,
                        h as int,
                        bit_depth as int,
                        tx,
                        src_col as int,
                    ),
                    col_clamp(bit_depth as int),
                    tx_type::col_kind(tx),
                );
                assert(cols@[src_col as int]@ == column_output(
                    dequant,
                    w as int,
                    h as int,
                    bit_depth as int,
                    tx,
                    src_col as int,
                ));
            }
            out.push(round2(cols[src_col][src_row], 4));
        }
        assert(i * w + w == (i + 1) * w) by (nonlinear_arith);
    }
    assert(h * w == w * h) by (nonlinear_arith);
    assert(out@ =~= all);
    out
}

/// The residual of a block whose row pass left one row, and that one
/// constant: every column is the same, so one column transform serves all.
fn broadcast(
    row: usize,
    value: i32,
    w: usize,
    h: usize,
    bit_depth: u8,
    tx: TxType,
    Ghost(dequant): Ghost<Seq<i32>>,
) -> (out: Vec<i32>)
    requires
        is_computable(dequant, w as int, h as int, bit_depth as int, tx),
        row < h,
        !row_is_empty(dequant, w as int, row as int),
        forall|i: int|
            0 <= i < h && i != row ==> #[trigger] row_output(
                dequant,
                w as int,
                h as int,
                bit_depth as int,
                tx,
                i,
            ) == dct::zeros(w as nat),
        forall|j: int|
            0 <= j < w ==> #[trigger] row_output(
                dequant,
                w as int,
                h as int,
                bit_depth as int,
                tx,
                row as int,
            )[j] == value,
    ensures
        out@ == spec_inverse_2d(dequant, w as int, h as int, bit_depth as int, tx),
{
    let c: usize = column_clamp(bit_depth);
    let (_, kind): (TxType1d, TxType1d) = tx.axes();
    let (ud_flip, _): (bool, bool) = tx.flip();
    let mut t: Vec<i32> = zero_vec(h);
    t.set(row, value);
    let ghost input = t@;
    proof {
        assert forall|j: int| 0 <= j < w implies #[trigger] column_input(
            dequant,
            w as int,
            h as int,
            bit_depth as int,
            tx,
            j,
        ) == input by {
            let col = column_input(dequant, w as int, h as int, bit_depth as int, tx, j);
            assert forall|i: int| 0 <= i < h implies #[trigger] col[i] == input[i] by {
                let line = row_output(dequant, w as int, h as int, bit_depth as int, tx, i);
                assert(col[i] == line[j]);
            }
            assert(col =~= input);
        }
        if kind == TxType1d::Adst {
            lemma_column_input_within(dequant, w as int, h as int, bit_depth as int, tx, 0);
            assert(column_input(dequant, w as int, h as int, bit_depth as int, tx, 0) == input);
            adst::adst_of_29_bits_fits(input, c as int);
        }
    }
    inverse_1d(&mut t, c, kind);
    let ghost all = spec_inverse_2d(dequant, w as int, h as int, bit_depth as int, tx);
    let mut out: Vec<i32> = Vec::new();
    for i in 0..h
        invariant
            is_tx_size(w as int, h as int),
            t.len() == h,
            ud_flip == tx_type::flips_columns(tx),
            forall|j: int|
                0 <= j < w ==> #[trigger] column_input(
                    dequant,
                    w as int,
                    h as int,
                    bit_depth as int,
                    tx,
                    j,
                ) == input,
            t@ == spec_inverse_1d(input, col_clamp(bit_depth as int), tx_type::col_kind(tx)),
            all == spec_inverse_2d(dequant, w as int, h as int, bit_depth as int, tx),
            out.len() == i * w,
            forall|p: int| 0 <= p < out.len() ==> out@[p] == all[p],
    {
        let src_row: usize = if ud_flip {
            h - 1 - i
        } else {
            i
        };
        let v: i32 = round2(t[src_row], 4);
        for j in 0..w
            invariant
                is_tx_size(w as int, h as int),
                i < h,
                forall|j: int|
                    0 <= j < w ==> #[trigger] column_input(
                        dequant,
                        w as int,
                        h as int,
                        bit_depth as int,
                        tx,
                        j,
                    ) == input,
                t@ == spec_inverse_1d(input, col_clamp(bit_depth as int), tx_type::col_kind(tx)),
                src_row == if tx_type::flips_columns(tx) {
                    h - 1 - i
                } else {
                    i as int
                },
                v == bits::spec_round2(t@[src_row as int] as int, 4),
                all == spec_inverse_2d(dequant, w as int, h as int, bit_depth as int, tx),
                out.len() == i * w + j,
                forall|p: int| 0 <= p < out.len() ==> out@[p] == all[p],
        {
            proof {
                lemma_grid_index(w as int, h as int, i as int, j as int);
                let src_col = if tx_type::flips_rows(tx) {
                    w - 1 - j
                } else {
                    j as int
                };
                assert(column_input(
                    dequant,
                    w as int,
                    h as int,
                    bit_depth as int,
                    tx,
                    src_col,
                ) == input);
            }
            out.push(v);
        }
        assert(i * w + w == (i + 1) * w) by (nonlinear_arith);
    }
    assert(h * w == w * h) by (nonlinear_arith);
    assert(out@ =~= all);
    out
}

/// The 2D inverse transform of a `w` by `h` block of dequantized coefficients
/// in raster order; the residual is in the same order.
///
/// Rows and columns that carry nothing are not run through the network: zeros
/// transform to zeros.
pub fn inverse_transform_2d_typed_wh(
    dequant: &[i32],
    w: usize,
    h: usize,
    bit_depth: u8,
    tx_type: TxType,
) -> (out: Vec<i32>)
    requires
        is_computable(dequant@, w as int, h as int, bit_depth as int, tx_type),
    ensures
        out@ == spec_inverse_2d(dequant@, w as int, h as int, bit_depth as int, tx_type),
{
    let mut rows: Vec<Vec<i32>> = Vec::new();
    let mut nz_rows: usize = 0;
    let mut nz_row: usize = 0;
    let mut const_row: bool = false;
    let ghost tx = tx_type;
    for i in 0..h
        invariant
            tx == tx_type,
            is_computable(dequant@, w as int, h as int, bit_depth as int, tx),
            rows.len() == i,
            nz_rows <= i,
            forall|k: int|
                0 <= k < i ==> (#[trigger] rows@[k])@ == row_output(
                    dequant@,
                    w as int,
                    h as int,
                    bit_depth as int,
                    tx,
                    k,
                ),
            nz_rows == 0 ==> forall|k: int|
                0 <= k < i ==> #[trigger] row_is_empty(dequant@, w as int, k),
            nz_rows == 1 ==> forall|k: int|
                0 <= k < i && k != nz_row ==> #[trigger] row_is_empty(dequant@, w as int, k),
            nz_rows > 0 ==> nz_row < i && !row_is_empty(dequant@, w as int, nz_row as int),
            const_row ==> nz_rows == 1 && forall|j: int|
                0 <= j < w ==> #[trigger] rows@[nz_row as int]@[j] == rows@[nz_row as int]@[0],
    {
        if row_empty(dequant, w, h, i) {
            proof {
                lemma_empty_row(dequant@, w as int, h as int, bit_depth as int, tx, i as int);
            }
            rows.push(zero_vec(w));
        } else {
            let line: Vec<i32> = row_pass(dequant, w, h, bit_depth, tx_type, i);
            nz_rows = nz_rows + 1;
            nz_row = i;
            const_row = nz_rows == 1 && is_constant(&line);
            rows.push(line);
        }
    }
    if nz_rows <= 1 && const_row {
        proof {
            assert forall|i: int| 0 <= i < h && i != nz_row implies #[trigger] row_output(
                dequant@,
                w as int,
                h as int,
                bit_depth as int,
                tx,
                i,
            ) == dct::zeros(w as nat) by {
                assert(row_is_empty(dequant@, w as int, i));
                lemma_empty_row(dequant@, w as int, h as int, bit_depth as int, tx, i);
            }
            let line = rows@[nz_row as int]@;
            assert(line == row_output(
                dequant@,
                w as int,
                h as int,
                bit_depth as int,
                tx,
                nz_row as int,
            ));
            assert forall|j: int| 0 <= j < w implies #[trigger] row_output(
                dequant@,
                w as int,
                h as int,
                bit_depth as int,
                tx,
                nz_row as int,
            )[j] == line[0] by {
                assert(line[j] == line[0]);
            }
        }
        let value: i32 = rows[nz_row][0];
        return broadcast(nz_row, value, w, h, bit_depth, tx_type, Ghost(dequant@));
    }
    let (_, col_kind): (TxType1d, TxType1d) = tx_type.axes();
    let (_, lr_flip): (bool, bool) = tx_type.flip();
    let cols: Vec<Vec<i32>> = if col_kind == TxType1d::Dct && w >= 8 && !lr_flip {
        columns_x8(&rows, w, h, bit_depth, Ghost(dequant@), Ghost(tx))
    } else {
        columns_one_by_one(&rows, w, h, bit_depth, tx_type, Ghost(dequant@))
    };
    assemble(&cols, w, h, bit_depth, tx_type, Ghost(dequant@))
}

/// The 2D inverse transform of a square block.
pub fn inverse_transform_2d_typed(
    dequant: &[i32],
    side: usize,
    bit_depth: u8,
    tx_type: TxType,
) -> (out: Vec<i32>)
    requires
        is_computable(dequant@, side as int, side as int, bit_depth as int, tx_type),
    ensures
        out@ == spec_inverse_2d(dequant@, side as int, side as int, bit_depth as int, tx_type),
{
    inverse_transform_2d_typed_wh(dequant, side, side, bit_depth, tx_type)
}

} // verus!
