//! The fixed-point half of the forward transform: the row pass, and one
//! column of the column pass at a time.
use crate::transform::dct;
use crate::transform::dct::forward_dct_fixed;
use crate::transform::inverse;
use crate::transform::inverse::log2_of;
use crate::transform::tx_type;
use crate::transform::tx_type::TxType;
use vstd::prelude::*;

verus! {

/// The number of bits the forward network holds its sums to, which no
/// residual reaches.
pub const FORWARD_RANGE: usize = 32;

/// Headroom bits the residual is shifted up by before the row pass.
pub const FORWARD_PRECISION_BITS: u32 = 10;

/// Row `i` of a residual, shifted up by the headroom bits.
pub open spec fn scaled_row(residual: Seq<i32>, side: int, i: int) -> Seq<i32> {
    Seq::new(side as nat, |j: int| (inverse::coefficient(residual, side, i, j) * 1024) as i32)
}

/// The row pass over a square residual, in raster order.
pub open spec fn spec_forward_rows(residual: Seq<i32>, side: int) -> Seq<i32> {
    Seq::new(
        (side * side) as nat,
        |p: int|
            dct::spec_forward_dct(
                scaled_row(residual, side, p / side),
                inverse::log2_side(side),
                FORWARD_RANGE as int,
            )[p % side],
    )
}

/// Column `v` of a square block in raster order.
pub open spec fn column(rows: Seq<i32>, side: int, v: int) -> Seq<i32> {
    Seq::new(side as nat, |i: int| inverse::coefficient(rows, side, i, v))
}

/// A row of a residual, shifted up, and whether it carries anything.
fn gather_scaled_row(residual: &[i32], side: usize, i: usize) -> (out: (Vec<i32>, bool))
    requires
        inverse::is_side(side as int),
        residual.len() == side * side,
        i < side,
    ensures
        out.0@ == scaled_row(residual@, side as int, i as int),
        !out.1 ==> out.0@ == dct::zeros(side as nat),
{
    let mut t: Vec<i32> = Vec::new();
    let mut any: bool = false;
    for j in 0..side
        invariant
            inverse::is_side(side as int),
            residual.len() == side * side,
            i < side,
            t.len() == j,
            forall|k: int| 0 <= k < j ==> t@[k] == scaled_row(residual@, side as int, i as int)[k],
            !any ==> forall|k: int| 0 <= k < j ==> t@[k] == 0,
    {
        proof {
            inverse::lemma_grid_index(side as int, side as int, i as int, j as int);
        }
        let x: i32 = residual[i * side + j];
        assert(x == inverse::coefficient(residual@, side as int, i as int, j as int));
        assert((x << 10u32) == (x * 1024) as i32) by (bit_vector);
        t.push(x << FORWARD_PRECISION_BITS);
        if x != 0 {
            any = true;
        }
    }
    assert(t@ =~= scaled_row(residual@, side as int, i as int));
    if !any {
        assert(t@ =~= dct::zeros(side as nat));
    }
    (t, any)
}

/// The row pass: every row of a square residual through the forward network,
/// at the headroom bits' extra precision.
///
/// A row of zeros is not run through it: zeros transform to zeros.
pub fn forward_rows(residual: &[i32], side: usize) -> (rows: Vec<i32>)
    requires
        inverse::is_side(side as int),
        residual.len() == side * side,
    ensures
        rows@ == spec_forward_rows(residual@, side as int),
{
    let log2: u32 = log2_of(side);
    let ghost all = spec_forward_rows(residual@, side as int);
    let mut rows: Vec<i32> = Vec::new();
    assert(0 * (side as int) == 0);
    for i in 0..side
        invariant
            inverse::is_side(side as int),
            residual.len() == side * side,
            log2 == inverse::log2_side(side as int),
            all == spec_forward_rows(residual@, side as int),
            rows.len() == i * side,
            forall|p: int| 0 <= p < rows.len() ==> rows@[p] == all[p],
    {
        let (mut t, any): (Vec<i32>, bool) = gather_scaled_row(residual, side, i);
        let ghost line = t@;
        proof {
            inverse::lemma_log2_side(side as int);
        }
        if any {
            forward_dct_fixed(&mut t, log2, FORWARD_RANGE);
        } else {
            proof {
                dct::dct_of_zeros_is_zeros(log2 as int, FORWARD_RANGE as int);
            }
        }
        for j in 0..side
            invariant
                inverse::is_side(side as int),
                i < side,
                t.len() == side,
                line == scaled_row(residual@, side as int, i as int),
                t@ == dct::spec_forward_dct(
                    line,
                    inverse::log2_side(side as int),
                    FORWARD_RANGE as int,
                ),
                all == spec_forward_rows(residual@, side as int),
                rows.len() == i * side + j,
                forall|p: int| 0 <= p < rows.len() ==> rows@[p] == all[p],
        {
            proof {
                inverse::lemma_grid_index(side as int, side as int, i as int, j as int);
            }
            rows.push(t[j]);
        }
        assert(i * side + side == (i + 1) * side) by (nonlinear_arith);
    }
    assert(rows@ =~= all);
    rows
}

/// One column of the row pass's output through the forward network, or
/// nothing where the column is all zero.
pub fn forward_column(rows: &[i32], side: usize, v: usize) -> (t: Option<Vec<i32>>)
    requires
        inverse::is_side(side as int),
        rows.len() == side * side,
        v < side,
    ensures
        t is None <==> column(rows@, side as int, v as int) == dct::zeros(side as nat),
        t is Some ==> t->0@ == dct::spec_forward_dct(
            column(rows@, side as int, v as int),
            inverse::log2_side(side as int),
            FORWARD_RANGE as int,
        ),
{
    let ghost want = column(rows@, side as int, v as int);
    let mut t: Vec<i32> = Vec::new();
    let mut any: bool = false;
    for i in 0..side
        invariant
            inverse::is_side(side as int),
            rows.len() == side * side,
            v < side,
            want == column(rows@, side as int, v as int),
            t.len() == i,
            forall|k: int| 0 <= k < i ==> t@[k] == want[k],
            !any ==> forall|k: int| 0 <= k < i ==> want[k] == 0,
            any ==> want != dct::zeros(side as nat),
    {
        proof {
            inverse::lemma_grid_index(side as int, side as int, i as int, v as int);
            assert(want[i as int] == inverse::coefficient(
                rows@,
                side as int,
                i as int,
                v as int,
            ));
        }
        let x: i32 = rows[i * side + v];
        t.push(x);
        if x != 0 {
            any = true;
            assert(want[i as int] != dct::zeros(side as nat)[i as int]);
        }
    }
    assert(t@ =~= want);
    if !any {
        assert(want =~= dct::zeros(side as nat));
        return None;
    }
    proof {
        inverse::lemma_log2_side(side as int);
    }
    forward_dct_fixed(&mut t, log2_of(side), FORWARD_RANGE);
    Some(t)
}

/// A residual of zeros has a row pass of zeros, so no column of it is ever
/// transformed.
pub proof fn forward_rows_of_zeros_are_zeros(side: int)
    requires
        inverse::is_side(side),
    ensures
        spec_forward_rows(dct::zeros((side * side) as nat), side) == dct::zeros(
            (side * side) as nat,
        ),
{
    let z = dct::zeros((side * side) as nat);
    inverse::lemma_log2_side(side);
    dct::dct_of_zeros_is_zeros(inverse::log2_side(side), FORWARD_RANGE as int);
    assert(side * side > 0) by (nonlinear_arith)
        requires
            side >= 4,
    ;
    let out = spec_forward_rows(z, side);
    assert forall|p: int| 0 <= p < side * side implies #[trigger] out[p] == 0 by {
        let i = p / side;
        crate::bits::lemma_floor_bounds(p, side);
        assert(0 <= i < side) by (nonlinear_arith)
            requires
                side > 0,
                0 <= p < side * side,
                side * i <= p < side * i + side,
        ;
        vstd::arithmetic::div_mod::lemma_mod_bound(p, side);
        let line = scaled_row(z, side, i);
        assert forall|j: int| 0 <= j < side implies #[trigger] line[j] == 0 by {
            inverse::lemma_grid_index(side, side, i, j);
        }
        assert(line =~= dct::zeros(side as nat));
    }
    assert(out =~= z);
}

/// The row of a residual that a type reads as row `i`.
pub open spec fn mirrored_row(side: int, tx: TxType, i: int) -> int {
    if tx_type::flips_columns(tx) {
        side - 1 - i
    } else {
        i
    }
}

/// The column of a residual that a type reads as column `j`.
pub open spec fn mirrored_col(side: int, tx: TxType, j: int) -> int {
    if tx_type::flips_rows(tx) {
        side - 1 - j
    } else {
        j
    }
}

/// A square residual mirrored along the axes its type flips.
pub open spec fn spec_mirrored(residual: Seq<i32>, side: int, tx: TxType) -> Seq<i32> {
    Seq::new(
        (side * side) as nat,
        |p: int|
            inverse::coefficient(
                residual,
                side,
                mirrored_row(side, tx, p / side),
                mirrored_col(side, tx, p % side),
            ),
    )
}

/// A square residual mirrored along the axes its type flips: what the plain
/// type of the same kernels is the forward transform of.
pub fn mirrored(residual: &[i32], side: usize, tx: TxType) -> (out: Vec<i32>)
    requires
        inverse::is_side(side as int),
        residual.len() == side * side,
    ensures
        out@ == spec_mirrored(residual@, side as int, tx),
{
    let (ud, lr): (bool, bool) = tx.flip();
    let mut out: Vec<i32> = Vec::new();
    assert(0 * side == 0) by (nonlinear_arith);
    for i in 0..side
        invariant
            inverse::is_side(side as int),
            residual.len() == side * side,
            ud == tx_type::flips_columns(tx),
            lr == tx_type::flips_rows(tx),
            out.len() == i * side,
            forall|p: int|
                0 <= p < out.len() ==> #[trigger] out@[p] == spec_mirrored(
                    residual@,
                    side as int,
                    tx,
                )[p],
    {
        let row: usize = if ud {
            side - 1 - i
        } else {
            i
        };
        for j in 0..side
            invariant
                inverse::is_side(side as int),
                residual.len() == side * side,
                i < side,
                row < side,
                row == mirrored_row(side as int, tx, i as int),
                lr == tx_type::flips_rows(tx),
                out.len() == i * side + j,
                forall|p: int|
                    0 <= p < out.len() ==> #[trigger] out@[p] == spec_mirrored(
                        residual@,
                        side as int,
                        tx,
                    )[p],
        {
            let col: usize = if lr {
                side - 1 - j
            } else {
                j
            };
            proof {
                inverse::lemma_grid_index(side as int, side as int, row as int, col as int);
                inverse::lemma_grid_index(side as int, side as int, i as int, j as int);
            }
            out.push(residual[row * side + col]);
            assert(out@[i * side + j] == spec_mirrored(residual@, side as int, tx)[i * side + j]);
        }
        assert((i + 1) * side == i * side + side) by (nonlinear_arith);
    }
    assert(out@ =~= spec_mirrored(residual@, side as int, tx));
    out
}

/// A mirror undoes itself.
pub proof fn mirroring_twice_changes_nothing(residual: Seq<i32>, side: int, tx: TxType)
    requires
        inverse::is_side(side),
        residual.len() == side * side,
    ensures
        spec_mirrored(spec_mirrored(residual, side, tx), side, tx) == residual,
{
    let once = spec_mirrored(residual, side, tx);
    let twice = spec_mirrored(once, side, tx);
    assert forall|p: int| 0 <= p < residual.len() implies twice[p] == residual[p] by {
        vstd::arithmetic::div_mod::lemma_fundamental_div_mod(p, side);
        let i = p / side;
        let j = p % side;
        assert(0 <= i < side) by (nonlinear_arith)
            requires
                p == side * i + j,
                0 <= j < side,
                0 <= p < side * side,
        ;
        assert(side * i == i * side) by (nonlinear_arith);
        let r = mirrored_row(side, tx, i);
        let c = mirrored_col(side, tx, j);
        inverse::lemma_grid_index(side, side, r, c);
        assert(once[r * side + c] == inverse::coefficient(residual, side, i, j));
    }
    assert(twice =~= residual);
}

} // verus!
