//! The order a transform's coefficients are coded in.
use crate::transform::tx_type::TxType;
use vstd::prelude::*;

verus! {

/// Which axes a transform works along.
#[derive(Clone, Copy, Debug, PartialEq, Eq, Structural)]
pub enum TxClass {
    /// Both, or neither.
    TwoD,
    /// The rows only.
    Horiz,
    /// The columns only.
    Vert,
}

/// The axes a transform type works along.
pub open spec fn class_of(tx: TxType) -> TxClass {
    match tx {
        TxType::VDct | TxType::VAdst | TxType::VFlipAdst => TxClass::Vert,
        TxType::HDct | TxType::HAdst | TxType::HFlipAdst => TxClass::Horiz,
        _ => TxClass::TwoD,
    }
}

impl TxClass {
    /// The axes a transform type works along.
    pub fn of(tx: TxType) -> (class: TxClass)
        ensures
            class == class_of(tx),
    {
        match tx {
            TxType::VDct | TxType::VAdst | TxType::VFlipAdst => TxClass::Vert,
            TxType::HDct | TxType::HAdst | TxType::HFlipAdst => TxClass::Horiz,
            _ => TxClass::TwoD,
        }
    }
}

/// The first row anti-diagonal `d` of a square touches.
pub open spec fn first_row(side: int, d: int) -> int {
    if d < side {
        0
    } else {
        d - (side - 1)
    }
}

/// The last row anti-diagonal `d` of a square touches.
pub open spec fn last_row(side: int, d: int) -> int {
    if d < side {
        d
    } else {
        side - 1
    }
}

/// The row of step `j` along anti-diagonal `d`: an odd diagonal is walked
/// downwards, an even one upwards.
pub open spec fn row_at(side: int, d: int, j: int) -> int {
    if d % 2 == 0 {
        last_row(side, d) - j
    } else {
        first_row(side, d) + j
    }
}

/// The raster position of a row on anti-diagonal `d`.
pub open spec fn on_diagonal(side: int, d: int, row: int) -> int {
    row * side + (d - row)
}

/// The raster positions of one anti-diagonal, in order.
pub open spec fn diagonal(side: int, d: int) -> Seq<int> {
    Seq::new(
        (last_row(side, d) - first_row(side, d) + 1) as nat,
        |j: int| on_diagonal(side, d, row_at(side, d, j)),
    )
}

/// The raster positions of the first `count` anti-diagonals, in order.
pub open spec fn diagonals(side: int, count: int) -> Seq<int>
    decreases count,
{
    if count <= 0 {
        Seq::empty()
    } else {
        diagonals(side, count - 1) + diagonal(side, count - 1)
    }
}

/// The default scan of a square transform: its anti-diagonals, outwards from
/// the origin.
pub open spec fn spec_default_scan(side: int) -> Seq<int> {
    diagonals(side, 2 * side - 1)
}

/// The raster position that step `i` of a transform along one axis codes:
/// raster order for one down the columns, column by column for one along the
/// rows.
pub open spec fn class_pos(side: int, class: TxClass, i: int) -> int {
    if class == TxClass::Horiz {
        (i % side) * side + i / side
    } else {
        i
    }
}

/// The scan of a transform of this class.
pub open spec fn scan_for(side: int, class: TxClass) -> Seq<int> {
    if class == TxClass::TwoD {
        spec_default_scan(side)
    } else {
        Seq::new((side * side) as nat, |i: int| class_pos(side, class, i))
    }
}

/// A scan table as numbers.
pub open spec fn positions(scan: Seq<u16>) -> Seq<int> {
    Seq::new(scan.len(), |i: int| scan[i] as int)
}

proof fn lemma_position(side: int, row: int, col: int)
    requires
        0 <= row < side,
        0 <= col < side,
    ensures
        0 <= row * side + col < side * side,
        (row * side + col) / side == row,
        (row * side + col) % side == col,
{
    assert(0 <= row * side + col < side * side) by (nonlinear_arith)
        requires
            0 <= row < side,
            0 <= col < side,
    ;
    vstd::arithmetic::div_mod::lemma_fundamental_div_mod_converse(
        row * side + col,
        side,
        row,
        col,
    );
}

/// What the first `count` anti-diagonals cover: each entry is a position on
/// one of them, and an entry is no further out than those after it.
proof fn lemma_diagonals(side: int, count: int)
    requires
        1 <= side,
        0 <= count <= 2 * side - 1,
    ensures
        count <= side ==> 2 * diagonals(side, count).len() == count * (count + 1),
        count >= side ==> 2 * diagonals(side, count).len() == 2 * (side * side) - (2 * side - 1
            - count) * (2 * side - count),
        forall|k: int|
            0 <= k < diagonals(side, count).len() ==> {
                let p = #[trigger] diagonals(side, count)[k];
                &&& 0 <= p < side * side
                &&& p / side + p % side < count
            },
        forall|k: int, l: int|
            0 <= k < l < diagonals(side, count).len() ==> {
                let p = #[trigger] diagonals(side, count)[k];
                let q = #[trigger] diagonals(side, count)[l];
                &&& p != q
                &&& p / side + p % side <= q / side + q % side
            },
    decreases count,
{
    if count == 0 {
        assert(2 * (side * side) - (2 * side - 1) * (2 * side) <= 0) by (nonlinear_arith)
            requires
                1 <= side,
        ;
    } else {
        let d = count - 1;
        lemma_diagonals(side, d);
        let before = diagonals(side, d);
        let last = diagonal(side, d);
        let all = diagonals(side, count);
        if count <= side {
            assert(d * (d + 1) + 2 * (d + 1) == count * (count + 1)) by (nonlinear_arith)
                requires
                    d == count - 1,
            ;
            if count == side {
                assert(count * (count + 1) == 2 * (side * side) - (2 * side - 1 - count) * (2 * side
                    - count)) by (nonlinear_arith)
                    requires
                        count == side,
                ;
            }
        } else {
            assert(2 * (side * side) - (2 * side - 1 - d) * (2 * side - d) + 2 * (2 * side - 1 - d)
                == 2 * (side * side) - (2 * side - 1 - count) * (2 * side - count))
                by (nonlinear_arith)
                requires
                    d == count - 1,
            ;
        }
        assert forall|k: int| 0 <= k < last.len() implies {
            let p = #[trigger] last[k];
            &&& 0 <= p < side * side
            &&& p / side == row_at(side, d, k)
            &&& p % side == d - row_at(side, d, k)
        } by {
            lemma_position(side, row_at(side, d, k), d - row_at(side, d, k));
        }
        assert forall|k: int| 0 <= k < all.len() implies {
            let p = #[trigger] all[k];
            &&& 0 <= p < side * side
            &&& p / side + p % side < count
        } by {
            if k < before.len() {
                assert(all[k] == before[k]);
            } else {
                assert(all[k] == last[k - before.len()]);
            }
        }
        assert forall|k: int, l: int| 0 <= k < l < all.len() implies {
            let p = #[trigger] all[k];
            let q = #[trigger] all[l];
            &&& p != q
            &&& p / side + p % side <= q / side + q % side
        } by {
            if l < before.len() {
                assert(all[k] == before[k] && all[l] == before[l]);
            } else {
                assert(all[l] == last[l - before.len()]);
                if k < before.len() {
                    assert(all[k] == before[k]);
                } else {
                    assert(all[k] == last[k - before.len()]);
                }
            }
        }
    }
}

proof fn lemma_covered(side: int, count: int, row: int, col: int) -> (k: int)
    requires
        1 <= side,
        0 <= row < side,
        0 <= col < side,
        row + col < count <= 2 * side - 1,
    ensures
        0 <= k < diagonals(side, count).len(),
        diagonals(side, count)[k] == row * side + col,
    decreases count,
{
    let d = count - 1;
    let before = diagonals(side, d);
    if row + col < d {
        let k = lemma_covered(side, d, row, col);
        assert(diagonals(side, count)[k] == before[k]);
        k
    } else {
        let j = if d % 2 == 0 {
            last_row(side, d) - row
        } else {
            row - first_row(side, d)
        };
        assert(row_at(side, d, j) == row);
        assert(diagonal(side, d)[j] == row * side + col);
        assert(diagonals(side, count)[before.len() + j] == diagonal(side, d)[j]);
        before.len() + j
    }
}

/// The default scan visits every position of its transform exactly once, and
/// no position before one nearer the origin.
pub proof fn default_scan_walks_every_position_outwards(side: int)
    requires
        1 <= side,
    ensures
        spec_default_scan(side).len() == side * side,
        forall|p: int|
            0 <= p < side * side ==> #[trigger] spec_default_scan(side).contains(p),
        forall|k: int|
            0 <= k < side * side ==> 0 <= #[trigger] spec_default_scan(side)[k] < side * side,
        forall|k: int, l: int|
            0 <= k < l < side * side ==> {
                let p = #[trigger] spec_default_scan(side)[k];
                let q = #[trigger] spec_default_scan(side)[l];
                &&& p != q
                &&& p / side + p % side <= q / side + q % side
            },
{
    let count = 2 * side - 1;
    lemma_diagonals(side, count);
    assert((2 * side - 1 - count) * (2 * side - count) == 0) by (nonlinear_arith)
        requires
            count == 2 * side - 1,
    ;
    assert forall|p: int| 0 <= p < side * side implies #[trigger] spec_default_scan(side).contains(
        p,
    ) by {
        vstd::arithmetic::div_mod::lemma_fundamental_div_mod(p, side);
        let row = p / side;
        let col = p % side;
        assert(0 <= row < side && row * side + col == p) by (nonlinear_arith)
            requires
                p == side * row + col,
                0 <= col < side,
                0 <= p < side * side,
                1 <= side,
        ;
        let k = lemma_covered(side, count, row, col);
        assert(spec_default_scan(side)[k] == p);
    }
}

/// Whatever its class, a scan stays inside its transform.
pub proof fn scans_stay_inside(side: int, class: TxClass)
    requires
        1 <= side,
    ensures
        scan_for(side, class).len() == side * side,
        forall|k: int|
            0 <= k < side * side ==> 0 <= #[trigger] scan_for(side, class)[k] < side * side,
{
    if class == TxClass::TwoD {
        default_scan_walks_every_position_outwards(side);
    } else {
        assert(0 <= side * side) by (nonlinear_arith)
            requires
                1 <= side,
        ;
        assert forall|k: int| 0 <= k < side * side implies 0 <= #[trigger] scan_for(
            side,
            class,
        )[k] < side * side by {
            if class == TxClass::Horiz {
                vstd::arithmetic::div_mod::lemma_fundamental_div_mod(k, side);
                let q = k / side;
                assert(0 <= q < side) by (nonlinear_arith)
                    requires
                        k == side * q + k % side,
                        0 <= k % side < side,
                        0 <= k < side * side,
                        1 <= side,
                ;
                lemma_position(side, k % side, q);
            }
        }
    }
}

/// The default scan of a square transform, as raster positions in the order
/// they are coded.
pub fn default_scan(side: usize) -> (scan: Vec<u16>)
    requires
        1 <= side <= 256,
    ensures
        positions(scan@) == spec_default_scan(side as int),
{
    let mut scan: Vec<u16> = Vec::new();
    let count: usize = 2 * side - 1;
    let mut d: usize = 0;
    while d < count
        invariant
            1 <= side <= 256,
            count == 2 * side - 1,
            d <= count,
            positions(scan@) == diagonals(side as int, d as int),
        decreases count - d,
    {
        let lo: usize = if d < side {
            0
        } else {
            d - (side - 1)
        };
        let hi: usize = if d < side {
            d
        } else {
            side - 1
        };
        let ghost before = scan@;
        let mut j: usize = 0;
        while j < hi + 1 - lo
            invariant
                1 <= side <= 256,
                d < 2 * side - 1,
                lo == first_row(side as int, d as int),
                hi == last_row(side as int, d as int),
                lo <= hi < side,
                j <= hi + 1 - lo,
                positions(scan@) == positions(before) + diagonal(side as int, d as int).take(
                    j as int,
                ),
            decreases hi + 1 - lo - j,
        {
            let row: usize = if d % 2 == 0 {
                hi - j
            } else {
                lo + j
            };
            proof {
                lemma_position(side as int, row as int, d - row);
                assert(side * side <= 0x10000) by (nonlinear_arith)
                    requires
                        1 <= side <= 256,
                ;
                assert(0 <= row * side <= row * side + (d - row));
            }
            let ghost held = scan@;
            scan.push((row * side + (d - row)) as u16);
            proof {
                assert(positions(scan@) =~= positions(held).push(
                    on_diagonal(side as int, d as int, row as int),
                ));
                assert(diagonal(side as int, d as int).take(j + 1) =~= diagonal(
                    side as int,
                    d as int,
                ).take(j as int).push(on_diagonal(side as int, d as int, row as int)));
            }
            j += 1;
        }
        proof {
            assert(diagonal(side as int, d as int).take(j as int) =~= diagonal(
                side as int,
                d as int,
            ));
        }
        d += 1;
    }
    scan
}

/// The scan of a transform along one axis.
pub fn class_scan_table(side: usize, class: TxClass) -> (scan: Vec<u16>)
    requires
        1 <= side <= 256,
        class != TxClass::TwoD,
    ensures
        positions(scan@) == scan_for(side as int, class),
{
    let mut scan: Vec<u16> = Vec::new();
    proof {
        assert(side * side <= 0x10000) by (nonlinear_arith)
            requires
                1 <= side <= 256,
        ;
        scans_stay_inside(side as int, class);
    }
    let area: usize = side * side;
    let mut i: usize = 0;
    while i < area
        invariant
            1 <= side <= 256,
            area == side * side,
            area <= 0x10000,
            i <= area,
            class != TxClass::TwoD,
            forall|k: int|
                0 <= k < side * side ==> 0 <= #[trigger] scan_for(side as int, class)[k] < side
                    * side,
            positions(scan@) == scan_for(side as int, class).take(i as int),
        decreases area - i,
    {
        assert(0 <= scan_for(side as int, class)[i as int] < area);
        let pos: usize = match class {
            TxClass::Horiz => {
                proof {
                    assert(0 <= (i % side) * side) by (nonlinear_arith);
                }
                (i % side) * side + i / side
            },
            _ => i,
        };
        let ghost held = scan@;
        scan.push(pos as u16);
        proof {
            assert(positions(scan@) =~= positions(held).push(pos as int));
            assert(scan_for(side as int, class).take(i + 1) =~= scan_for(side as int, class).take(
                i as int,
            ).push(pos as int));
        }
        i += 1;
    }
    proof {
        assert(scan_for(side as int, class).take(area as int) =~= scan_for(side as int, class));
    }
    scan
}

/// The scan of a transform of this class.
pub fn scan_of(side: usize, class: TxClass) -> (scan: Vec<u16>)
    requires
        1 <= side <= 256,
    ensures
        positions(scan@) == scan_for(side as int, class),
{
    match class {
        TxClass::TwoD => default_scan(side),
        _ => class_scan_table(side, class),
    }
}

} // verus!
