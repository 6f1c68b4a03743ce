//! The contexts a coefficient's level is coded in.
use crate::tile::levels;
use crate::tile::scan::TxClass;
use vstd::prelude::*;

verus! {

/// Where in a transform over both axes a level sits, by its row and column
/// up to four: the term its context starts from.
pub const NZ_MAP_CTX_OFFSET: [[usize; 5]; 5] = [
    [0, 1, 6, 6, 21],
    [1, 6, 6, 21, 21],
    [6, 6, 21, 21, 21],
    [6, 21, 21, 21, 21],
    [21, 21, 21, 21, 21],
];

/// The magnitude of a level.
pub open spec fn abs(x: int) -> int {
    if x < 0 {
        -x
    } else {
        x
    }
}

/// The lesser of two numbers.
pub open spec fn min(a: int, b: int) -> int {
    if a <= b {
        a
    } else {
        b
    }
}

/// The magnitude at a position that may fall off the transform, where it is
/// zero.
pub open spec fn magnitude(grid: Seq<i32>, side: int, row: int, col: int) -> int {
    if row >= side || col >= side {
        0
    } else {
        abs(grid[row * side + col] as int)
    }
}

/// The same, capped at three.
pub open spec fn capped(grid: Seq<i32>, side: int, row: int, col: int) -> int {
    min(magnitude(grid, side, row, col), 3)
}

/// The sum of the five neighbours a level's context reads: below and to the
/// right of it, along the axes its transform works on.
pub open spec fn near_sum(grid: Seq<i32>, side: int, row: int, col: int, class: TxClass) -> int {
    let nearest = capped(grid, side, row + 1, col) + capped(grid, side, row, col + 1);
    match class {
        TxClass::TwoD => nearest + capped(grid, side, row + 1, col + 1) + capped(
            grid,
            side,
            row + 2,
            col,
        ) + capped(grid, side, row, col + 2),
        TxClass::Horiz => nearest + capped(grid, side, row, col + 2) + capped(
            grid,
            side,
            row,
            col + 3,
        ) + capped(grid, side, row, col + 4),
        TxClass::Vert => nearest + capped(grid, side, row + 2, col) + capped(
            grid,
            side,
            row + 3,
            col,
        ) + capped(grid, side, row + 4, col),
    }
}

/// The term that says how far along its one axis a level sits.
pub open spec fn along_offset(along: int) -> int {
    if along == 0 {
        26
    } else if along == 1 {
        31
    } else {
        36
    }
}

/// The context of a coefficient's level.
pub open spec fn spec_base_ctx(
    grid: Seq<i32>,
    side: int,
    row: int,
    col: int,
    class: TxClass,
) -> int {
    let sum = min((near_sum(grid, side, row, col, class) + 1) / 2, 4);
    match class {
        TxClass::TwoD => if row == 0 && col == 0 {
            0
        } else {
            sum + NZ_MAP_CTX_OFFSET[min(row, 4)][min(col, 4)]
        },
        TxClass::Horiz => sum + along_offset(col),
        TxClass::Vert => sum + along_offset(row),
    }
}

/// The sum of the three neighbours the base-range context reads.
pub open spec fn tail_sum(grid: Seq<i32>, side: int, row: int, col: int, class: TxClass) -> int {
    let nearest = magnitude(grid, side, row + 1, col) + magnitude(grid, side, row, col + 1);
    match class {
        TxClass::TwoD => nearest + magnitude(grid, side, row + 1, col + 1),
        TxClass::Horiz => nearest + magnitude(grid, side, row, col + 2),
        TxClass::Vert => nearest + magnitude(grid, side, row + 2, col),
    }
}

/// Whether a level sits at the near end of its transform's axes.
pub open spec fn is_near(row: int, col: int, class: TxClass) -> bool {
    match class {
        TxClass::TwoD => row < 2 && col < 2,
        TxClass::Horiz => col == 0,
        TxClass::Vert => row == 0,
    }
}

/// The context of a coefficient's base-range tail.
pub open spec fn spec_br_ctx(grid: Seq<i32>, side: int, row: int, col: int, class: TxClass) -> int {
    let sum = min((tail_sum(grid, side, row, col, class) + 1) / 2, 6);
    if row == 0 && col == 0 {
        sum
    } else if is_near(row, col, class) {
        sum + 7
    } else {
        sum + 14
    }
}

/// The context of the last coded level: how far into the scan it sits.
pub open spec fn spec_eob_coeff_ctx(scan_idx: int, area: int) -> int {
    if scan_idx == 0 {
        0
    } else if scan_idx <= area / 8 {
        1
    } else if scan_idx <= area / 4 {
        2
    } else {
        3
    }
}

/// How far into the scan the last coded coefficient sits, in quarters and
/// eighths of the transform.
pub fn eob_coeff_ctx(scan_idx: usize, area: usize) -> (ctx: usize)
    ensures
        ctx == spec_eob_coeff_ctx(scan_idx as int, area as int),
{
    if scan_idx == 0 {
        0
    } else if scan_idx <= area / 8 {
        1
    } else if scan_idx <= area / 4 {
        2
    } else {
        3
    }
}

/// A magnitude at a position that may fall off the transform, where the
/// levels a context reads are zero.
pub fn neighbour(grid: &[i32], side: usize, row: usize, col: usize) -> (m: i32)
    requires
        side <= 64,
        levels::is_grid(grid@, side as int),
    ensures
        m == magnitude(grid@, side as int, row as int, col as int),
        0 <= m <= levels::MAX_LEVEL,
{
    if row >= side || col >= side {
        0
    } else {
        proof {
            assert(0 <= row * side + col < side * side <= 4096) by (nonlinear_arith)
                requires
                    0 <= row < side,
                    0 <= col < side,
                    side <= 64,
            ;
            assert(0 <= row * side) by (nonlinear_arith);
        }
        let level: i32 = grid[row * side + col];
        if level < 0 {
            -level
        } else {
            level
        }
    }
}

fn capped_neighbour(grid: &[i32], side: usize, row: usize, col: usize) -> (m: i32)
    requires
        side <= 64,
        levels::is_grid(grid@, side as int),
    ensures
        m == capped(grid@, side as int, row as int, col as int),
        0 <= m <= 3,
{
    let m: i32 = neighbour(grid, side, row, col);
    if m <= 3 {
        m
    } else {
        3
    }
}

/// The context of a coefficient's level: the magnitudes of the five
/// neighbours below and to the right of it, which a decoder walking the scan
/// backwards already has, plus a term for where in the transform it sits. The
/// DC of a transform over both axes reads context 0 whatever its neighbours
/// carry.
pub fn base_ctx(grid: &[i32], side: usize, row: usize, col: usize, class: TxClass) -> (ctx: usize)
    requires
        side <= 64,
        row < side,
        col < side,
        levels::is_grid(grid@, side as int),
    ensures
        ctx == spec_base_ctx(grid@, side as int, row as int, col as int, class),
{
    let nearest: i32 = capped_neighbour(grid, side, row + 1, col) + capped_neighbour(
        grid,
        side,
        row,
        col + 1,
    );
    let sum: i32 = match class {
        TxClass::TwoD => {
            nearest + capped_neighbour(grid, side, row + 1, col + 1) + capped_neighbour(
                grid,
                side,
                row + 2,
                col,
            ) + capped_neighbour(grid, side, row, col + 2)
        },
        TxClass::Horiz => {
            nearest + capped_neighbour(grid, side, row, col + 2) + capped_neighbour(
                grid,
                side,
                row,
                col + 3,
            ) + capped_neighbour(grid, side, row, col + 4)
        },
        TxClass::Vert => {
            nearest + capped_neighbour(grid, side, row + 2, col) + capped_neighbour(
                grid,
                side,
                row + 3,
                col,
            ) + capped_neighbour(grid, side, row + 4, col)
        },
    };
    let halved: i32 = (sum + 1) / 2;
    let term: usize = if halved <= 4 {
        halved as usize
    } else {
        4
    };
    match class {
        TxClass::TwoD => {
            if row == 0 && col == 0 {
                0
            } else {
                let r: usize = if row <= 4 {
                    row
                } else {
                    4
                };
                let c: usize = if col <= 4 {
                    col
                } else {
                    4
                };
                proof {
                    assert(NZ_MAP_CTX_OFFSET[r as int][c as int] <= 21);
                }
                term + NZ_MAP_CTX_OFFSET[r][c]
            }
        },
        TxClass::Horiz => term + nz_map_ctx_offset_1d(col),
        TxClass::Vert => term + nz_map_ctx_offset_1d(row),
    }
}

/// The term that says how far along its one axis a level sits.
pub fn nz_map_ctx_offset_1d(along: usize) -> (offset: usize)
    ensures
        offset == along_offset(along as int),
        offset <= 36,
{
    if along == 0 {
        26
    } else if along == 1 {
        31
    } else {
        36
    }
}

/// The context of a coefficient's base-range tail: the magnitudes of its
/// three closest neighbours below and to the right, uncapped, and a term
/// separating the DC, the near end of the transform, and the rest.
pub fn br_ctx(grid: &[i32], side: usize, row: usize, col: usize, class: TxClass) -> (ctx: usize)
    requires
        side <= 64,
        row < side,
        col < side,
        levels::is_grid(grid@, side as int),
    ensures
        ctx == spec_br_ctx(grid@, side as int, row as int, col as int, class),
{
    let nearest: i32 = neighbour(grid, side, row + 1, col) + neighbour(grid, side, row, col + 1);
    let third: i32 = match class {
        TxClass::TwoD => neighbour(grid, side, row + 1, col + 1),
        TxClass::Horiz => neighbour(grid, side, row, col + 2),
        TxClass::Vert => neighbour(grid, side, row + 2, col),
    };
    let halved: i32 = (nearest + third + 1) / 2;
    let sum: usize = if halved <= 6 {
        halved as usize
    } else {
        6
    };
    let near: bool = match class {
        TxClass::TwoD => row < 2 && col < 2,
        TxClass::Horiz => col == 0,
        TxClass::Vert => row == 0,
    };
    if row == 0 && col == 0 {
        sum
    } else if near {
        sum + 7
    } else {
        sum + 14
    }
}

proof fn lemma_sums(grid: Seq<i32>, side: int, row: int, col: int, class: TxClass)
    ensures
        0 <= near_sum(grid, side, row, col, class),
        0 <= tail_sum(grid, side, row, col, class),
{
}

proof fn lemma_offset(row: int, col: int)
    requires
        0 <= row <= 4,
        0 <= col <= 4,
    ensures
        0 <= NZ_MAP_CTX_OFFSET[row][col] <= 21,
{
}

/// A level's context is one of the forty-two that are kept, and its tail's
/// one of the twenty-one.
pub proof fn contexts_are_in_range(grid: Seq<i32>, side: int, row: int, col: int, class: TxClass)
    requires
        0 <= row < side,
        0 <= col < side,
    ensures
        0 <= spec_base_ctx(grid, side, row, col, class) < 42,
        0 <= spec_br_ctx(grid, side, row, col, class) < 21,
{
    lemma_sums(grid, side, row, col, class);
    lemma_offset(min(row, 4), min(col, 4));
    let near = near_sum(grid, side, row, col, class);
    let tail = tail_sum(grid, side, row, col, class);
    assert(0 <= min((near + 1) / 2, 4) <= 4);
    assert(0 <= min((tail + 1) / 2, 6) <= 6);
}

} // verus!
