//! Quantised levels laid out over their transform.
use crate::tile::blocks::Coeff;
use crate::tile::error::TileError;
use vstd::prelude::*;

verus! {

/// Levels above this carry a base-range tail.
pub const NUM_BASE_LEVELS: i32 = 2;

/// The largest level the base and base-range syntax carry between them.
pub const MAX_BR_LEVEL: i32 = 14;

/// The largest level a Golomb tail on top of that reaches: a decoder reads at
/// most twenty bits of it.
pub const MAX_LEVEL: i32 = 524302;

/// Whether a coefficient lies inside its transform.
pub open spec fn is_inside(c: Coeff, side: int) -> bool {
    c.row < side && c.col < side
}

/// Whether a level can be coded.
pub open spec fn is_codable(level: int) -> bool {
    level != 0 && -MAX_LEVEL <= level <= MAX_LEVEL
}

/// The raster position of a coefficient.
pub open spec fn position(c: Coeff, side: int) -> int {
    c.row * side + c.col
}

/// Whether one of the first `count` coefficients sits at a position.
pub open spec fn is_taken(coeffs: Seq<Coeff>, side: int, count: int, pos: int) -> bool {
    exists|j: int| 0 <= j < count && position(#[trigger] coeffs[j], side) == pos
}

/// What is wrong with coefficient `i` after the ones before it.
pub open spec fn fault(coeffs: Seq<Coeff>, side: int, i: int) -> Option<TileError> {
    if !is_inside(coeffs[i], side) {
        Some(TileError::CoeffOutside)
    } else if !is_codable(coeffs[i].level as int) {
        Some(TileError::CoeffLevel)
    } else if is_taken(coeffs, side, i, position(coeffs[i], side)) {
        Some(TileError::CoeffRepeated)
    } else {
        None
    }
}

/// The first fault among the first `count` coefficients.
pub open spec fn first_fault(coeffs: Seq<Coeff>, side: int, count: int) -> Option<TileError>
    decreases count,
{
    if count <= 0 {
        None
    } else {
        match first_fault(coeffs, side, count - 1) {
            Some(e) => Some(e),
            None => fault(coeffs, side, count - 1),
        }
    }
}

/// The first `count` coefficients over their transform, zero elsewhere.
pub open spec fn laid_out(coeffs: Seq<Coeff>, side: int, count: int) -> Seq<i32>
    decreases count,
{
    if count <= 0 {
        Seq::new((side * side) as nat, |p: int| 0i32)
    } else {
        laid_out(coeffs, side, count - 1).update(
            position(coeffs[count - 1], side),
            coeffs[count - 1].level,
        )
    }
}

/// A coefficient list over its transform, or its first fault.
pub open spec fn spec_level_grid(coeffs: Seq<Coeff>, side: int) -> Result<Seq<i32>, TileError> {
    match first_fault(coeffs, side, coeffs.len() as int) {
        Some(e) => Err(e),
        None => Ok(laid_out(coeffs, side, coeffs.len() as int)),
    }
}

/// Whether every level of a grid is zero or can be coded.
pub open spec fn is_grid(grid: Seq<i32>, side: int) -> bool {
    &&& grid.len() == side * side
    &&& forall|p: int|
        0 <= p < grid.len() ==> #[trigger] grid[p] == 0 || is_codable(grid[p] as int)
}

proof fn lemma_position(c: Coeff, side: int)
    requires
        is_inside(c, side),
    ensures
        0 <= position(c, side) < side * side,
{
    assert(0 <= c.row * side + c.col < side * side) by (nonlinear_arith)
        requires
            0 <= c.row < side,
            0 <= c.col < side,
    ;
}

/// A list without a fault puts each of its levels at its own position and
/// leaves every other position zero.
pub proof fn level_grids_hold_their_coefficients(coeffs: Seq<Coeff>, side: int, count: int)
    requires
        0 <= count <= coeffs.len(),
        0 <= side,
        first_fault(coeffs, side, count) is None,
    ensures
        is_grid(laid_out(coeffs, side, count), side),
        forall|j: int|
            0 <= j < count ==> 0 <= position(#[trigger] coeffs[j], side) < side * side && laid_out(
                coeffs,
                side,
                count,
            )[position(coeffs[j], side)] == coeffs[j].level,
        forall|p: int|
            0 <= p < side * side ==> (#[trigger] laid_out(coeffs, side, count)[p] == 0
                <==> !is_taken(coeffs, side, count, p)),
    decreases count,
{
    if count == 0 {
        assert(0 <= side * side) by (nonlinear_arith)
            requires
                0 <= side,
        ;
    } else {
        level_grids_hold_their_coefficients(coeffs, side, count - 1);
        let c = coeffs[count - 1];
        lemma_position(c, side);
        let before = laid_out(coeffs, side, count - 1);
        let after = laid_out(coeffs, side, count);
        assert(!is_taken(coeffs, side, count - 1, position(c, side)));
        assert forall|j: int| 0 <= j < count implies 0 <= position(#[trigger] coeffs[j], side)
            < side * side && after[position(coeffs[j], side)] == coeffs[j].level by {
            if j < count - 1 {
                assert(position(coeffs[j], side) != position(c, side));
            }
        }
        assert forall|p: int| 0 <= p < side * side implies (#[trigger] after[p] == 0 <==> !is_taken(
            coeffs,
            side,
            count,
            p,
        )) by {
            if p == position(c, side) {
                assert(position(coeffs[count - 1], side) == p);
            } else {
                assert(after[p] == before[p]);
                if is_taken(coeffs, side, count, p) {
                    let j = choose|j: int|
                        0 <= j < count && position(#[trigger] coeffs[j], side) == p;
                    assert(j < count - 1);
                    assert(is_taken(coeffs, side, count - 1, p));
                }
                if is_taken(coeffs, side, count - 1, p) {
                    let j = choose|j: int|
                        0 <= j < count - 1 && position(#[trigger] coeffs[j], side) == p;
                    assert(is_taken(coeffs, side, count, p));
                }
            }
        }
    }
}

proof fn lemma_first_fault_stays(coeffs: Seq<Coeff>, side: int, count: int, more: int)
    requires
        count <= more,
        first_fault(coeffs, side, count) is Some,
    ensures
        first_fault(coeffs, side, more) == first_fault(coeffs, side, count),
    decreases more,
{
    if count < more {
        lemma_first_fault_stays(coeffs, side, count, more - 1);
    }
}

/// Lays one plane's coefficient list out over its transform, rejecting the
/// positions and levels the writer does not code.
pub fn level_grid(coeffs: &[Coeff], side: usize) -> (r: Result<Vec<i32>, TileError>)
    requires
        side <= 64,
    ensures
        match r {
            Ok(grid) => spec_level_grid(coeffs@, side as int) == Ok::<Seq<i32>, TileError>(grid@)
                && is_grid(grid@, side as int),
            Err(e) => spec_level_grid(coeffs@, side as int) == Err::<Seq<i32>, TileError>(e),
        },
{
    proof {
        assert(0 <= side * side <= 4096) by (nonlinear_arith)
            requires
                side <= 64,
        ;
    }
    let area: usize = side * side;
    let mut grid: Vec<i32> = Vec::new();
    while grid.len() < area
        invariant
            grid.len() <= area,
            forall|p: int| 0 <= p < grid.len() ==> grid@[p] == 0,
        decreases area - grid.len(),
    {
        grid.push(0);
    }
    assert(grid@ =~= laid_out(coeffs@, side as int, 0));
    let mut i: usize = 0;
    while i < coeffs.len()
        invariant
            side <= 64,
            i <= coeffs.len(),
            first_fault(coeffs@, side as int, i as int) is None,
            grid@ == laid_out(coeffs@, side as int, i as int),
        decreases coeffs.len() - i,
    {
        let coeff: Coeff = coeffs[i];
        if coeff.row as usize >= side || coeff.col as usize >= side {
            proof {
                assert(first_fault(coeffs@, side as int, i + 1) == Some(TileError::CoeffOutside));
                lemma_first_fault_stays(coeffs@, side as int, i + 1, coeffs@.len() as int);
            }
            return Err(TileError::CoeffOutside);
        }
        if coeff.level == 0 || coeff.level > MAX_LEVEL || coeff.level < -MAX_LEVEL {
            proof {
                assert(first_fault(coeffs@, side as int, i + 1) == Some(TileError::CoeffLevel));
                lemma_first_fault_stays(coeffs@, side as int, i + 1, coeffs@.len() as int);
            }
            return Err(TileError::CoeffLevel);
        }
        proof {
            lemma_position(coeff, side as int);
            level_grids_hold_their_coefficients(coeffs@, side as int, i as int);
            assert(0 <= coeff.row * side) by (nonlinear_arith);
            assert(side * side <= 4096) by (nonlinear_arith)
                requires
                    side <= 64,
            ;
        }
        let pos: usize = coeff.row as usize * side + coeff.col as usize;
        if grid[pos] != 0 {
            proof {
                assert(first_fault(coeffs@, side as int, i + 1) == Some(TileError::CoeffRepeated));
                lemma_first_fault_stays(coeffs@, side as int, i + 1, coeffs@.len() as int);
            }
            return Err(TileError::CoeffRepeated);
        }
        grid.set(pos, coeff.level);
        i += 1;
    }
    proof {
        level_grids_hold_their_coefficients(coeffs@, side as int, i as int);
    }
    Ok(grid)
}

} // verus!
