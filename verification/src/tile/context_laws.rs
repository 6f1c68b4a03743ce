//! What the contexts of a coefficient's level mean: which neighbours they read,
//! and how much of them.
use crate::tile::context;
use crate::tile::context::NZ_MAP_CTX_OFFSET;
use crate::tile::scan::TxClass;
use vstd::prelude::*;

verus! {

/// How large the level `down` rows below and `right` columns to the right of
/// a place is, up to `most`; nothing past the transform.
pub open spec fn size_at(
    grid: Seq<i32>,
    side: int,
    place: (int, int),
    down: int,
    right: int,
    most: int,
) -> int {
    let (row, col) = (place.0 + down, place.1 + right);
    if row < side && col < side {
        let level = grid[row * side + col] as int;
        if level > most || level < -most {
            most
        } else if level < 0 {
            -level
        } else {
            level
        }
    } else {
        0
    }
}

/// Whether `half` is half of `sum`, rounded up and held to `most`.
pub open spec fn is_half(half: int, sum: int, most: int) -> bool {
    &&& 0 <= half <= most
    &&& half < most ==> 2 * half - 1 <= sum <= 2 * half
    &&& half == most ==> sum >= 2 * most - 1
}

/// The five neighbours that a level's context adds up are, in a transform
/// over both axes, the nearest three that lie diagonally ahead and the next one
/// along each axis; along one axis, the next four along it and the nearest
/// across it. Each counts up to three, and half of the sum, rounded up and up to
/// four, is added to where the level sits: 0 at the DC itself, which reads no
/// neighbour; then 1 beside it, 6 up to three steps away and 21 beyond; along
/// one axis 26, 31 and from the third on 36.
pub proof fn level_contexts_halve_their_neighbours(
    grid: Seq<i32>,
    side: int,
    row: int,
    col: int,
)
    requires
        0 <= row < side,
        0 <= col < side,
    ensures
        ({
            let at = (row, col);
            let ctx = context::spec_base_ctx(grid, side, row, col, TxClass::TwoD);
            let sum = size_at(grid, side, at, 0, 1, 3) + size_at(grid, side, at, 1, 0, 3) + size_at(
                grid,
                side,
                at,
                1,
                1,
                3,
            ) + size_at(grid, side, at, 0, 2, 3) + size_at(grid, side, at, 2, 0, 3);
            &&& row + col == 0 ==> ctx == 0
            &&& row + col == 1 ==> is_half(ctx - 1, sum, 4)
            &&& row + col == 2 || row + col == 3 ==> is_half(ctx - 6, sum, 4)
            &&& row + col >= 4 ==> is_half(ctx - 21, sum, 4)
        }),
        ({
            let at = (row, col);
            let ctx = context::spec_base_ctx(grid, side, row, col, TxClass::Horiz);
            let sum = size_at(grid, side, at, 0, 1, 3) + size_at(grid, side, at, 0, 2, 3) + size_at(
                grid,
                side,
                at,
                0,
                3,
                3,
            ) + size_at(grid, side, at, 0, 4, 3) + size_at(grid, side, at, 1, 0, 3);
            &&& col == 0 ==> is_half(ctx - 26, sum, 4)
            &&& col == 1 ==> is_half(ctx - 31, sum, 4)
            &&& col >= 2 ==> is_half(ctx - 36, sum, 4)
        }),
        ({
            let at = (row, col);
            let ctx = context::spec_base_ctx(grid, side, row, col, TxClass::Vert);
            let sum = size_at(grid, side, at, 1, 0, 3) + size_at(grid, side, at, 2, 0, 3) + size_at(
                grid,
                side,
                at,
                3,
                0,
                3,
            ) + size_at(grid, side, at, 4, 0, 3) + size_at(grid, side, at, 0, 1, 3);
            &&& row == 0 ==> is_half(ctx - 26, sum, 4)
            &&& row == 1 ==> is_half(ctx - 31, sum, 4)
            &&& row >= 2 ==> is_half(ctx - 36, sum, 4)
        }),
{
    lemma_places(row, col);
    let near = context::near_sum(grid, side, row, col, TxClass::TwoD);
    let along = context::near_sum(grid, side, row, col, TxClass::Horiz);
    let down = context::near_sum(grid, side, row, col, TxClass::Vert);
    lemma_half(near, 4);
    lemma_half(along, 4);
    lemma_half(down, 4);
    lemma_size(grid, side, (row, col), 0, 1);
    lemma_size(grid, side, (row, col), 0, 2);
    lemma_size(grid, side, (row, col), 0, 3);
    lemma_size(grid, side, (row, col), 0, 4);
    lemma_size(grid, side, (row, col), 1, 0);
    lemma_size(grid, side, (row, col), 2, 0);
    lemma_size(grid, side, (row, col), 3, 0);
    lemma_size(grid, side, (row, col), 4, 0);
    lemma_size(grid, side, (row, col), 1, 1);
}

proof fn lemma_size(grid: Seq<i32>, side: int, at: (int, int), down: int, right: int)
    ensures
        context::capped(grid, side, at.0 + down, at.1 + right) == size_at(
            grid,
            side,
            at,
            down,
            right,
            3,
        ),
        0 <= context::capped(grid, side, at.0 + down, at.1 + right) <= 3,
{
}

proof fn lemma_half(sum: int, most: int)
    requires
        sum >= 0,
        most > 0,
    ensures
        is_half(context::min((sum + 1) / 2, most), sum, most),
{
}

/// The term of a place in a transform over both axes goes by its distance from
/// the DC, along rows and columns together.
proof fn lemma_places(row: int, col: int)
    requires
        0 <= row,
        0 <= col,
    ensures
        NZ_MAP_CTX_OFFSET[context::min(row, 4)][context::min(col, 4)] == if row + col == 0 {
            0int
        } else if row + col == 1 {
            1
        } else if row + col < 4 {
            6
        } else {
            21
        },
{
    let (r, c) = (context::min(row, 4), context::min(col, 4));
    assert(r == 0 || r == 1 || r == 2 || r == 3 || r == 4);
    assert(c == 0 || c == 1 || c == 2 || c == 3 || c == 4);
}

/// The tail of a level reads its two nearest neighbours and a third, ahead on
/// both axes or the next one along the only one, whole: half of their sum,
/// rounded up and up to six, then 7 more at the near end of the transform and 14
/// more beyond it, but at the DC.
pub proof fn tail_contexts_halve_their_neighbours(
    grid: Seq<i32>,
    side: int,
    row: int,
    col: int,
)
    requires
        0 <= row < side,
        0 <= col < side,
    ensures
        ({
            let at = (row, col);
            let most = 0x8000_0000;
            let near = size_at(grid, side, at, 0, 1, most) + size_at(grid, side, at, 1, 0, most);
            let two = context::spec_br_ctx(grid, side, row, col, TxClass::TwoD);
            let along = context::spec_br_ctx(grid, side, row, col, TxClass::Horiz);
            let down = context::spec_br_ctx(grid, side, row, col, TxClass::Vert);
            let sum = near + size_at(grid, side, at, 1, 1, most);
            let sum_along = near + size_at(grid, side, at, 0, 2, most);
            let sum_down = near + size_at(grid, side, at, 2, 0, most);
            &&& row == 0 && col == 0 ==> is_half(two, sum, 6) && is_half(along, sum_along, 6)
                && is_half(down, sum_down, 6)
            &&& row + col >= 1 && row <= 1 && col <= 1 ==> is_half(two - 7, sum, 6)
            &&& row >= 2 || col >= 2 ==> is_half(two - 14, sum, 6)
            &&& row >= 1 && col == 0 ==> is_half(along - 7, sum_along, 6)
            &&& col >= 1 ==> is_half(along - 14, sum_along, 6)
            &&& col >= 1 && row == 0 ==> is_half(down - 7, sum_down, 6)
            &&& row >= 1 ==> is_half(down - 14, sum_down, 6)
        }),
{
}

/// A transform along the columns has the contexts of its transpose along the
/// rows, and one over both axes those of its own transpose.
pub proof fn contexts_turn_with_their_transform(
    a: Seq<i32>,
    b: Seq<i32>,
    side: int,
    row: int,
    col: int,
)
    requires
        0 <= row < side,
        0 <= col < side,
        forall|r: int, c: int|
            0 <= r < side && 0 <= c < side ==> #[trigger] context::magnitude(a, side, r, c)
                == context::magnitude(b, side, c, r),
    ensures
        context::spec_base_ctx(a, side, row, col, TxClass::TwoD) == context::spec_base_ctx(
            b,
            side,
            col,
            row,
            TxClass::TwoD,
        ),
        context::spec_base_ctx(a, side, row, col, TxClass::Horiz) == context::spec_base_ctx(
            b,
            side,
            col,
            row,
            TxClass::Vert,
        ),
        context::spec_br_ctx(a, side, row, col, TxClass::TwoD) == context::spec_br_ctx(
            b,
            side,
            col,
            row,
            TxClass::TwoD,
        ),
        context::spec_br_ctx(a, side, row, col, TxClass::Horiz) == context::spec_br_ctx(
            b,
            side,
            col,
            row,
            TxClass::Vert,
        ),
{
    assert forall|r: int, c: int| 0 <= r && 0 <= c implies #[trigger] context::magnitude(
        a,
        side,
        r,
        c,
    ) == context::magnitude(b, side, c, r) by {
        if r < side && c < side {
        } else {
        }
    }
    lemma_places(row, col);
    lemma_places(col, row);
    assert(context::magnitude(a, side, row + 1, col) == context::magnitude(b, side, col, row + 1));
    assert(context::magnitude(a, side, row, col + 1) == context::magnitude(b, side, col + 1, row));
    assert(context::magnitude(a, side, row + 1, col + 1) == context::magnitude(
        b,
        side,
        col + 1,
        row + 1,
    ));
    assert(context::magnitude(a, side, row + 2, col) == context::magnitude(b, side, col, row + 2));
    assert(context::magnitude(a, side, row, col + 2) == context::magnitude(b, side, col + 2, row));
    assert(context::magnitude(a, side, row, col + 3) == context::magnitude(b, side, col + 3, row));
    assert(context::magnitude(a, side, row, col + 4) == context::magnitude(b, side, col + 4, row));
}

/// The last level of a block reads how far along the scan it is: at its start,
/// within an eighth of the transform, within a quarter, or beyond.
pub proof fn last_levels_are_placed_by_eighths(i: int, area: int)
    requires
        0 <= i < area,
        area % 8 == 0,
    ensures
        ({
            let ctx = context::spec_eob_coeff_ctx(i, area);
            &&& ctx == 0 <==> i == 0
            &&& ctx == 1 <==> 0 < 8 * i <= area
            &&& ctx == 2 <==> area < 8 * i <= 2 * area
            &&& ctx == 3 <==> 8 * i > 2 * area
        }),
{
}

} // verus!
