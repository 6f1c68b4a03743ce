//! The map of a palette's colour indices.
use crate::tile::colours;
use crate::tile::colours::write_uniform;
use crate::tile::ops;
use crate::tile::ops::{put, Cdf, Op};
use crate::tile::scan;
use vstd::prelude::*;

verus! {

/// Which plane's tables a map is coded with.
#[derive(Clone, Copy, Debug, PartialEq, Eq, Structural)]
pub enum MapPlane {
    /// Luma's.
    Y,
    /// The ones chroma shares.
    Uv,
}

/// The colour a pixel of a map takes.
pub open spec fn pixel(map: Seq<u8>, side: int, row: int, col: int) -> int {
    map[row * side + col] as int
}

/// How strongly the coded neighbours of a pixel suggest a colour: two for the
/// one to the left, two for the one above, one for the one between.
pub open spec fn score(map: Seq<u8>, side: int, row: int, col: int, color: int) -> int {
    (if col > 0 && pixel(map, side, row, col - 1) == color {
        2int
    } else {
        0int
    }) + (if row > 0 && col > 0 && pixel(map, side, row - 1, col - 1) == color {
        1int
    } else {
        0int
    }) + (if row > 0 && pixel(map, side, row - 1, col) == color {
        2int
    } else {
        0int
    })
}

/// The highest score among the first `n` colours.
pub open spec fn top_score(map: Seq<u8>, side: int, row: int, col: int, n: int) -> int
    decreases n,
{
    if n <= 0 {
        0
    } else {
        let before = top_score(map, side, row, col, n - 1);
        let own = score(map, side, row, col, n - 1);
        if own > before {
            own
        } else {
            before
        }
    }
}

/// The context of a pixel's colour: how its neighbours agree.
pub open spec fn color_ctx(map: Seq<u8>, side: int, row: int, col: int, n: int) -> int {
    if row == 0 || col == 0 {
        0
    } else {
        let top = top_score(map, side, row, col, n);
        if top == 5 {
            4
        } else if top == 4 {
            3
        } else if top == 3 {
            2
        } else {
            1
        }
    }
}

/// How many of the first `n` colours come before a colour: those of a higher
/// score, and of the same score those of a lower index.
pub open spec fn rank(map: Seq<u8>, side: int, row: int, col: int, color: int, n: int) -> int
    decreases n,
{
    if n <= 0 {
        0
    } else {
        let other = score(map, side, row, col, n - 1);
        let own = score(map, side, row, col, color);
        rank(map, side, row, col, color, n - 1) + if other > own || (other == own && n - 1
            < color) {
            1int
        } else {
            0int
        }
    }
}

/// The table of a map's colours.
pub open spec fn map_table(plane: MapPlane, n: int, ctx: int) -> Cdf {
    match plane {
        MapPlane::Y => Cdf::PaletteYColorIndex((n - 2) as usize, ctx as usize),
        MapPlane::Uv => Cdf::PaletteUvColorIndex((n - 2) as usize, ctx as usize),
    }
}

/// The symbol of one pixel: the place its colour takes when the colours are
/// ordered by what its neighbours suggest.
pub open spec fn pixel_op(
    plane: MapPlane,
    map: Seq<u8>,
    side: int,
    row: int,
    col: int,
    n: int,
) -> Op {
    ops::symbol(
        rank(map, side, row, col, pixel(map, side, row, col), n),
        map_table(plane, n, color_ctx(map, side, row, col, n)),
    )
}

/// The symbols of anti-diagonal `d`, from its top right end.
pub open spec fn diagonal_ops(
    plane: MapPlane,
    map: Seq<u8>,
    side: int,
    n: int,
    d: int,
) -> Seq<Op> {
    Seq::new(
        (scan::last_row(side, d) - scan::first_row(side, d) + 1) as nat,
        |k: int|
            pixel_op(
                plane,
                map,
                side,
                scan::first_row(side, d) + k,
                d - (scan::first_row(side, d) + k),
                n,
            ),
    )
}

/// The symbols of the anti-diagonals before `count`.
pub open spec fn wave_ops(
    plane: MapPlane,
    map: Seq<u8>,
    side: int,
    n: int,
    count: int,
) -> Seq<Op>
    decreases count,
{
    if count <= 1 {
        Seq::empty()
    } else {
        wave_ops(plane, map, side, n, count - 1) + diagonal_ops(plane, map, side, n, count - 1)
    }
}

/// The symbols of a whole map: the first pixel on its own, then the
/// anti-diagonals.
pub open spec fn color_map_ops(plane: MapPlane, map: Seq<u8>, side: int, n: int) -> Seq<Op> {
    colours::uniform_ops(map[0] as int, n) + wave_ops(plane, map, side, n, 2 * side - 1)
}

/// Whether a map gives every pixel of a square one of `n` colours.
pub open spec fn is_map(map: Seq<u8>, side: int, n: int) -> bool {
    &&& map.len() == side * side
    &&& forall|p: int| 0 <= p < map.len() ==> #[trigger] map[p] < n
}

/// Two colours never take the same place, and each takes one of the `n`: the
/// symbol of a pixel tells its colour.
pub proof fn colour_ranks_are_distinct(
    map: Seq<u8>,
    side: int,
    row: int,
    col: int,
    a: int,
    b: int,
    n: int,
)
    requires
        0 <= a < n,
        0 <= b < n,
        a != b,
    ensures
        rank(map, side, row, col, a, n) != rank(map, side, row, col, b, n),
        0 <= rank(map, side, row, col, a, n) < n,
{
    let sa = score(map, side, row, col, a);
    let sb = score(map, side, row, col, b);
    if sa > sb || (sa == sb && a < b) {
        lemma_rank_order(map, side, row, col, a, b, n);
    } else {
        lemma_rank_order(map, side, row, col, b, a, n);
    }
    lemma_rank_bound(map, side, row, col, a, n);
}

proof fn lemma_rank_order(
    map: Seq<u8>,
    side: int,
    row: int,
    col: int,
    a: int,
    b: int,
    n: int,
)
    requires
        a != b,
        score(map, side, row, col, a) > score(map, side, row, col, b) || (score(
            map,
            side,
            row,
            col,
            a,
        ) == score(map, side, row, col, b) && a < b),
        0 <= a,
    ensures
        rank(map, side, row, col, a, n) <= rank(map, side, row, col, b, n),
        a < n ==> rank(map, side, row, col, a, n) < rank(map, side, row, col, b, n),
    decreases n,
{
    if n > 0 {
        lemma_rank_order(map, side, row, col, a, b, n - 1);
    }
}

proof fn lemma_rank_bound(map: Seq<u8>, side: int, row: int, col: int, a: int, n: int)
    requires
        0 <= a,
        0 <= n,
    ensures
        0 <= rank(map, side, row, col, a, n) <= n,
        a < n ==> rank(map, side, row, col, a, n) < n,
    decreases n,
{
    if n > 0 {
        lemma_rank_bound(map, side, row, col, a, n - 1);
    }
}

fn pixel_at(map: &[u8], side: usize, row: usize, col: usize) -> (c: usize)
    requires
        1 <= side <= 64,
        map.len() == side * side,
        row < side,
        col < side,
    ensures
        c == pixel(map@, side as int, row as int, col as int),
        c < 256,
{
    proof {
        assert(0 <= row * side && row * side + col < side * side <= 4096) by (nonlinear_arith)
            requires
                0 <= row < side,
                0 <= col < side,
                side <= 64,
        ;
    }
    map[row * side + col] as usize
}

fn score_at(map: &[u8], side: usize, row: usize, col: usize, color: usize) -> (s: usize)
    requires
        1 <= side <= 64,
        map.len() == side * side,
        row < side,
        col < side,
    ensures
        s == score(map@, side as int, row as int, col as int, color as int),
        s <= 5,
{
    let mut s: usize = 0;
    if col > 0 && pixel_at(map, side, row, col - 1) == color {
        s += 2;
    }
    if row > 0 && col > 0 && pixel_at(map, side, row - 1, col - 1) == color {
        s += 1;
    }
    if row > 0 && pixel_at(map, side, row - 1, col) == color {
        s += 2;
    }
    s
}

/// The context of a pixel's colour and the place the colour takes among the
/// `n` when they are ordered by what its coded neighbours suggest.
pub fn palette_color_index_context(
    map: &[u8],
    side: usize,
    row: usize,
    col: usize,
    n: usize,
) -> (r: (usize, usize))
    requires
        1 <= side <= 64,
        map.len() == side * side,
        row < side,
        col < side,
        n <= 8,
    ensures
        r.0 == color_ctx(map@, side as int, row as int, col as int, n as int),
        r.1 == rank(
            map@,
            side as int,
            row as int,
            col as int,
            pixel(map@, side as int, row as int, col as int),
            n as int,
        ),
{
    let color: usize = pixel_at(map, side, row, col);
    let own: usize = score_at(map, side, row, col, color);
    let mut top: usize = 0;
    let mut place: usize = 0;
    let mut k: usize = 0;
    while k < n
        invariant
            k <= n <= 8,
            1 <= side <= 64,
            map.len() == side * side,
            row < side,
            col < side,
            color == pixel(map@, side as int, row as int, col as int),
            own == score(map@, side as int, row as int, col as int, color as int),
            top == top_score(map@, side as int, row as int, col as int, k as int),
            place == rank(
                map@,
                side as int,
                row as int,
                col as int,
                color as int,
                k as int,
            ),
            place <= k,
        decreases n - k,
    {
        let other: usize = score_at(map, side, row, col, k);
        if other > top {
            top = other;
        }
        if other > own || (other == own && k < color) {
            place += 1;
        }
        k += 1;
    }
    let ctx: usize = if row == 0 || col == 0 {
        0
    } else if top == 5 {
        4
    } else if top == 4 {
        3
    } else if top == 3 {
        2
    } else {
        1
    };
    (ctx, place)
}

/// Writes a map of colour indices: the first pixel on its own, then every
/// anti-diagonal from its top right end, each pixel as the place its colour
/// takes among those its coded neighbours suggest.
pub fn write_color_index_map(
    out: &mut Vec<Op>,
    plane: MapPlane,
    map: &[u8],
    side: usize,
    n: usize,
)
    requires
        1 <= side <= 64,
        2 <= n <= 8,
        is_map(map@, side as int, n as int),
    ensures
        final(out)@ == old(out)@ + color_map_ops(plane, map@, side as int, n as int),
{
    proof {
        assert(side * side >= 1) by (nonlinear_arith)
            requires
                side >= 1,
        ;
        assert(map@[0] < n);
    }
    write_uniform(out, map[0] as usize, n);
    let ghost first = colours::uniform_ops(map@[0] as int, n as int);
    let mut d: usize = 1;
    proof {
        assert(out@ =~= old(out)@ + (first + wave_ops(plane, map@, side as int, n as int, 1)));
    }
    while d < 2 * side - 1
        invariant
            1 <= side <= 64,
            2 <= n <= 8,
            is_map(map@, side as int, n as int),
            1 <= d,
            d <= 2 * side - 1,
            out@ == old(out)@ + (first + wave_ops(
                plane,
                map@,
                side as int,
                n as int,
                d as int,
            )),
        decreases 2 * side - d,
    {
        let lo: usize = if d < side {
            0
        } else {
            d - (side - 1)
        };
        let hi: usize = if d < side {
            d
        } else {
            side - 1
        };
        let ghost before = first + wave_ops(plane, map@, side as int, n as int, d as int);
        let ghost own = diagonal_ops(plane, map@, side as int, n as int, d as int);
        let mut row: usize = lo;
        proof {
            assert(out@ =~= old(out)@ + (before + own.take(0)));
        }
        while row <= hi
            invariant
                1 <= side <= 64,
                2 <= n <= 8,
                is_map(map@, side as int, n as int),
                1 <= d < 2 * side - 1,
                lo == scan::first_row(side as int, d as int),
                hi == scan::last_row(side as int, d as int),
                lo <= row <= hi + 1,
                own == diagonal_ops(plane, map@, side as int, n as int, d as int),
                out@ == old(out)@ + (before + own.take(row - lo)),
            decreases hi + 1 - row,
        {
            let (ctx, symbol): (usize, usize) = palette_color_index_context(
                map,
                side,
                row,
                d - row,
                n,
            );
            let table: Cdf = match plane {
                MapPlane::Y => Cdf::PaletteYColorIndex(n - 2, ctx),
                MapPlane::Uv => Cdf::PaletteUvColorIndex(n - 2, ctx),
            };
            put(out, symbol, table);
            proof {
                let k = row - lo;
                assert(own.take(k + 1) =~= own.take(k).push(own[k]));
                assert(out@ =~= old(out)@ + (before + own.take(k + 1)));
            }
            row += 1;
        }
        proof {
            assert(own.take(row - lo) =~= own);
            assert(out@ =~= old(out)@ + (first + wave_ops(
                plane,
                map@,
                side as int,
                n as int,
                d + 1,
            )));
        }
        d += 1;
    }
    proof {
        assert(out@ =~= old(out)@ + color_map_ops(plane, map@, side as int, n as int));
    }
}

} // verus!
