//! What the contexts read from the blocks above and to the left mean, and what
//! a block leaves there for the blocks that follow it.
use crate::tile::context;
use crate::tile::neighbours;
use crate::tile::neighbours::{Bands, Cell, Neighbour, PlaneStates};
use vstd::prelude::*;

verus! {

/// The bands with above and left exchanged.
pub open spec fn mirrored(b: Bands) -> Bands {
    Bands {
        above: b.left,
        left: b.above,
        above_mode: b.left_mode,
        left_mode: b.above_mode,
        row0: b.col0,
        col0: b.row0,
        mi_cols: b.mi_rows,
        mi_rows: b.mi_cols,
        ..b
    }
}

/// The context of a skip flag is the number of the two neighbours that are
/// skipped, whichever they are.
pub proof fn skip_contexts_count_skipped_neighbours(b: Bands, mi_r: int, mi_c: int)
    ensures
        ({
            let ctx = neighbours::spec_skip_ctx(b, mi_r, mi_c);
            let (above, left) = (b.above[mi_c].skip, b.left[mi_r].skip);
            &&& ctx == 2 <==> above && left
            &&& ctx == 1 <==> above != left
            &&& ctx == 0 <==> !above && !left
            &&& neighbours::spec_skip_ctx(mirrored(b), mi_c, mi_r) == ctx
        }),
{
}

/// The context of a partition says of each side whether the block there is at
/// most half as wide: the left one counts two and the one above counts one.
pub proof fn partition_contexts_name_the_finer_sides(b: Bands, mi_r: int, mi_c: int, side: int)
    ensures
        ({
            let ctx = neighbours::spec_partition_ctx(b, mi_r, mi_c, side);
            let (above, left) = (b.above[mi_c].side, b.left[mi_r].side);
            let other = neighbours::spec_partition_ctx(mirrored(b), mi_c, mi_r, side);
            &&& ctx == 0 <==> 2 * above > side && 2 * left > side
            &&& ctx == 1 <==> 2 * above <= side && 2 * left > side
            &&& ctx == 2 <==> 2 * above > side && 2 * left <= side
            &&& ctx == 3 <==> 2 * above <= side && 2 * left <= side
            &&& ctx == 1 <==> other == 2
            &&& ctx == 2 <==> other == 1
            &&& ctx == 3 <==> other == 3
        }),
{
}

/// The context of a transform depth is the number of the two neighbours inside
/// the tile whose transform is at least as large as the block's largest. In an
/// inter frame a neighbour predicted from another frame is compared by its block.
pub proof fn depth_contexts_count_large_neighbours(b: Bands, mi_r: int, mi_c: int, side: int)
    ensures
        ({
            let ctx = neighbours::spec_tx_size_ctx(b, mi_r, mi_c, side);
            let above = mi_r > b.row0 && b.above[mi_c].tx >= side;
            let left = mi_c > b.col0 && b.left[mi_r].tx >= side;
            &&& ctx == 2 <==> above && left
            &&& ctx == 1 <==> above != left
            &&& ctx == 0 <==> !above && !left
            &&& neighbours::spec_tx_size_ctx(mirrored(b), mi_c, mi_r, side) == ctx
        }),
        ({
            let ctx = neighbours::spec_tx_size_ctx_txfm(b, mi_r, mi_c, side);
            let (a, l) = (b.above[mi_c], b.left[mi_r]);
            let above = mi_r > b.row0 && (a.inter && a.side >= side || !a.inter && a.txfm >= side);
            let left = mi_c > b.col0 && (l.inter && l.side >= side || !l.inter && l.txfm >= side);
            &&& ctx == 2 <==> above && left
            &&& ctx == 1 <==> above != left
            &&& ctx == 0 <==> !above && !left
            &&& neighbours::spec_tx_size_ctx_txfm(mirrored(b), mi_c, mi_r, side) == ctx
        }),
{
}

/// How many of `count` units from `lo` on have a DC of one sign in a plane.
pub open spec fn dcs(band: Seq<Cell>, lo: int, count: int, plane: int, negative: bool) -> int
    decreases count,
{
    if count <= 0 {
        0
    } else {
        let c = band[lo + count - 1];
        let dc = if plane == 0 {
            c.y.dc
        } else if plane == 1 {
            c.u.dc
        } else {
            c.v.dc
        };
        dcs(band, lo, count - 1, plane, negative) + if dc == Some(negative) {
            1int
        } else {
            0int
        }
    }
}

proof fn lemma_votes(band: Seq<Cell>, lo: int, count: int, plane: int)
    requires
        0 <= plane <= 2,
    ensures
        neighbours::votes(band, lo, count, plane) == dcs(band, lo, count, plane, false) - dcs(
            band,
            lo,
            count,
            plane,
            true,
        ),
        0 <= dcs(band, lo, count, plane, false),
        0 <= dcs(band, lo, count, plane, true),
        count >= 0 ==> dcs(band, lo, count, plane, false) + dcs(band, lo, count, plane, true)
            <= count,
    decreases count,
{
    if count > 0 {
        lemma_votes(band, lo, count - 1, plane);
    }
}

/// The context of a DC's sign goes by the majority among the units above and to
/// the left of the block that have a DC: 2 where more of them are positive, 1
/// where more are negative, and 0 at a tie.
pub proof fn sign_contexts_follow_the_majority(
    b: Bands,
    mi_r: int,
    mi_c: int,
    count: int,
    plane: int,
)
    requires
        0 <= plane <= 2,
        0 <= count <= 32,
    ensures
        ({
            let ctx = neighbours::spec_dc_sign_ctx(
                neighbours::around_of(b, mi_r, mi_c, count, plane).dc_vote as int,
            );
            let positive = dcs(b.above, mi_c, count, plane, false) + dcs(
                b.left,
                mi_r,
                count,
                plane,
                false,
            );
            let negative = dcs(b.above, mi_c, count, plane, true) + dcs(
                b.left,
                mi_r,
                count,
                plane,
                true,
            );
            &&& ctx == 0 <==> positive == negative
            &&& ctx == 1 <==> positive < negative
            &&& ctx == 2 <==> positive > negative
        }),
{
    lemma_votes(b.above, mi_c, count, plane);
    lemma_votes(b.left, mi_r, count, plane);
}

/// A side of a block is coded in a plane exactly where one of the units along it
/// carried a coefficient there, and the other planes say nothing about it.
pub proof fn sides_are_coded_by_their_units(
    b: Bands,
    mi_r: int,
    mi_c: int,
    count: int,
    k: int,
)
    requires
        0 <= k < count,
    ensures
        b.above[mi_c + k].y.coded ==> neighbours::around_of(b, mi_r, mi_c, count, 0).above_coded,
        b.above[mi_c + k].u.coded ==> neighbours::around_of(b, mi_r, mi_c, count, 1).above_coded,
        b.above[mi_c + k].v.coded ==> neighbours::around_of(b, mi_r, mi_c, count, 2).above_coded,
        b.left[mi_r + k].y.coded ==> neighbours::around_of(b, mi_r, mi_c, count, 0).left_coded,
        b.left[mi_r + k].u.coded ==> neighbours::around_of(b, mi_r, mi_c, count, 1).left_coded,
        b.left[mi_r + k].v.coded ==> neighbours::around_of(b, mi_r, mi_c, count, 2).left_coded,
        (forall|j: int| 0 <= j < count ==> !(#[trigger] b.above[mi_c + j]).u.coded)
            ==> !neighbours::around_of(b, mi_r, mi_c, count, 1).above_coded,
        (forall|j: int| 0 <= j < count ==> !(#[trigger] b.left[mi_r + j]).u.coded)
            ==> !neighbours::around_of(b, mi_r, mi_c, count, 1).left_coded,
        (forall|j: int| 0 <= j < count ==> !(#[trigger] b.above[mi_c + j]).v.coded)
            ==> !neighbours::around_of(b, mi_r, mi_c, count, 2).above_coded,
        (forall|j: int| 0 <= j < count ==> !(#[trigger] b.left[mi_r + j]).v.coded)
            ==> !neighbours::around_of(b, mi_r, mi_c, count, 2).left_coded,
{
    assert(neighbours::plane_of(b.above[mi_c + k], 0) == b.above[mi_c + k].y);
    assert(neighbours::plane_of(b.above[mi_c + k], 1) == b.above[mi_c + k].u);
    assert(neighbours::plane_of(b.above[mi_c + k], 2) == b.above[mi_c + k].v);
    assert(neighbours::plane_of(b.left[mi_r + k], 0) == b.left[mi_r + k].y);
    assert(neighbours::plane_of(b.left[mi_r + k], 1) == b.left[mi_r + k].u);
    assert(neighbours::plane_of(b.left[mi_r + k], 2) == b.left[mi_r + k].v);
    assert forall|i: int| mi_c <= i < mi_c + count && (#[trigger] neighbours::plane_of(
        b.above[i],
        1,
    )).coded implies b.above[mi_c + (i - mi_c)].u.coded by {}
    assert forall|i: int| mi_r <= i < mi_r + count && (#[trigger] neighbours::plane_of(
        b.left[i],
        1,
    )).coded implies b.left[mi_r + (i - mi_r)].u.coded by {}
    assert forall|i: int| mi_c <= i < mi_c + count && (#[trigger] neighbours::plane_of(
        b.above[i],
        2,
    )).coded implies b.above[mi_c + (i - mi_c)].v.coded by {}
    assert forall|i: int| mi_r <= i < mi_r + count && (#[trigger] neighbours::plane_of(
        b.left[i],
        2,
    )).coded implies b.left[mi_r + (i - mi_r)].v.coded by {}
}

/// How much the luma units along a side carry: 2 where one of them has at least
/// four, 1 where one has anything at all, else 0.
pub open spec fn is_tier(band: Seq<Cell>, lo: int, count: int, tier: int) -> bool {
    &&& tier == 2 <==> exists|k: int| 0 <= k < count && (#[trigger] band[lo + k]).y.level >= 4
    &&& tier == 0 <==> forall|k: int| 0 <= k < count ==> (#[trigger] band[lo + k]).y.level == 0
    &&& 0 <= tier <= 2
}

spec fn tier_of(x: u8) -> int {
    if x >= 4 {
        2
    } else if x > 0 {
        1
    } else {
        0
    }
}

proof fn lemma_or(x: u8, y: u8)
    ensures
        (x | y) == 0 <==> x == 0 && y == 0,
        (x | y) >= 4 <==> x >= 4 || y >= 4,
{
    assert((x | y) == 0 <==> x == 0 && y == 0) by (bit_vector);
    assert((x | y) >= 4 <==> x >= 4 || y >= 4) by (bit_vector);
}

proof fn lemma_tiers(band: Seq<Cell>, lo: int, count: int)
    ensures
        is_tier(band, lo, count, tier_of(neighbours::tiers(band, lo, count))),
    decreases count,
{
    if count > 0 {
        lemma_tiers(band, lo, count - 1);
        let last = band[lo + (count - 1)];
        let before = neighbours::tiers(band, lo, count - 1);
        lemma_or(before, last.y.level);
        assert(neighbours::tiers(band, lo, count) == before | last.y.level);
        if before >= 4 {
            let k = choose|k: int| 0 <= k < count - 1 && (#[trigger] band[lo + k]).y.level >= 4;
            assert(band[lo + k].y.level >= 4);
        }
        if before != 0 {
            assert(!(forall|k: int|
                0 <= k < count - 1 ==> (#[trigger] band[lo + k]).y.level == 0));
            let k = choose|k: int| 0 <= k < count - 1 && (#[trigger] band[lo + k]).y.level != 0;
            assert(band[lo + k].y.level != 0);
        }
    }
}

/// The context of a luma unit's all-zero flag goes by how much lies along its two
/// sides, whichever is which: 1 for nothing on either, then 2 and 3 for little
/// and much on one of them, 4 for little on both, 5 for little on one and much on
/// the other, and 6 for much on both.
pub proof fn unit_contexts_go_by_tiers(
    b: Bands,
    mi_r: int,
    mi_c: int,
    count: int,
    above: int,
    left: int,
)
    requires
        is_tier(b.above, mi_c, count, above),
        is_tier(b.left, mi_r, count, left),
    ensures
        ({
            let ctx = neighbours::spec_luma_skip_ctx(b, mi_r, mi_c, count);
            &&& above + left == 0 ==> ctx == 1
            &&& above + left == 1 ==> ctx == 2
            &&& above + left == 2 ==> ctx == if above == left {
                4int
            } else {
                3
            }
            &&& above + left == 3 ==> ctx == 5
            &&& above + left == 4 ==> ctx == 6
        }),
{
    lemma_tiers(b.above, mi_c, count);
    lemma_tiers(b.left, mi_r, count);
    lemma_tier_is_one(b.above, mi_c, count, above, tier_of(neighbours::tiers(b.above, mi_c, count)));
    lemma_tier_is_one(b.left, mi_r, count, left, tier_of(neighbours::tiers(b.left, mi_r, count)));
    let t = context::min(neighbours::tiers(b.above, mi_c, count) as int, 4);
    let l = context::min(neighbours::tiers(b.left, mi_r, count) as int, 4);
    assert(t == 0 || t == 1 || t == 2 || t == 3 || t == 4);
    assert(l == 0 || l == 1 || l == 2 || l == 3 || l == 4);
}

proof fn lemma_tier_is_one(band: Seq<Cell>, lo: int, count: int, x: int, y: int)
    requires
        is_tier(band, lo, count, x),
        is_tier(band, lo, count, y),
    ensures
        x == y,
{
}

/// The magnitudes of a block, added up from any of its levels on.
pub open spec fn adds_up(grid: Seq<i32>, sums: Seq<int>) -> bool {
    &&& sums.len() == grid.len() + 1
    &&& sums[0] == 0
    &&& forall|p: int|
        0 <= p < grid.len() ==> #[trigger] sums[p + 1] == sums[p] + if grid[p] < 0 {
            -(grid[p] as int)
        } else {
            grid[p] as int
        }
}

proof fn lemma_level_sum(grid: Seq<i32>, sums: Seq<int>, count: int)
    requires
        adds_up(grid, sums),
        0 <= count <= grid.len(),
    ensures
        neighbours::level_sum(grid, count) == sums[count],
        sums[count] >= 0,
        sums[count] == 0 <==> forall|p: int| 0 <= p < count ==> #[trigger] grid[p] == 0,
    decreases count,
{
    if count > 0 {
        lemma_level_sum(grid, sums, count - 1);
        assert(sums[(count - 1) + 1] == sums[count]);
        assert((forall|p: int| 0 <= p < count ==> #[trigger] grid[p] == 0) ==> grid[count - 1]
            == 0);
    }
}

/// What a transform block leaves behind: whether any of its levels is not zero,
/// the sum of their magnitudes as far as seven, and the sign of its first level
/// where it has one.
pub proof fn blocks_leave_their_sum_and_sign(grid: Seq<i32>, sums: Seq<int>)
    requires
        grid.len() > 0,
        adds_up(grid, sums),
    ensures
        ({
            let left = neighbours::state_of(grid);
            let sum = sums[grid.len() as int];
            &&& sum <= 7 ==> left.level == sum
            &&& sum > 7 ==> left.level == 7
            &&& left.coded <==> left.level > 0
            &&& left.dc == Some(true) <==> grid[0] < 0
            &&& left.dc == Some(false) <==> grid[0] > 0
            &&& left.dc is None <==> grid[0] == 0
        }),
{
    lemma_level_sum(grid, sums, grid.len() as int);
    if !neighbours::state_of(grid).coded {
        assert forall|p: int| 0 <= p < grid.len() implies #[trigger] grid[p] == 0 by {}
    } else {
        let p = choose|p: int| 0 <= p < grid.len() && grid[p] != 0;
        assert(grid[p] != 0);
    }
}

/// Whether unit `i` of a band belongs to a block of `side` samples at unit `lo`.
pub open spec fn is_own(i: int, lo: int, side: int) -> bool {
    lo <= i && 4 * i < 4 * lo + side
}

/// A block of an inter frame leaves its skip flag, how it is predicted and its
/// reference in its own units of both bands, and nothing in any other unit. A
/// second reference is left beside the first.
pub proof fn inter_blocks_leave_their_references(
    b: Bands,
    mi_r: int,
    mi_c: int,
    side: int,
    skip: bool,
    inter: bool,
    names: (i8, i8),
    i: int,
)
    requires
        side % 4 == 0,
        0 <= i,
    ensures
        ({
            let one = neighbours::after_inter(b, mi_r, mi_c, side, skip, inter, names.0);
            let two = neighbours::after_compound(one, mi_r, mi_c, side, names.1, 0, 1);
            &&& i < b.above.len() && is_own(i, mi_c, side) ==> {
                &&& one.above[i].skip == skip && one.above[i].inter == inter
                &&& one.above[i].ref0 == names.0 && one.above[i].ref1 is None
                &&& two.above[i].skip == skip && two.above[i].inter == inter
                &&& two.above[i].ref0 == names.0 && two.above[i].ref1 == Some(names.1)
                &&& one.above[i].side == b.above[i].side && one.above[i].y == b.above[i].y
            }
            &&& i < b.left.len() && is_own(i, mi_r, side) ==> {
                &&& one.left[i].skip == skip && one.left[i].inter == inter
                &&& one.left[i].ref0 == names.0 && one.left[i].ref1 is None
                &&& two.left[i].skip == skip && two.left[i].inter == inter
                &&& two.left[i].ref0 == names.0 && two.left[i].ref1 == Some(names.1)
                &&& one.left[i].side == b.left[i].side && one.left[i].y == b.left[i].y
            }
            &&& i < b.above.len() && !is_own(i, mi_c, side) ==> one.above[i] == b.above[i]
                && two.above[i] == b.above[i]
            &&& i < b.left.len() && !is_own(i, mi_r, side) ==> one.left[i] == b.left[i]
                && two.left[i] == b.left[i]
        }),
{
}

/// A block leaves its side and its coefficients in its own units of both bands.
/// Past the edge of the frame there are none: luma's stop at the edge, and
/// chroma's at the end of the unit pair across it.
pub proof fn blocks_leave_their_coefficients(
    b: Bands,
    mi_r: int,
    mi_c: int,
    side: int,
    states: PlaneStates,
    i: int,
)
    requires
        side % 4 == 0,
        0 <= side <= 128,
        0 <= b.mi_cols <= 0xffff_ffff,
        0 <= b.mi_rows <= 0xffff_ffff,
        0 <= i,
    ensures
        ({
            let done = neighbours::after_planes(b, mi_r, mi_c, side, states, true, false);
            let none = Neighbour { coded: false, level: 0, dc: None };
            &&& i < b.above.len() && is_own(i, mi_c, side) ==> {
                let c = done.above[i];
                &&& c.side == side && c.skip == b.above[i].skip
                &&& i < b.mi_cols ==> c.y == states.y && c.u == states.u && c.v == states.v
                &&& i >= b.mi_cols ==> c.y == none
                &&& i == b.mi_cols && i % 2 == 1 ==> c.u == states.u && c.v == states.v
                &&& i > b.mi_cols || i == b.mi_cols && i % 2 == 0 ==> c.u == none && c.v == none
            }
            &&& i < b.left.len() && is_own(i, mi_r, side) ==> {
                let c = done.left[i];
                &&& c.side == side && c.skip == b.left[i].skip
                &&& i < b.mi_rows ==> c.y == states.y && c.u == states.u && c.v == states.v
                &&& i >= b.mi_rows ==> c.y == none
                &&& i == b.mi_rows && i % 2 == 1 ==> c.u == states.u && c.v == states.v
                &&& i > b.mi_rows || i == b.mi_rows && i % 2 == 0 ==> c.u == none && c.v == none
            }
            &&& i < b.above.len() && !is_own(i, mi_c, side) ==> done.above[i] == b.above[i]
            &&& i < b.left.len() && !is_own(i, mi_r, side) ==> done.left[i] == b.left[i]
        }),
{
}

/// A block leaves the size of its transform in its own units alone, once for
/// either frame's syntax, and its skip flag likewise.
pub proof fn blocks_leave_their_transform(
    b: Bands,
    mi_r: int,
    mi_c: int,
    side: int,
    tx: int,
    skip: bool,
    i: int,
)
    requires
        side % 4 == 0,
        0 <= tx <= 64,
        0 <= i,
    ensures
        ({
            let key = neighbours::after_tx(b, mi_r, mi_c, side, tx);
            let inter = neighbours::after_txfm(b, mi_r, mi_c, tx, side);
            let flag = neighbours::after_skip(b, mi_r, mi_c, side, skip);
            &&& i < b.above.len() && is_own(i, mi_c, side) ==> {
                &&& key.above[i].tx == tx && key.above[i].txfm == b.above[i].txfm
                &&& inter.above[i].txfm == tx && inter.above[i].tx == b.above[i].tx
                &&& flag.above[i].skip == skip && flag.above[i].side == b.above[i].side
            }
            &&& i < b.left.len() && is_own(i, mi_r, side) ==> {
                &&& key.left[i].tx == tx && key.left[i].txfm == b.left[i].txfm
                &&& inter.left[i].txfm == tx && inter.left[i].tx == b.left[i].tx
                &&& flag.left[i].skip == skip && flag.left[i].side == b.left[i].side
            }
            &&& i < b.above.len() && !is_own(i, mi_c, side) ==> key.above[i] == b.above[i]
                && inter.above[i] == b.above[i] && flag.above[i] == b.above[i]
            &&& i < b.left.len() && !is_own(i, mi_r, side) ==> key.left[i] == b.left[i]
                && inter.left[i] == b.left[i] && flag.left[i] == b.left[i]
        }),
{
}

/// A tile starts, and each of its rows of superblocks starts to the left, with
/// nothing coded: no skipped or inter neighbour, no block finer than any that
/// asks, and the DC mode everywhere.
pub proof fn tiles_start_from_nothing(
    b: Bands,
    cols: int,
    rows: int,
    mi_r: int,
    mi_c: int,
    side: int,
)
    requires
        0 <= mi_r < 4 * rows,
        0 <= mi_c < 4 * cols,
        b == neighbours::fresh(cols, rows, b.mi_cols, b.mi_rows),
        0 <= side <= 128,
    ensures
        neighbours::spec_skip_ctx(b, mi_r, mi_c) == 0,
        neighbours::spec_partition_ctx(b, mi_r, mi_c, side) == 0,
        side > 0 ==> neighbours::spec_tx_size_ctx(b, mi_r, mi_c, side) == 0,
        !b.above[mi_c].inter && !b.left[mi_r].inter,
        !b.above[mi_c].y.coded && b.above[mi_c].y.dc is None && b.above[mi_c].y.level == 0,
        b.above[mi_c].txfm == 64 && b.above[mi_c].palette_size == 0,
        b.above_mode[mi_c / 4] == 0 && b.left_mode[mi_r / 4] == 0,
{
}

/// A row of superblocks forgets what lies to its left, and keeps what lies above.
pub proof fn rows_forget_their_left(b: Bands, i: int)
    requires
        0 <= i < b.left.len(),
    ensures
        ({
            let started = neighbours::row_started(b);
            let c = started.left[i];
            &&& started.above == b.above && started.above_mode == b.above_mode
            &&& c.side == 128 && !c.skip && !c.inter && c.ref0 == -1 && c.ref1 is None
            &&& !c.y.coded && !c.u.coded && !c.v.coded
            &&& c.y.level == 0 && c.y.dc is None && c.u.dc is None && c.v.dc is None
            &&& c.tx == 0 && c.txfm == 64
            &&& c.palette_size == 0 && c.palette_uv_size == 0
            &&& i < b.left_mode.len() ==> started.left_mode[i] == 0
        }),
{
}

} // verus!
