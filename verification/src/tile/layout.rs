//! Where the superblocks, blocks and tiles of a frame lie.
use crate::tile::error::TileError;
use vstd::prelude::*;

verus! {

/// Side of a 32x32 block in 4x4 units.
pub const BLOCK_MI: u32 = 8;

/// The largest frame side in 4x4 units whose superblocks' far edges can still
/// be named.
pub const MAX_MI: u32 = 0xffff_ff00;

/// Whether more than half of a block lies inside the frame along one axis:
/// only then can it be coded unsplit.
pub open spec fn spec_has_half(pos: int, side_mi: int, bound: int) -> bool {
    pos + side_mi / 2 < bound
}

/// Whether more than half of a block of `side_mi` units at a position lies
/// inside the frame along one axis.
pub fn has_half(pos: u32, side_mi: u32, bound: u32) -> (has: bool)
    requires
        pos + side_mi / 2 <= u32::MAX,
    ensures
        has == spec_has_half(pos as int, side_mi as int, bound as int),
{
    pos + side_mi / 2 < bound
}

/// A number divided by another, rounded up.
pub open spec fn ceil_div(n: int, d: int) -> int {
    (n + d - 1) / d
}

fn div_up(n: u32, d: u32) -> (q: u32)
    requires
        d > 0,
    ensures
        q == ceil_div(n as int, d as int),
{
    proof {
        vstd::arithmetic::div_mod::lemma_fundamental_div_mod(n as int, d as int);
        let whole = n as int / d as int;
        let part = n as int % d as int;
        if part == 0 {
            assert(n + d - 1 == whole * d + (d - 1)) by (nonlinear_arith)
                requires
                    n == d * whole + part,
                    part == 0,
            ;
            vstd::arithmetic::div_mod::lemma_fundamental_div_mod_converse(
                n + d - 1,
                d as int,
                whole,
                d - 1,
            );
        } else {
            assert(n + d - 1 == (whole + 1) * d + (part - 1)) by (nonlinear_arith)
                requires
                    n == d * whole + part,
            ;
            vstd::arithmetic::div_mod::lemma_fundamental_div_mod_converse(
                n + d - 1,
                d as int,
                whole + 1,
                part - 1,
            );
        }
        assert(whole + (if part == 0 {
            0int
        } else {
            1int
        }) <= n) by (nonlinear_arith)
            requires
                n == d * whole + part,
                0 <= part,
                d > 0,
                whole >= 0,
        ;
    }
    n / d + if n % d == 0 {
        0
    } else {
        1
    }
}

/// How many 32x32 blocks a frame is coded over, across and down: every block
/// whose origin is inside.
pub fn block_grid(mi_cols: u32, mi_rows: u32) -> (grid: (u32, u32))
    ensures
        grid.0 == ceil_div(mi_cols as int, 8),
        grid.1 == ceil_div(mi_rows as int, 8),
{
    (div_up(mi_cols, BLOCK_MI), div_up(mi_rows, BLOCK_MI))
}

/// Refuses a frame that holds no block.
pub fn check_blocks(mi_cols: u32, mi_rows: u32) -> (r: Result<(), TileError>)
    ensures
        mi_cols > 0 && mi_rows > 0 ==> r == Ok::<(), TileError>(()),
        mi_cols == 0 || mi_rows == 0 ==> r == Err::<(), TileError>(TileError::NoGrid),
{
    if mi_cols == 0 || mi_rows == 0 {
        return Err(TileError::NoGrid);
    }
    Ok(())
}

/// How many 64x64 superblocks a frame is coded over along an axis.
pub open spec fn superblocks(mi: int) -> int {
    ceil_div(ceil_div(mi, 8), 2)
}

/// How many 64x64 superblocks a frame is coded over, across and down.
pub fn superblock_grid(mi_cols: u32, mi_rows: u32) -> (grid: (u32, u32))
    ensures
        grid.0 == superblocks(mi_cols as int),
        grid.1 == superblocks(mi_rows as int),
{
    let (cols, rows): (u32, u32) = block_grid(mi_cols, mi_rows);
    (div_up(cols, 2), div_up(rows, 2))
}

/// The coefficient tables a frame's base quantizer starts from.
pub open spec fn spec_q_ctx(base_q_idx: int) -> int {
    if base_q_idx <= 20 {
        0
    } else if base_q_idx <= 60 {
        1
    } else if base_q_idx <= 120 {
        2
    } else {
        3
    }
}

/// Which of the four sets of coefficient tables a frame's base quantizer
/// starts from.
pub fn q_ctx_of(base_q_idx: u8) -> (ctx: usize)
    ensures
        ctx == spec_q_ctx(base_q_idx as int),
{
    if base_q_idx <= 20 {
        0
    } else if base_q_idx <= 60 {
        1
    } else if base_q_idx <= 120 {
        2
    } else {
        3
    }
}

/// One superblock in the order they are written: its row and column, whether
/// it is the first of its row of superblocks, and whether it is the first of
/// its superblock.
pub type SbStep = (u32, u32, bool, bool);

/// The superblocks of a tile, row by row.
pub open spec fn raster_order(r0: int, r1: int, c0: int, c1: int) -> Seq<SbStep> {
    let width = c1 - c0;
    Seq::new(
        if r0 < r1 && c0 < c1 {
            ((r1 - r0) * width) as nat
        } else {
            0
        },
        |i: int| ((r0 + i / width) as u32, (c0 + i % width) as u32, i % width == 0, true),
    )
}

/// The up to four 64x64 cells of the 128x128 superblock at a cell, as far as
/// the tile reaches: across, then down.
pub open spec fn quad(r: int, c: int, r1: int, c1: int, first: bool) -> Seq<SbStep> {
    let start = seq![(r as u32, c as u32, first, true)];
    let across = if c + 1 < c1 {
        start.push((r as u32, (c + 1) as u32, false, false))
    } else {
        start
    };
    let below = if r + 1 < r1 {
        across.push(((r + 1) as u32, c as u32, false, false))
    } else {
        across
    };
    if r + 1 < r1 && c + 1 < c1 {
        below.push(((r + 1) as u32, (c + 1) as u32, false, false))
    } else {
        below
    }
}

/// How many 128x128 superblocks a range of cells takes.
pub open spec fn quads(from: int, to: int) -> int {
    if from < to {
        (to - from + 1) / 2
    } else {
        0
    }
}

/// The first `count` 128x128 superblocks of the row at a cell row.
pub open spec fn quad_row(r: int, count: int, r1: int, c0: int, c1: int) -> Seq<SbStep>
    decreases count,
{
    if count <= 0 {
        Seq::empty()
    } else {
        quad_row(r, count - 1, r1, c0, c1) + quad(
            r,
            c0 + 2 * (count - 1),
            r1,
            c1,
            count == 1,
        )
    }
}

/// The first `count` rows of 128x128 superblocks.
pub open spec fn quad_rows(count: int, r0: int, r1: int, c0: int, c1: int) -> Seq<SbStep>
    decreases count,
{
    if count <= 0 {
        Seq::empty()
    } else {
        quad_rows(count - 1, r0, r1, c0, c1) + quad_row(
            r0 + 2 * (count - 1),
            quads(c0, c1),
            r1,
            c0,
            c1,
        )
    }
}

/// The order a tile's 64x64 cells are written in.
pub open spec fn write_order(r0: int, r1: int, c0: int, c1: int, sb128: bool) -> Seq<SbStep> {
    if sb128 {
        quad_rows(quads(r0, r1), r0, r1, c0, c1)
    } else {
        raster_order(r0, r1, c0, c1)
    }
}

/// Whether a cell lies in a range of rows and columns.
pub open spec fn in_cells(s: SbStep, r0: int, r1: int, c0: int, c1: int) -> bool {
    r0 <= s.0 < r1 && c0 <= s.1 < c1
}

/// Whether an order holds every cell of a range, no other, and none twice.
pub open spec fn covers(order: Seq<SbStep>, r0: int, r1: int, c0: int, c1: int) -> bool {
    &&& forall|k: int| 0 <= k < order.len() ==> in_cells(#[trigger] order[k], r0, r1, c0, c1)
    &&& forall|k: int, l: int|
        0 <= k < l < order.len() ==> #[trigger] order[k].0 != #[trigger] order[l].0 || order[k].1
            != order[l].1
    &&& forall|r: int, c: int|
        r0 <= r < r1 && c0 <= c < c1 ==> #[trigger] has_cell(order, r, c)
}

/// Whether an order holds a cell.
pub open spec fn has_cell(order: Seq<SbStep>, r: int, c: int) -> bool {
    exists|k: int| 0 <= k < order.len() && #[trigger] order[k].0 == r && order[k].1 == c
}

/// Whether a cell lies in a range of rows and columns.
spec fn within(r: int, c: int, range: (int, int, int, int)) -> bool {
    range.0 <= r < range.1 && range.2 <= c < range.3
}

/// Two orders of disjoint cells, one after the other.
proof fn lemma_joined(
    a: Seq<SbStep>,
    b: Seq<SbStep>,
    ar: (int, int, int, int),
    br: (int, int, int, int),
    cr: (int, int, int, int),
)
    requires
        covers(a, ar.0, ar.1, ar.2, ar.3),
        covers(b, br.0, br.1, br.2, br.3),
        forall|r: int, c: int|
            #[trigger] within(r, c, cr) <==> within(r, c, ar) || within(r, c, br),
        forall|s: SbStep|
            !(#[trigger] in_cells(s, ar.0, ar.1, ar.2, ar.3) && in_cells(
                s,
                br.0,
                br.1,
                br.2,
                br.3,
            )),
    ensures
        covers(a + b, cr.0, cr.1, cr.2, cr.3),
{
    let all = a + b;
    assert forall|k: int| 0 <= k < all.len() implies in_cells(
        #[trigger] all[k],
        cr.0,
        cr.1,
        cr.2,
        cr.3,
    ) by {
        let s = all[k];
        assert(within(s.0 as int, s.1 as int, cr) <==> within(s.0 as int, s.1 as int, ar) || within(
            s.0 as int,
            s.1 as int,
            br,
        ));
        if k < a.len() {
            assert(s == a[k]);
        } else {
            assert(s == b[k - a.len()]);
        }
    }
    assert forall|k: int, l: int| 0 <= k < l < all.len() implies #[trigger] all[k].0
        != #[trigger] all[l].0 || all[k].1 != all[l].1 by {
        if l < a.len() {
            assert(all[k] == a[k] && all[l] == a[l]);
        } else if k >= a.len() {
            assert(all[k] == b[k - a.len()] && all[l] == b[l - a.len()]);
        } else {
            assert(all[k] == a[k] && all[l] == b[l - a.len()]);
            assert(in_cells(a[k], ar.0, ar.1, ar.2, ar.3));
            assert(in_cells(b[l - a.len()], br.0, br.1, br.2, br.3));
        }
    }
    assert forall|r: int, c: int| cr.0 <= r < cr.1 && cr.2 <= c < cr.3 implies #[trigger] has_cell(
        all,
        r,
        c,
    ) by {
        assert(within(r, c, cr));
        if ar.0 <= r < ar.1 && ar.2 <= c < ar.3 {
            assert(has_cell(a, r, c));
            let k = choose|k: int|
                0 <= k < a.len() && #[trigger] a[k].0 == r && a[k].1 == c;
            assert(all[k] == a[k]);
        } else {
            assert(has_cell(b, r, c));
            let k = choose|k: int|
                0 <= k < b.len() && #[trigger] b[k].0 == r && b[k].1 == c;
            assert(all[a.len() + k] == b[k]);
        }
    }
}

proof fn lemma_quad(r: int, c: int, r1: int, c1: int, first: bool)
    requires
        0 <= r < r1 <= u32::MAX,
        0 <= c < c1 <= u32::MAX,
    ensures
        covers(
            quad(r, c, r1, c1, first),
            r,
            if r + 1 < r1 {
                r + 2
            } else {
                r + 1
            },
            c,
            if c + 1 < c1 {
                c + 2
            } else {
                c + 1
            },
        ),
{
    let q = quad(r, c, r1, c1, first);
    let rt = if r + 1 < r1 {
        r + 2
    } else {
        r + 1
    };
    let ct = if c + 1 < c1 {
        c + 2
    } else {
        c + 1
    };
    assert(q[0].0 == r && q[0].1 == c);
    if c + 1 < c1 {
        assert(q[1].0 == r && q[1].1 == c + 1);
    }
    if r + 1 < r1 {
        let k: int = if c + 1 < c1 {
            2
        } else {
            1
        };
        assert(q[k].0 == r + 1 && q[k].1 == c);
        if c + 1 < c1 {
            assert(q[3].0 == r + 1 && q[3].1 == c + 1);
        }
    }
    assert forall|rr: int, cc: int| r <= rr < rt && c <= cc < ct implies #[trigger] has_cell(
        q,
        rr,
        cc,
    ) by {
        assert(rr == r || rr == r + 1);
        assert(cc == c || cc == c + 1);
    }
}

/// The lesser of two cells.
spec fn up_to(a: int, b: int) -> int {
    if a <= b {
        a
    } else {
        b
    }
}

proof fn lemma_quad_row(r: int, count: int, r1: int, c0: int, c1: int)
    requires
        0 <= r < r1 <= u32::MAX,
        0 <= c0 <= c1 <= u32::MAX,
        0 <= count <= quads(c0, c1),
    ensures
        covers(
            quad_row(r, count, r1, c0, c1),
            r,
            up_to(r + 2, r1),
            c0,
            up_to(c0 + 2 * count, c1),
        ),
    decreases count,
{
    if count > 0 {
        let c = c0 + 2 * (count - 1);
        lemma_quad_row(r, count - 1, r1, c0, c1);
        lemma_quad(r, c, r1, c1, count == 1);
        lemma_joined(
            quad_row(r, count - 1, r1, c0, c1),
            quad(r, c, r1, c1, count == 1),
            (r, up_to(r + 2, r1), c0, c),
            (r, up_to(r + 2, r1), c, up_to(c + 2, c1)),
            (r, up_to(r + 2, r1), c0, up_to(c0 + 2 * count, c1)),
        );
    }
}

proof fn lemma_quad_rows(count: int, r0: int, r1: int, c0: int, c1: int)
    requires
        0 <= r0 <= r1 <= u32::MAX,
        0 <= c0 <= c1 <= u32::MAX,
        0 <= count <= quads(r0, r1),
    ensures
        covers(quad_rows(count, r0, r1, c0, c1), r0, up_to(r0 + 2 * count, r1), c0, c1),
    decreases count,
{
    if count > 0 {
        let r = r0 + 2 * (count - 1);
        lemma_quad_rows(count - 1, r0, r1, c0, c1);
        lemma_quad_row(r, quads(c0, c1), r1, c0, c1);
        lemma_joined(
            quad_rows(count - 1, r0, r1, c0, c1),
            quad_row(r, quads(c0, c1), r1, c0, c1),
            (r0, r, c0, c1),
            (r, up_to(r + 2, r1), c0, c1),
            (r0, up_to(r0 + 2 * count, r1), c0, c1),
        );
    }
}

/// Every 64x64 cell of a tile is written, and none twice.
pub proof fn every_cell_is_written_once(r0: int, r1: int, c0: int, c1: int, sb128: bool)
    requires
        0 <= r0 <= r1 <= u32::MAX,
        0 <= c0 <= c1 <= u32::MAX,
    ensures
        covers(write_order(r0, r1, c0, c1, sb128), r0, r1, c0, c1),
{
    if sb128 {
        lemma_quad_rows(quads(r0, r1), r0, r1, c0, c1);
    } else if r0 < r1 && c0 < c1 {
        let order = raster_order(r0, r1, c0, c1);
        let width = c1 - c0;
        assert forall|k: int| 0 <= k < order.len() implies {
            &&& in_cells(#[trigger] order[k], r0, r1, c0, c1)
            &&& (order[k].0 - r0) * width + (order[k].1 - c0) == k
        } by {
            vstd::arithmetic::div_mod::lemma_fundamental_div_mod(k, width);
            assert(0 <= k / width < r1 - r0) by (nonlinear_arith)
                requires
                    k == width * (k / width) + k % width,
                    0 <= k % width < width,
                    0 <= k < (r1 - r0) * width,
            ;
            assert((k / width) * width == width * (k / width)) by (nonlinear_arith);
        }
        assert forall|r: int, c: int| r0 <= r < r1 && c0 <= c < c1 implies #[trigger] has_cell(
            order,
            r,
            c,
        ) by {
            let k = (r - r0) * width + (c - c0);
            assert(0 <= k < (r1 - r0) * width) by (nonlinear_arith)
                requires
                    k == (r - r0) * width + (c - c0),
                    0 <= r - r0 < r1 - r0,
                    0 <= c - c0 < width,
            ;
            vstd::arithmetic::div_mod::lemma_fundamental_div_mod_converse(
                k,
                width,
                r - r0,
                c - c0,
            );
            assert(order[k].0 == r && order[k].1 == c);
        }
    }
}

fn push_quad(
    out: &mut Vec<SbStep>,
    r: u32,
    c: u32,
    r1: u32,
    c1: u32,
    first: bool,
)
    requires
        r < r1,
        c < c1,
    ensures
        final(out)@ == old(out)@ + quad(r as int, c as int, r1 as int, c1 as int, first),
{
    out.push((r, c, first, true));
    if c + 1 < c1 {
        out.push((r, c + 1, false, false));
    }
    if r + 1 < r1 {
        out.push((r + 1, c, false, false));
        if c + 1 < c1 {
            out.push((r + 1, c + 1, false, false));
        }
    }
    proof {
        assert(out@ =~= old(out)@ + quad(r as int, c as int, r1 as int, c1 as int, first));
    }
}

proof fn lemma_no_quads(count: int, r0: int, r1: int, c0: int, c1: int)
    requires
        c0 >= c1,
    ensures
        quad_rows(count, r0, r1, c0, c1).len() == 0,
    decreases count,
{
    if count > 0 {
        lemma_no_quads(count - 1, r0, r1, c0, c1);
    }
}

/// No cell outside a tile is written, whatever its bounds.
pub proof fn every_written_cell_is_inside(r0: int, r1: int, c0: int, c1: int, sb128: bool)
    requires
        0 <= r0,
        0 <= c0,
        r1 <= u32::MAX,
        c1 <= u32::MAX,
    ensures
        forall|k: int|
            0 <= k < write_order(r0, r1, c0, c1, sb128).len() ==> in_cells(
                #[trigger] write_order(r0, r1, c0, c1, sb128)[k],
                r0,
                r1,
                c0,
                c1,
            ),
{
    if r0 <= r1 && c0 <= c1 {
        every_cell_is_written_once(r0, r1, c0, c1, sb128);
    } else if c0 >= c1 {
        lemma_no_quads(quads(r0, r1), r0, r1, c0, c1);
    }
}

/// The order a tile's 64x64 cells are written in: plain raster, or with
/// 128x128 superblocks the four cells of each, in raster order over those.
pub fn sb_write_order(r0: u32, r1: u32, c0: u32, c1: u32, sb128: bool) -> (order: Vec<SbStep>)
    requires
        r1 < u32::MAX,
        c1 < u32::MAX,
    ensures
        order@ == write_order(r0 as int, r1 as int, c0 as int, c1 as int, sb128),
{
    let mut order: Vec<SbStep> = Vec::new();
    if !sb128 {
        let ghost all = raster_order(r0 as int, r1 as int, c0 as int, c1 as int);
        let ghost width = c1 - c0;
        if r0 >= r1 || c0 >= c1 {
            proof {
                assert(order@ =~= all);
            }
            return order;
        }
        let mut r: u32 = r0;
        proof {
            assert((r - r0) * width == 0) by (nonlinear_arith)
                requires
                    r == r0,
            ;
            assert(order@ =~= all.take(0));
        }
        while r < r1
            invariant
                r0 <= r <= r1,
                c0 < c1,
                r0 < r1,
                width == c1 - c0,
                all == raster_order(r0 as int, r1 as int, c0 as int, c1 as int),
                order@ == all.take((r - r0) * width),
            decreases r1 - r,
        {
            let mut c: u32 = c0;
            while c < c1
                invariant
                    r0 <= r < r1,
                    c0 <= c <= c1,
                    c0 < c1,
                    width == c1 - c0,
                    all == raster_order(r0 as int, r1 as int, c0 as int, c1 as int),
                    order@ == all.take((r - r0) * width + (c - c0)),
                decreases c1 - c,
            {
                proof {
                    let k = (r - r0) * width + (c - c0);
                    assert(0 <= k < (r1 - r0) * width) by (nonlinear_arith)
                        requires
                            k == (r - r0) * width + (c - c0),
                            0 <= r - r0 < r1 - r0,
                            0 <= c - c0 < width,
                    ;
                    vstd::arithmetic::div_mod::lemma_fundamental_div_mod_converse(
                        k,
                        width,
                        r - r0,
                        c - c0,
                    );
                    assert(all.take(k + 1) =~= all.take(k).push(all[k]));
                }
                order.push((r, c, c == c0, true));
                c += 1;
            }
            proof {
                assert((r - r0) * width + width == (r + 1 - r0) * width) by (nonlinear_arith);
            }
            r += 1;
        }
        proof {
            assert(all.take((r1 - r0) * width) =~= all);
        }
        return order;
    }
    let rows: u32 = if r0 < r1 {
        (r1 - r0) / 2 + (r1 - r0) % 2
    } else {
        0
    };
    let cols: u32 = if c0 < c1 {
        (c1 - c0) / 2 + (c1 - c0) % 2
    } else {
        0
    };
    let mut i: u32 = 0;
    while i < rows
        invariant
            i <= rows,
            rows == quads(r0 as int, r1 as int),
            cols == quads(c0 as int, c1 as int),
            order@ == quad_rows(i as int, r0 as int, r1 as int, c0 as int, c1 as int),
        decreases rows - i,
    {
        let ghost before = order@;
        let r: u32 = r0 + 2 * i;
        let mut j: u32 = 0;
        proof {
            assert(order@ =~= before + quad_row(r as int, 0, r1 as int, c0 as int, c1 as int));
        }
        while j < cols
            invariant
                j <= cols,
                r < r1,
                cols == quads(c0 as int, c1 as int),
                order@ == before + quad_row(
                    r as int,
                    j as int,
                    r1 as int,
                    c0 as int,
                    c1 as int,
                ),
            decreases cols - j,
        {
            push_quad(&mut order, r, c0 + 2 * j, r1, c1, j == 0);
            j += 1;
            proof {
                assert(order@ =~= before + quad_row(
                    r as int,
                    j as int,
                    r1 as int,
                    c0 as int,
                    c1 as int,
                ));
            }
        }
        i += 1;
    }
    order
}

/// The share of a table's mass that one symbol has.
pub open spec fn spec_element_prob(cdf: Seq<u16>, element: int) -> int {
    cdf[element] - if element > 0 {
        cdf[element - 1] as int
    } else {
        0
    }
}

/// The mass of the first `count` of some symbols.
pub open spec fn mass(cdf: Seq<u16>, elements: Seq<usize>, count: int) -> int
    decreases count,
{
    if count <= 0 {
        0
    } else {
        mass(cdf, elements, count - 1) + spec_element_prob(cdf, elements[count - 1] as int)
    }
}

/// Whether a table is one of cumulative shares of 32768.
pub open spec fn is_cdf(cdf: Seq<u16>) -> bool {
    &&& forall|i: int| 0 <= i < cdf.len() ==> #[trigger] cdf[i] <= 32768
    &&& forall|i: int, j: int| 0 <= i <= j < cdf.len() ==> cdf[i] <= cdf[j]
}

/// Whether symbols of a table are named in ascending order.
pub open spec fn are_symbols(elements: Seq<usize>, cdf: Seq<u16>) -> bool {
    &&& forall|i: int| 0 <= i < elements.len() ==> #[trigger] elements[i] < cdf.len()
    &&& forall|i: int, j: int| 0 <= i < j < elements.len() ==> elements[i] < elements[j]
}

/// The probability a table gives one symbol on its own.
pub fn element_prob(cdf: &[u16], element: usize) -> (p: u16)
    requires
        is_cdf(cdf@),
        element < cdf.len(),
    ensures
        p == spec_element_prob(cdf@, element as int),
{
    if element > 0 {
        cdf[element] - cdf[element - 1]
    } else {
        cdf[element]
    }
}

/// The two-symbol table a partition flag at the frame edge is coded with: the
/// mass of the listed types is the probability of a split.
pub fn gather(cdf: &[u16], elements: &[usize]) -> (table: [u16; 3])
    requires
        is_cdf(cdf@),
        are_symbols(elements@, cdf@),
    ensures
        table@[0] == 32768 - mass(cdf@, elements@, elements@.len() as int),
        table@[1] == 32768,
        table@[2] == 0,
        0 <= mass(cdf@, elements@, elements@.len() as int) <= 32768,
{
    let mut split: u16 = 0;
    let mut i: usize = 0;
    while i < elements.len()
        invariant
            i <= elements.len(),
            is_cdf(cdf@),
            are_symbols(elements@, cdf@),
            split == mass(cdf@, elements@, i as int),
            i > 0 ==> split <= cdf@[elements@[i - 1] as int],
            i == 0 ==> split == 0,
        decreases elements.len() - i,
    {
        let e: usize = elements[i];
        proof {
            if i > 0 {
                assert(elements@[i - 1] < elements@[i as int]);
                assert(cdf@[elements@[i - 1] as int] <= cdf@[e - 1]);
            }
        }
        split = split + element_prob(cdf, e);
        i += 1;
    }
    proof {
        if i > 0 {
            assert(cdf@[elements@[i - 1] as int] <= 32768);
        }
    }
    [32768 - split, 32768, 0]
}

/// The mass of symbols that follow each other is the share between the first and the last of
/// them, and that of every symbol up to one is what the table holds there.
pub proof fn runs_have_the_share_between_their_ends(
    cdf: Seq<u16>,
    elements: Seq<usize>,
    first: int,
    count: int,
)
    requires
        0 <= first,
        0 < count <= elements.len(),
        first + count <= cdf.len(),
        forall|i: int| 0 <= i < count ==> #[trigger] elements[i] == first + i,
    ensures
        first > 0 ==> mass(cdf, elements, count) == cdf[first + count - 1] - cdf[first - 1],
        first == 0 ==> mass(cdf, elements, count) == cdf[count - 1],
    decreases count,
{
    assert(elements[count - 1] == first + count - 1);
    if count > 1 {
        runs_have_the_share_between_their_ends(cdf, elements, first, count - 1);
    } else {
        assert(mass(cdf, elements, 0) == 0);
    }
}

} // verus!
