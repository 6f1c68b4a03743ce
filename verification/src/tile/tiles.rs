//! The tiles a frame is cut into.
use crate::bits;
use crate::tile::layout;
use crate::tile::layout::superblock_grid;
use vstd::prelude::*;

verus! {

/// One tile's superblocks and units.
#[derive(Clone, Copy, Debug, PartialEq, Eq, Structural)]
pub struct TileRect {
    /// Its first column of 64x64 superblocks.
    pub sb_col0: u32,
    /// One past its last.
    pub sb_col1: u32,
    /// Its first row of them.
    pub sb_row0: u32,
    /// One past its last.
    pub sb_row1: u32,
    /// Its first column of 4x4 units.
    pub mi_col0: u32,
    /// One past its last.
    pub mi_col1: u32,
    /// Its first row of them.
    pub mi_row0: u32,
    /// One past its last.
    pub mi_row1: u32,
}

/// The whole frame as one tile.
pub open spec fn spec_whole(mi_cols: int, mi_rows: int) -> TileRect {
    TileRect {
        sb_col0: 0,
        sb_col1: layout::superblocks(mi_cols) as u32,
        sb_row0: 0,
        sb_row1: layout::superblocks(mi_rows) as u32,
        mi_col0: 0,
        mi_col1: mi_cols as u32,
        mi_row0: 0,
        mi_row1: mi_rows as u32,
    }
}

impl TileRect {
    /// The whole frame as one tile.
    pub fn whole(mi_cols: u32, mi_rows: u32) -> (rect: TileRect)
        ensures
            rect == spec_whole(mi_cols as int, mi_rows as int),
    {
        let (sb_cols, sb_rows): (u32, u32) = superblock_grid(mi_cols, mi_rows);
        TileRect {
            sb_col0: 0,
            sb_col1: sb_cols,
            sb_row0: 0,
            sb_row1: sb_rows,
            mi_col0: 0,
            mi_col1: mi_cols,
            mi_row0: 0,
            mi_row1: mi_rows,
        }
    }
}

/// A frame's grid of evenly spaced tiles.
#[derive(Clone, Debug)]
pub struct TileLayout {
    /// The number of columns asked for, as a power of two.
    pub cols_log2: u32,
    /// The number of rows asked for.
    pub rows_log2: u32,
    /// Where each tile column starts, in superblocks, and where the last ends.
    pub col_starts_sb: Vec<u32>,
    /// Where each tile row starts, and where the last ends.
    pub row_starts_sb: Vec<u32>,
    /// The frame's width in units.
    pub mi_cols: u32,
    /// The frame's height in units.
    pub mi_rows: u32,
}

/// How many superblocks a tile spans along an axis of `total` superblocks of
/// `unit` cells, when it is to be cut into `2^log2`.
pub open spec fn spacing(total: int, unit: int, log2: int) -> int {
    let each = layout::ceil_div(layout::ceil_div(total, unit), bits::pow2(log2 as nat));
    if each < 1 {
        1
    } else {
        each
    }
}

/// How many tiles that makes.
pub open spec fn tile_count(total: int, unit: int, log2: int) -> int {
    layout::ceil_div(layout::ceil_div(total, unit), spacing(total, unit, log2))
}

/// Where the tiles along an axis start, in cells, and where the last ends.
pub open spec fn starts(total: int, unit: int, log2: int) -> Seq<u32> {
    let count = tile_count(total, unit, log2);
    Seq::new(
        (count + 1) as nat,
        |i: int|
            if i < count {
                (i * spacing(total, unit, log2) * unit) as u32
            } else {
                total as u32
            },
    )
}

/// The cells a superblock spans.
pub open spec fn unit_of(sb128: bool) -> int {
    if sb128 {
        2
    } else {
        1
    }
}

proof fn lemma_ceil_div(n: int, d: int)
    requires
        0 <= n,
        0 < d,
    ensures
        0 <= layout::ceil_div(n, d) <= n,
        d * layout::ceil_div(n, d) >= n,
        n > 0 ==> d * (layout::ceil_div(n, d) - 1) < n,
        n > 0 ==> layout::ceil_div(n, d) > 0,
{
    let q = layout::ceil_div(n, d);
    vstd::arithmetic::div_mod::lemma_fundamental_div_mod(n + d - 1, d);
    let part = (n + d - 1) % d;
    assert(0 <= q <= n && d * q >= n && d * (q - 1) < n + (if n == 0 {
        1int
    } else {
        0int
    }) && (n > 0 ==> q > 0)) by (nonlinear_arith)
        requires
            n + d - 1 == d * q + part,
            0 <= part < d,
            0 <= n,
            0 < d,
    ;
}

/// The tiles along an axis: from the first superblock to the last, each after
/// the other without a gap, none of them empty, no more than were asked for.
pub proof fn tiles_partition_the_axis(total: int, unit: int, log2: int)
    requires
        1 <= total <= u32::MAX,
        unit == 1 || unit == 2,
        0 <= log2,
    ensures
        1 <= tile_count(total, unit, log2) <= bits::pow2(log2 as nat),
        tile_count(total, unit, log2) <= total,
        starts(total, unit, log2)[0] == 0,
        starts(total, unit, log2).last() == total,
        forall|i: int|
            0 <= i < tile_count(total, unit, log2) ==> (#[trigger] starts(total, unit, log2)[i])
                as int == i * spacing(total, unit, log2) * unit,
        forall|i: int, j: int|
            0 <= i < j < starts(total, unit, log2).len() ==> starts(total, unit, log2)[i]
                < starts(total, unit, log2)[j],
{
    let cells = layout::ceil_div(total, unit);
    lemma_ceil_div(total, unit);
    let p = bits::pow2(log2 as nat);
    bits::lemma_pow2_positive(log2 as nat);
    lemma_ceil_div(cells, p);
    let step = spacing(total, unit, log2);
    lemma_ceil_div(cells, step);
    let count = tile_count(total, unit, log2);
    assert(count <= p) by (nonlinear_arith)
        requires
            step * (count - 1) < cells,
            p * step >= cells,
            step > 0,
            p > 0,
    ;
    assert forall|i: int| 0 <= i < count implies 0 <= #[trigger] (i * step) * unit < total by {
        assert(0 <= i * step <= step * (count - 1)) by (nonlinear_arith)
            requires
                0 <= i <= count - 1,
                step > 0,
        ;
        assert(0 <= (i * step) * unit < total) by (nonlinear_arith)
            requires
                0 <= i * step <= cells - 1,
                unit * (cells - 1) < total,
                unit > 0,
        ;
    }
    assert forall|i: int| 0 <= i < count implies (#[trigger] starts(total, unit, log2)[i]) as int
        == i * step * unit by {
        assert(0 <= (i * step) * unit < total);
    }
    assert forall|i: int, j: int| 0 <= i < j < starts(total, unit, log2).len() implies starts(
        total,
        unit,
        log2,
    )[i] < starts(total, unit, log2)[j] by {
        assert(0 <= (i * step) * unit < total);
        if j < count {
            assert(0 <= (j * step) * unit < total);
            assert((i * step) * unit < (j * step) * unit) by (nonlinear_arith)
                requires
                    i < j,
                    step > 0,
                    unit > 0,
            ;
        }
    }
    assert((0 * step) * unit == 0) by (nonlinear_arith);
}

fn axis_starts(total: u32, unit: u32, log2: u32) -> (v: Vec<u32>)
    requires
        1 <= total,
        unit == 1 || unit == 2,
        log2 < 32,
    ensures
        v@ == starts(total as int, unit as int, log2 as int),
{
    proof {
        tiles_partition_the_axis(total as int, unit as int, log2 as int);
        lemma_ceil_div(total as int, unit as int);
    }
    let cells: u32 = if unit == 2 {
        total / 2 + total % 2
    } else {
        total
    };
    let mut parts: u64 = 1;
    let mut k: u32 = 0;
    proof {
        bits::lemma_pow2_values();
    }
    while k < log2
        invariant
            k <= log2 < 32,
            parts == bits::pow2(k as nat),
            parts <= 0x8000_0000,
            k < 31 ==> parts <= 0x4000_0000,
            parts * bits::pow2((31 - k) as nat) == 0x8000_0000,
        decreases log2 - k,
    {
        proof {
            let rest = bits::pow2((30 - k) as nat);
            assert(bits::pow2((31 - k) as nat) == 2 * rest);
            bits::lemma_pow2_positive((30 - k) as nat);
            assert(parts * (2 * rest) == (2 * parts) * rest) by (nonlinear_arith);
            assert(2 * parts <= 0x8000_0000) by (nonlinear_arith)
                requires
                    (2 * parts) * rest == 0x8000_0000,
                    rest >= 1,
            ;
            if k + 1 < 31 {
                assert(rest == 2 * bits::pow2((29 - k) as nat));
                bits::lemma_pow2_positive((29 - k) as nat);
                assert(2 * parts <= 0x4000_0000) by (nonlinear_arith)
                    requires
                        (2 * parts) * rest == 0x8000_0000,
                        rest >= 2,
                ;
            }
            assert(bits::pow2((k + 1) as nat) == 2 * bits::pow2(k as nat));
        }
        parts = 2 * parts;
        k += 1;
    }
    proof {
        lemma_ceil_div(cells as int, parts as int);
    }
    let each: u64 = (cells as u64 + (parts - 1)) / parts;
    let step: u64 = if each < 1 {
        1
    } else {
        each
    };
    let ghost all = starts(total as int, unit as int, log2 as int);
    let ghost count = tile_count(total as int, unit as int, log2 as int);
    let mut v: Vec<u32> = Vec::new();
    let mut at: u64 = 0;
    proof {
        assert(v@ =~= all.take(0));
        lemma_ceil_div(cells as int, step as int);
        assert(0 * step == 0) by (nonlinear_arith);
    }
    while at < cells as u64
        invariant
            cells == layout::ceil_div(total as int, unit as int),
            cells <= total,
            step == spacing(total as int, unit as int, log2 as int),
            1 <= step <= 0x1_0000_0000,
            1 <= total,
            unit == 1 || unit == 2,
            unit * (cells - 1) < total,
            count == tile_count(total as int, unit as int, log2 as int),
            step * count >= cells,
            step * (count - 1) < cells,
            v.len() <= count,
            at == v.len() * step,
            all == starts(total as int, unit as int, log2 as int),
            forall|i: int| 0 <= i < count ==> (#[trigger] all[i]) as int == i * spacing(
                total as int,
                unit as int,
                log2 as int,
            ) * unit,
            v@ == all.take(v.len() as int),
        decreases
                if at < cells {
                    cells - at
                } else {
                    0
                },
    {
        proof {
            let n = v@.len() as int;
            assert(n < count) by (nonlinear_arith)
                requires
                    n * step < cells,
                    step * (count - 1) < cells,
                    step * count >= cells,
                    n <= count,
                    step >= 1,
            ;
            assert(at * unit < total) by (nonlinear_arith)
                requires
                    at <= cells - 1,
                    unit * (cells - 1) < total,
                    unit > 0,
            ;
            assert(all.take(n + 1) =~= all.take(n).push(all[n]));
            assert((n + 1) * step == n * step + step) by (nonlinear_arith);
        }
        v.push((at * unit as u64) as u32);
        at = at + step;
    }
    proof {
        let n = v@.len() as int;
        assert(n == count) by (nonlinear_arith)
            requires
                n * step >= cells,
                step * (count - 1) < cells,
                n <= count,
                step >= 1,
        ;
        assert(all =~= all.take(n).push(total));
    }
    v.push(total);
    v
}

/// Whether a layout is the one its frame and its powers of two name.
pub open spec fn is_layout(l: TileLayout, sb128: bool) -> bool {
    &&& 1 <= l.mi_cols <= layout::MAX_MI
    &&& 1 <= l.mi_rows <= layout::MAX_MI
    &&& l.cols_log2 < 32
    &&& l.rows_log2 < 32
    &&& l.col_starts_sb@ == starts(
        layout::superblocks(l.mi_cols as int),
        unit_of(sb128),
        l.cols_log2 as int,
    )
    &&& l.row_starts_sb@ == starts(
        layout::superblocks(l.mi_rows as int),
        unit_of(sb128),
        l.rows_log2 as int,
    )
}

/// How many tile columns a layout has.
pub open spec fn cols_of(l: TileLayout) -> int {
    l.col_starts_sb@.len() - 1
}

/// How many tile rows it has.
pub open spec fn rows_of(l: TileLayout) -> int {
    l.row_starts_sb@.len() - 1
}

/// The lesser of two unit positions.
pub open spec fn clipped(a: int, b: int) -> int {
    if a <= b {
        a
    } else {
        b
    }
}

/// Tile `index` of a layout, row by row.
pub open spec fn rect_of(l: TileLayout, index: int) -> TileRect {
    let r = index / cols_of(l);
    let c = index % cols_of(l);
    TileRect {
        sb_col0: l.col_starts_sb@[c],
        sb_col1: l.col_starts_sb@[c + 1],
        sb_row0: l.row_starts_sb@[r],
        sb_row1: l.row_starts_sb@[r + 1],
        mi_col0: (l.col_starts_sb@[c] * 16) as u32,
        mi_col1: clipped(l.col_starts_sb@[c + 1] * 16, l.mi_cols as int) as u32,
        mi_row0: (l.row_starts_sb@[r] * 16) as u32,
        mi_row1: clipped(l.row_starts_sb@[r + 1] * 16, l.mi_rows as int) as u32,
    }
}

/// How many units a tile holds.
pub open spec fn area_of(t: TileRect) -> int {
    (t.mi_col1 - t.mi_col0) * (t.mi_row1 - t.mi_row0)
}

/// A frame's superblocks end no further out than its edge and the rest of the
/// last one.
pub proof fn lemma_superblocks(mi: int)
    requires
        1 <= mi,
    ensures
        1 <= layout::superblocks(mi),
        16 * (layout::superblocks(mi) - 1) < mi <= 16 * layout::superblocks(mi),
{
}

proof fn lemma_layout(l: TileLayout, sb128: bool)
    requires
        is_layout(l, sb128),
    ensures
        1 <= cols_of(l) <= layout::superblocks(l.mi_cols as int),
        1 <= rows_of(l) <= layout::superblocks(l.mi_rows as int),
        forall|i: int|
            0 <= i < l.col_starts_sb@.len() ==> #[trigger] l.col_starts_sb@[i]
                <= layout::superblocks(l.mi_cols as int),
        forall|i: int|
            0 <= i < l.row_starts_sb@.len() ==> #[trigger] l.row_starts_sb@[i]
                <= layout::superblocks(l.mi_rows as int),
        forall|i: int, j: int|
            0 <= i < j < l.col_starts_sb@.len() ==> l.col_starts_sb@[i] < l.col_starts_sb@[j],
        forall|i: int, j: int|
            0 <= i < j < l.row_starts_sb@.len() ==> l.row_starts_sb@[i] < l.row_starts_sb@[j],
        l.col_starts_sb@[0] == 0,
        l.row_starts_sb@[0] == 0,
        l.col_starts_sb@.last() == layout::superblocks(l.mi_cols as int),
        l.row_starts_sb@.last() == layout::superblocks(l.mi_rows as int),
{
    lemma_superblocks(l.mi_cols as int);
    lemma_superblocks(l.mi_rows as int);
    tiles_partition_the_axis(
        layout::superblocks(l.mi_cols as int),
        unit_of(sb128),
        l.cols_log2 as int,
    );
    tiles_partition_the_axis(
        layout::superblocks(l.mi_rows as int),
        unit_of(sb128),
        l.rows_log2 as int,
    );
    assert forall|i: int| 0 <= i < l.col_starts_sb@.len() implies #[trigger] l.col_starts_sb@[i]
        <= layout::superblocks(l.mi_cols as int) by {
        if i < l.col_starts_sb@.len() - 1 {
            assert(l.col_starts_sb@[i] < l.col_starts_sb@[l.col_starts_sb@.len() - 1]);
        }
    }
    assert forall|i: int| 0 <= i < l.row_starts_sb@.len() implies #[trigger] l.row_starts_sb@[i]
        <= layout::superblocks(l.mi_rows as int) by {
        if i < l.row_starts_sb@.len() - 1 {
            assert(l.row_starts_sb@[i] < l.row_starts_sb@[l.row_starts_sb@.len() - 1]);
        }
    }
}

/// No tile of a layout is empty, and none reaches past the frame.
pub proof fn tiles_lie_inside_the_frame(l: TileLayout, sb128: bool, index: int)
    requires
        is_layout(l, sb128),
        0 <= index < cols_of(l) * rows_of(l),
    ensures
        ({
            let t = rect_of(l, index);
            &&& t.sb_col0 < t.sb_col1 <= layout::superblocks(l.mi_cols as int)
            &&& t.sb_row0 < t.sb_row1 <= layout::superblocks(l.mi_rows as int)
            &&& t.mi_col0 == 16 * t.sb_col0
            &&& t.mi_row0 == 16 * t.sb_row0
            &&& t.mi_col0 < t.mi_col1 <= l.mi_cols
            &&& t.mi_row0 < t.mi_row1 <= l.mi_rows
        }),
{
    lemma_layout(l, sb128);
    lemma_superblocks(l.mi_cols as int);
    lemma_superblocks(l.mi_rows as int);
    let n = cols_of(l);
    let r = index / n;
    let c = index % n;
    vstd::arithmetic::div_mod::lemma_fundamental_div_mod(index, n);
    assert(0 <= r < rows_of(l)) by (nonlinear_arith)
        requires
            index == n * r + c,
            0 <= c < n,
            0 <= index < n * rows_of(l),
    ;
    assert(l.col_starts_sb@[c] < l.col_starts_sb@[c + 1]);
    assert(l.row_starts_sb@[r] < l.row_starts_sb@[r + 1]);
    assert(l.col_starts_sb@[c + 1] <= layout::superblocks(l.mi_cols as int));
    assert(l.row_starts_sb@[r + 1] <= layout::superblocks(l.mi_rows as int));
}

/// Each row and each column of tiles that a layout has was asked for: there is
/// one at least, and no more than the powers of two name.
pub proof fn tiles_are_no_more_than_asked_for(l: TileLayout, sb128: bool)
    requires
        is_layout(l, sb128),
    ensures
        1 <= cols_of(l) <= bits::pow2(l.cols_log2 as nat),
        1 <= rows_of(l) <= bits::pow2(l.rows_log2 as nat),
{
    lemma_superblocks(l.mi_cols as int);
    lemma_superblocks(l.mi_rows as int);
    tiles_partition_the_axis(
        layout::superblocks(l.mi_cols as int),
        unit_of(sb128),
        l.cols_log2 as int,
    );
    tiles_partition_the_axis(
        layout::superblocks(l.mi_rows as int),
        unit_of(sb128),
        l.rows_log2 as int,
    );
}

/// Whether a tile holds a unit.
pub open spec fn holds(t: TileRect, mi_r: int, mi_c: int) -> bool {
    t.mi_row0 <= mi_r < t.mi_row1 && t.mi_col0 <= mi_c < t.mi_col1
}

/// A position before the last start lies between two starts that follow each
/// other.
proof fn lemma_between(s: Seq<u32>, last: int, x: int) -> (i: int)
    requires
        0 < last < s.len(),
        16 * s[0] <= x < 16 * s[last],
    ensures
        0 <= i < last,
        16 * s[i] <= x < 16 * s[i + 1],
    decreases last,
{
    if 16 * s[last - 1] <= x {
        last - 1
    } else {
        lemma_between(s, last - 1, x)
    }
}

/// The units of a tile, by the starts of its row and its column.
proof fn lemma_held(l: TileLayout, sb128: bool, index: int, mi_r: int, mi_c: int)
    requires
        is_layout(l, sb128),
        0 <= index < cols_of(l) * rows_of(l),
        0 <= mi_r < l.mi_rows,
        0 <= mi_c < l.mi_cols,
    ensures
        ({
            let r = index / cols_of(l);
            let c = index % cols_of(l);
            &&& 0 <= r < rows_of(l)
            &&& 0 <= c < cols_of(l)
            &&& holds(rect_of(l, index), mi_r, mi_c) <==> (16 * l.row_starts_sb@[r] <= mi_r < 16
                * l.row_starts_sb@[r + 1] && 16 * l.col_starts_sb@[c] <= mi_c < 16
                * l.col_starts_sb@[c + 1])
        }),
{
    lemma_layout(l, sb128);
    lemma_superblocks(l.mi_cols as int);
    lemma_superblocks(l.mi_rows as int);
    tiles_lie_inside_the_frame(l, sb128, index);
    let n = cols_of(l);
    let r = index / n;
    let c = index % n;
    vstd::arithmetic::div_mod::lemma_fundamental_div_mod(index, n);
    assert(0 <= r < rows_of(l)) by (nonlinear_arith)
        requires
            index == n * r + c,
            0 <= c < n,
            0 <= index < n * rows_of(l),
    ;
    assert(l.col_starts_sb@[c + 1] <= layout::superblocks(l.mi_cols as int));
    assert(l.row_starts_sb@[r + 1] <= layout::superblocks(l.mi_rows as int));
}

/// The tiles of a layout partition the frame: every unit lies in one of them,
/// and in no other. A tile starts at a whole superblock, and tile `index` is
/// that of row `index / cols` and column `index % cols`.
pub proof fn tiles_partition_the_frame(l: TileLayout, sb128: bool, mi_r: int, mi_c: int)
    requires
        is_layout(l, sb128),
        0 <= mi_r < l.mi_rows,
        0 <= mi_c < l.mi_cols,
    ensures
        exists|index: int|
            0 <= index < cols_of(l) * rows_of(l) && holds(
                #[trigger] rect_of(l, index),
                mi_r,
                mi_c,
            ),
        forall|i: int, j: int|
            0 <= i < cols_of(l) * rows_of(l) && 0 <= j < cols_of(l) * rows_of(l) && holds(
                #[trigger] rect_of(l, i),
                mi_r,
                mi_c,
            ) && holds(#[trigger] rect_of(l, j), mi_r, mi_c) ==> i == j,
        forall|i: int|
            0 <= i < cols_of(l) * rows_of(l) ==> {
                let t = #[trigger] rect_of(l, i);
                &&& t.mi_row0 % 16 == 0
                &&& t.mi_col0 % 16 == 0
                &&& t.mi_row0 == 16 * l.row_starts_sb@[i / cols_of(l)]
                &&& t.mi_col0 == 16 * l.col_starts_sb@[i % cols_of(l)]
            },
{
    let total = cols_of(l) * rows_of(l);
    let index = lemma_some_tile(l, sb128, mi_r, mi_c);
    assert(holds(rect_of(l, index), mi_r, mi_c));
    assert forall|i: int, j: int|
        0 <= i < total && 0 <= j < total && holds(#[trigger] rect_of(l, i), mi_r, mi_c) && holds(
            #[trigger] rect_of(l, j),
            mi_r,
            mi_c,
        ) implies i == j by {
        lemma_no_two_tiles(l, sb128, mi_r, mi_c, i, j);
    }
    assert forall|i: int| 0 <= i < total implies {
        let t = #[trigger] rect_of(l, i);
        &&& t.mi_row0 % 16 == 0
        &&& t.mi_col0 % 16 == 0
        &&& t.mi_row0 == 16 * l.row_starts_sb@[i / cols_of(l)]
        &&& t.mi_col0 == 16 * l.col_starts_sb@[i % cols_of(l)]
    } by {
        tiles_lie_inside_the_frame(l, sb128, i);
    }
}

proof fn lemma_some_tile(l: TileLayout, sb128: bool, mi_r: int, mi_c: int) -> (index: int)
    requires
        is_layout(l, sb128),
        0 <= mi_r < l.mi_rows,
        0 <= mi_c < l.mi_cols,
    ensures
        0 <= index < cols_of(l) * rows_of(l),
        holds(rect_of(l, index), mi_r, mi_c),
{
    lemma_layout(l, sb128);
    lemma_superblocks(l.mi_cols as int);
    lemma_superblocks(l.mi_rows as int);
    let n = cols_of(l);
    let m = rows_of(l);
    let r = lemma_between(l.row_starts_sb@, m, mi_r);
    let c = lemma_between(l.col_starts_sb@, n, mi_c);
    let index = r * n + c;
    assert(0 <= index < n * m) by (nonlinear_arith)
        requires
            index == r * n + c,
            0 <= r < m,
            0 <= c < n,
    ;
    vstd::arithmetic::div_mod::lemma_fundamental_div_mod_converse(index, n, r, c);
    lemma_held(l, sb128, index, mi_r, mi_c);
    index
}

proof fn lemma_no_two_tiles(l: TileLayout, sb128: bool, mi_r: int, mi_c: int, i: int, j: int)
    requires
        is_layout(l, sb128),
        0 <= mi_r < l.mi_rows,
        0 <= mi_c < l.mi_cols,
        0 <= i < cols_of(l) * rows_of(l),
        0 <= j < cols_of(l) * rows_of(l),
        holds(rect_of(l, i), mi_r, mi_c),
        holds(rect_of(l, j), mi_r, mi_c),
    ensures
        i == j,
{
    let n = cols_of(l);
    lemma_held(l, sb128, i, mi_r, mi_c);
    lemma_held(l, sb128, j, mi_r, mi_c);
    lemma_layout(l, sb128);
    lemma_one_place(l.row_starts_sb@, mi_r, i / n, j / n);
    lemma_one_place(l.col_starts_sb@, mi_c, i % n, j % n);
    vstd::arithmetic::div_mod::lemma_fundamental_div_mod(i, n);
    vstd::arithmetic::div_mod::lemma_fundamental_div_mod(j, n);
}

/// Increasing starts leave a position one place.
proof fn lemma_one_place(s: Seq<u32>, x: int, i: int, j: int)
    requires
        forall|a: int, b: int| 0 <= a < b < s.len() ==> s[a] < s[b],
        0 <= i < s.len() - 1,
        0 <= j < s.len() - 1,
        16 * s[i] <= x < 16 * s[i + 1],
        16 * s[j] <= x < 16 * s[j + 1],
    ensures
        i == j,
{
    if i < j {
        assert(i + 1 == j || s[i + 1] < s[j]);
    } else if j < i {
        assert(j + 1 == i || s[j + 1] < s[i]);
    }
}

impl TileLayout {
    /// The layout that two powers of two name for a frame. A tile starts at a
    /// superblock, so with 128x128 superblocks at every second cell.
    pub fn new(
        mi_cols: u32,
        mi_rows: u32,
        cols_log2: u32,
        rows_log2: u32,
        sb128: bool,
    ) -> (l: TileLayout)
        requires
            1 <= mi_cols <= layout::MAX_MI,
            1 <= mi_rows <= layout::MAX_MI,
            cols_log2 < 32,
            rows_log2 < 32,
        ensures
            is_layout(l, sb128),
            l.mi_cols == mi_cols,
            l.mi_rows == mi_rows,
            l.cols_log2 == cols_log2,
            l.rows_log2 == rows_log2,
    {
        let (sb_cols, sb_rows): (u32, u32) = superblock_grid(mi_cols, mi_rows);
        proof {
            lemma_superblocks(mi_cols as int);
            lemma_superblocks(mi_rows as int);
        }
        let unit: u32 = if sb128 {
            2
        } else {
            1
        };
        TileLayout {
            cols_log2,
            rows_log2,
            col_starts_sb: axis_starts(sb_cols, unit, cols_log2),
            row_starts_sb: axis_starts(sb_rows, unit, rows_log2),
            mi_cols,
            mi_rows,
        }
    }

    /// How many tile columns there are.
    pub fn cols(&self) -> (n: u32)
        requires
            exists|sb128: bool| is_layout(*self, sb128),
        ensures
            n == cols_of(*self),
            n >= 1,
    {
        proof {
            let sb128 = choose|sb128: bool| is_layout(*self, sb128);
            lemma_layout(*self, sb128);
            lemma_superblocks(self.mi_cols as int);
        }
        (self.col_starts_sb.len() - 1) as u32
    }

    /// How many tile rows there are.
    pub fn rows(&self) -> (n: u32)
        requires
            exists|sb128: bool| is_layout(*self, sb128),
        ensures
            n == rows_of(*self),
            n >= 1,
    {
        proof {
            let sb128 = choose|sb128: bool| is_layout(*self, sb128);
            lemma_layout(*self, sb128);
            lemma_superblocks(self.mi_rows as int);
        }
        (self.row_starts_sb.len() - 1) as u32
    }

    /// How many tiles there are.
    pub fn count(&self) -> (n: usize)
        requires
            exists|sb128: bool| is_layout(*self, sb128),
            cols_of(*self) * rows_of(*self) <= u32::MAX,
        ensures
            n == cols_of(*self) * rows_of(*self),
    {
        (self.cols() * self.rows()) as usize
    }

    fn mi_starts(sb: &Vec<u32>, mi: u32) -> (v: Vec<u32>)
        requires
            sb.len() >= 1,
            forall|i: int| 0 <= i < sb.len() ==> #[trigger] sb@[i] <= 0xfff_ffff,
        ensures
            v@ == Seq::new(
                sb@.len(),
                |i: int|
                    if i < sb@.len() - 1 {
                        (sb@[i] * 16) as u32
                    } else {
                        mi
                    },
            ),
    {
        let mut v: Vec<u32> = Vec::new();
        while v.len() < sb.len() - 1
            invariant
                v.len() <= sb.len() - 1,
                sb.len() >= 1,
                forall|i: int| 0 <= i < sb.len() ==> #[trigger] sb@[i] <= 0xfff_ffff,
                forall|i: int| 0 <= i < v.len() ==> #[trigger] v@[i] == sb@[i] * 16,
            decreases sb.len() - v.len(),
        {
            assert(sb@[v.len() as int] <= 0xfff_ffff);
            v.push(sb[v.len()] * 16);
        }
        v.push(mi);
        proof {
            assert(v@ =~= Seq::new(
                sb@.len(),
                |i: int|
                    if i < sb@.len() - 1 {
                        (sb@[i] * 16) as u32
                    } else {
                        mi
                    },
            ));
        }
        v
    }

    /// Where each tile column starts, in units, and where the frame ends.
    pub fn mi_col_starts(&self) -> (v: Vec<u32>)
        requires
            exists|sb128: bool| is_layout(*self, sb128),
        ensures
            v@ == Seq::new(
                self.col_starts_sb@.len(),
                |i: int|
                    if i < cols_of(*self) {
                        (self.col_starts_sb@[i] * 16) as u32
                    } else {
                        self.mi_cols
                    },
            ),
    {
        proof {
            let sb128 = choose|sb128: bool| is_layout(*self, sb128);
            lemma_layout(*self, sb128);
            lemma_superblocks(self.mi_cols as int);
        }
        TileLayout::mi_starts(&self.col_starts_sb, self.mi_cols)
    }

    /// Where each tile row starts, in units, and where the frame ends.
    pub fn mi_row_starts(&self) -> (v: Vec<u32>)
        requires
            exists|sb128: bool| is_layout(*self, sb128),
        ensures
            v@ == Seq::new(
                self.row_starts_sb@.len(),
                |i: int|
                    if i < rows_of(*self) {
                        (self.row_starts_sb@[i] * 16) as u32
                    } else {
                        self.mi_rows
                    },
            ),
    {
        proof {
            let sb128 = choose|sb128: bool| is_layout(*self, sb128);
            lemma_layout(*self, sb128);
            lemma_superblocks(self.mi_rows as int);
        }
        TileLayout::mi_starts(&self.row_starts_sb, self.mi_rows)
    }

    /// Tile `index`, row by row.
    pub fn rect(&self, index: usize) -> (t: TileRect)
        requires
            exists|sb128: bool| is_layout(*self, sb128),
            index < cols_of(*self) * rows_of(*self),
        ensures
            t == rect_of(*self, index as int),
    {
        let n: usize = self.cols() as usize;
        proof {
            let sb128 = choose|sb128: bool| is_layout(*self, sb128);
            tiles_lie_inside_the_frame(*self, sb128, index as int);
            vstd::arithmetic::div_mod::lemma_fundamental_div_mod(index as int, n as int);
            let q = (index as int) / (n as int);
            let left = (index as int) % (n as int);
            assert(q < rows_of(*self)) by (nonlinear_arith)
                requires
                    index == n * q + left,
                    0 <= left,
                    index < n * rows_of(*self),
                    n > 0,
            ;
            lemma_superblocks(self.mi_cols as int);
            lemma_superblocks(self.mi_rows as int);
            lemma_layout(*self, sb128);
        }
        let r: usize = index / n;
        let c: usize = index % n;
        let sb_col0: u32 = self.col_starts_sb[c];
        let sb_col1: u32 = self.col_starts_sb[c + 1];
        let sb_row0: u32 = self.row_starts_sb[r];
        let sb_row1: u32 = self.row_starts_sb[r + 1];
        TileRect {
            sb_col0,
            sb_col1,
            sb_row0,
            sb_row1,
            mi_col0: sb_col0 * 16,
            mi_col1: if sb_col1 * 16 <= self.mi_cols {
                sb_col1 * 16
            } else {
                self.mi_cols
            },
            mi_row0: sb_row0 * 16,
            mi_row1: if sb_row1 * 16 <= self.mi_rows {
                sb_row1 * 16
            } else {
                self.mi_rows
            },
        }
    }

    /// The largest tile by its units, the last of several: the one whose
    /// tables a frame stores.
    pub fn largest_tile(&self) -> (best: usize)
        requires
            exists|sb128: bool| is_layout(*self, sb128),
            cols_of(*self) * rows_of(*self) <= u32::MAX,
        ensures
            best < cols_of(*self) * rows_of(*self),
            forall|j: int|
                0 <= j < cols_of(*self) * rows_of(*self) ==> area_of(#[trigger] rect_of(*self, j))
                    <= area_of(rect_of(*self, best as int)),
            forall|j: int|
                best < j < cols_of(*self) * rows_of(*self) ==> area_of(
                    #[trigger] rect_of(*self, j),
                ) < area_of(rect_of(*self, best as int)),
    {
        let n: usize = self.count();
        let ghost total = cols_of(*self) * rows_of(*self);
        proof {
            let sb128 = choose|sb128: bool| is_layout(*self, sb128);
            lemma_layout(*self, sb128);
            assert(total >= 1) by (nonlinear_arith)
                requires
                    total == cols_of(*self) * rows_of(*self),
                    cols_of(*self) >= 1,
                    rows_of(*self) >= 1,
            ;
        }
        let mut best: usize = 0;
        let mut most: u64 = self.area(0);
        let mut i: usize = 1;
        while i < n
            invariant
                exists|sb128: bool| is_layout(*self, sb128),
                total == cols_of(*self) * rows_of(*self),
                n == total,
                1 <= i <= n,
                best < i,
                most == area_of(rect_of(*self, best as int)),
                forall|j: int|
                    0 <= j < i ==> area_of(#[trigger] rect_of(*self, j)) <= most,
                forall|j: int|
                    best < j < i ==> area_of(#[trigger] rect_of(*self, j)) < most,
            decreases n - i,
        {
            let a: u64 = self.area(i);
            if a >= most {
                most = a;
                best = i;
            }
            i += 1;
        }
        best
    }

    fn area(&self, index: usize) -> (a: u64)
        requires
            exists|sb128: bool| is_layout(*self, sb128),
            index < cols_of(*self) * rows_of(*self),
        ensures
            a == area_of(rect_of(*self, index as int)),
    {
        let t: TileRect = self.rect(index);
        proof {
            let sb128 = choose|sb128: bool| is_layout(*self, sb128);
            tiles_lie_inside_the_frame(*self, sb128, index as int);
            assert(0 <= (t.mi_col1 - t.mi_col0) * (t.mi_row1 - t.mi_row0) <= 0xffff_ffff
                * 0xffff_ffff) by (nonlinear_arith)
                requires
                    0 <= t.mi_col1 - t.mi_col0 <= 0xffff_ffff,
                    0 <= t.mi_row1 - t.mi_row0 <= 0xffff_ffff,
            ;
        }
        (t.mi_col1 - t.mi_col0) as u64 * (t.mi_row1 - t.mi_row0) as u64
    }
}

/// Tiles are numbered row by row: the next one starts, in the same rows, where this one ends,
/// or at the first column in the rows below.
pub proof fn tiles_are_numbered_row_by_row(l: TileLayout, index: int)
    requires
        0 <= index,
        cols_of(l) > 0,
    ensures
        ({
            let (here, next) = (rect_of(l, index), rect_of(l, index + 1));
            &&& (index + 1) % cols_of(l) != 0 ==> next.sb_col0 == here.sb_col1 && next.sb_row0
                == here.sb_row0 && next.sb_row1 == here.sb_row1
            &&& (index + 1) % cols_of(l) == 0 ==> next.sb_row0 == here.sb_row1 && next.sb_col0
                == l.col_starts_sb@[0]
            &&& index == 0 ==> here.sb_col0 == l.col_starts_sb@[0] && here.sb_row0
                == l.row_starts_sb@[0]
        }),
{
    let n = cols_of(l);
    let (q, m) = (index / n, index % n);
    vstd::arithmetic::div_mod::lemma_fundamental_div_mod(index, n);
    vstd::arithmetic::div_mod::lemma_mod_bound(index, n);
    assert(n * q == q * n) by (nonlinear_arith);
    if m + 1 < n {
        vstd::arithmetic::div_mod::lemma_fundamental_div_mod_converse(index + 1, n, q, m + 1);
    } else {
        assert((q + 1) * n == q * n + n) by (nonlinear_arith);
        vstd::arithmetic::div_mod::lemma_fundamental_div_mod_converse(index + 1, n, q + 1, 0);
    }
    if index == 0 {
        vstd::arithmetic::div_mod::lemma_fundamental_div_mod_converse(0, n, 0, 0);
    }
}

/// The tiles along an axis are equally long but for the last, which is no longer.
pub proof fn tiles_are_equally_long(total: int, unit: int, log2: int, i: int)
    requires
        0 < total <= 0xffff_ffff,
        unit == 1 || unit == 2,
        0 <= log2 < 32,
        0 <= i,
        i + 1 < tile_count(total, unit, log2),
        tile_count(total, unit, log2) * spacing(total, unit, log2) * unit <= 0xffff_ffff,
    ensures
        starts(total, unit, log2)[i + 1] - starts(total, unit, log2)[i] == spacing(
            total,
            unit,
            log2,
        ) * unit,
        starts(total, unit, log2)[0] == 0,
{
    let (each, n) = (spacing(total, unit, log2), tile_count(total, unit, log2));
    assert(0 <= i * each * unit <= n * each * unit) by (nonlinear_arith)
        requires
            0 <= i <= n,
            each >= 1,
            unit >= 1,
    ;
    assert(0 <= (i + 1) * each * unit <= n * each * unit) by (nonlinear_arith)
        requires
            0 <= i + 1 <= n,
            each >= 1,
            unit >= 1,
    ;
    assert((i + 1) * each * unit == i * each * unit + each * unit) by (nonlinear_arith);
    assert(0 * each * unit == 0) by (nonlinear_arith);
}

} // verus!
