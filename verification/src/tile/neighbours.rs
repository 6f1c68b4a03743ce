//! What the blocks above and to the left of the one being coded left behind.
use crate::tile::context;
use crate::tile::levels;
use crate::tile::ops;
use crate::tile::ops::bit;
use vstd::prelude::*;

verus! {

/// The DC intra mode, of luma and chroma alike.
pub const DC_PRED: usize = 0;

/// How many intra modes a luma block chooses from.
pub const INTRA_MODES: usize = 13;

/// The side a unit without a coded neighbour reads as: no finer than any
/// block that asks.
pub const NO_NEIGHBOUR_SIDE: usize = 128;

/// What the transform bands start from: the widest transform.
pub const TXFM_CTX_INIT: u8 = 64;

/// The name of the last reference.
pub const ALTREF_FRAME: i8 = 7;

/// No base colours.
pub const NO_COLORS: [u16; 8] = [0, 0, 0, 0, 0, 0, 0, 0];

/// The context of a luma all-zero flag, by the magnitude tiers above and left.
pub const SKIP_CONTEXTS: [[usize; 5]; 5] = [
    [1, 2, 2, 2, 3],
    [2, 4, 4, 4, 5],
    [2, 4, 4, 4, 5],
    [2, 4, 4, 4, 5],
    [3, 5, 5, 5, 6],
];

/// What one transform block leaves behind for those that read it as a
/// neighbour.
#[derive(Clone, Copy, Debug, PartialEq, Eq)]
pub struct Neighbour {
    /// Whether it carried a coefficient.
    pub coded: bool,
    /// The sum of its magnitudes, up to seven.
    pub level: u8,
    /// Whether its DC is negative, where it has one.
    pub dc: Option<bool>,
}

/// What the blocks left behind in one 4x4 unit of the row above or the column
/// to the left.
#[derive(Clone, Copy, Debug, PartialEq, Eq)]
pub struct Cell {
    /// The luma transform block.
    pub y: Neighbour,
    /// The U transform block.
    pub u: Neighbour,
    /// The V transform block.
    pub v: Neighbour,
    /// The block's side in samples.
    pub side: usize,
    /// Whether it carried no residual.
    pub skip: bool,
    /// Whether it was predicted from another frame.
    pub inter: bool,
    /// The reference it named, -1 for an intra block.
    pub ref0: i8,
    /// Its second reference.
    pub ref1: Option<i8>,
    /// How its two predictions are grouped.
    pub comp_group_idx: u8,
    /// How they are weighed.
    pub compound_idx: u8,
    /// The side of the transform last written here.
    pub tx: u8,
    /// The same as an inter frame's transform syntax sees it.
    pub txfm: u8,
    /// The size of the luma palette, zero for none.
    pub palette_size: u8,
    /// Its colours.
    pub palette_colors: [u16; 8],
    /// The size of the chroma palette.
    pub palette_uv_size: u8,
    /// Its U colours.
    pub palette_uv_colors: [u16; 8],
}

/// What a block with a palette is about to leave behind: its size and colours.
pub type Pending = Option<(u8, [u16; 8])>;

/// The bands of a tile, as sequences.
#[verifier::ext_equal]
pub struct Bands {
    /// The row above, one cell per 4x4 unit.
    pub above: Seq<Cell>,
    /// The column to the left.
    pub left: Seq<Cell>,
    /// The luma modes above, one per 16x16 block.
    pub above_mode: Seq<usize>,
    /// The luma modes to the left.
    pub left_mode: Seq<usize>,
    /// The luma palette of the block being written.
    pub pending: Pending,
    /// Its chroma palette.
    pub pending_uv: Pending,
    /// The tile's first unit row.
    pub row0: int,
    /// The tile's first unit column.
    pub col0: int,
    /// The frame's width in units.
    pub mi_cols: int,
    /// The frame's height in units.
    pub mi_rows: int,
}

/// The same, as it is kept.
pub struct Neighbours {
    /// The row above, one cell per 4x4 unit.
    pub above: Vec<Cell>,
    /// The column to the left.
    pub left: Vec<Cell>,
    /// The luma modes above, one per 16x16 block.
    pub above_mode: Vec<usize>,
    /// The luma modes to the left.
    pub left_mode: Vec<usize>,
    /// The luma palette of the block being written.
    pub pending_palette: Pending,
    /// Its chroma palette.
    pub pending_palette_uv: Pending,
    /// The tile's first unit row.
    pub tile_row0_mi: usize,
    /// The tile's first unit column.
    pub tile_col0_mi: usize,
    /// The frame's width in units.
    pub mi_cols: usize,
    /// The frame's height in units.
    pub mi_rows: usize,
}

impl View for Neighbours {
    type V = Bands;

    open spec fn view(&self) -> Bands {
        Bands {
            above: self.above@,
            left: self.left@,
            above_mode: self.above_mode@,
            left_mode: self.left_mode@,
            pending: self.pending_palette,
            pending_uv: self.pending_palette_uv,
            row0: self.tile_row0_mi as int,
            col0: self.tile_col0_mi as int,
            mi_cols: self.mi_cols as int,
            mi_rows: self.mi_rows as int,
        }
    }
}

/// A transform block that carried nothing.
pub open spec fn blank() -> Neighbour {
    Neighbour { coded: false, level: 0, dc: None }
}

/// A unit no block was coded in.
pub open spec fn blank_cell() -> Cell {
    Cell {
        y: blank(),
        u: blank(),
        v: blank(),
        side: NO_NEIGHBOUR_SIDE,
        skip: false,
        inter: false,
        ref0: (-1) as i8,
        ref1: None,
        comp_group_idx: 0,
        compound_idx: 0,
        tx: 0,
        txfm: TXFM_CTX_INIT,
        palette_size: 0,
        palette_colors: NO_COLORS,
        palette_uv_size: 0,
        palette_uv_colors: NO_COLORS,
    }
}

/// What a unit of the left column holds at the start of a superblock row.
/// Only the luma colours stay, which a palette of no size hides.
pub open spec fn cleared(c: Cell) -> Cell {
    Cell { palette_colors: c.palette_colors, ..blank_cell() }
}

/// A unit whose numbers are within the bounds that every writer keeps.
pub open spec fn is_cell(c: Cell) -> bool {
    &&& c.side <= NO_NEIGHBOUR_SIDE
    &&& c.palette_size <= 8
    &&& c.palette_uv_size <= 8
}

/// Whether a palette to be left behind has a size that a palette can have.
pub open spec fn is_pending(p: Pending) -> bool {
    p matches Some(x) ==> x.0 <= 8
}

/// The invariant of the bands: modes are modes, sizes are sizes, and the units
/// come in whole 16x16 blocks that reach the edge of the frame.
pub open spec fn is_bands(b: Bands) -> bool {
    &&& b.above.len() == 4 * b.above_mode.len()
    &&& b.left.len() == 4 * b.left_mode.len()
    &&& b.above.len() <= 0xffff_ffff
    &&& b.left.len() <= 0xffff_ffff
    &&& 0 <= b.mi_cols <= usize::MAX
    &&& 0 <= b.mi_rows <= usize::MAX
    &&& 0 <= b.row0
    &&& 0 <= b.col0
    &&& is_pending(b.pending)
    &&& is_pending(b.pending_uv)
    &&& forall|i: int| 0 <= i < b.above.len() ==> is_cell(#[trigger] b.above[i])
    &&& forall|i: int| 0 <= i < b.left.len() ==> is_cell(#[trigger] b.left[i])
    &&& forall|i: int| 0 <= i < b.above_mode.len() ==> #[trigger] b.above_mode[i] < INTRA_MODES
    &&& forall|i: int| 0 <= i < b.left_mode.len() ==> #[trigger] b.left_mode[i] < INTRA_MODES
}

/// Whether a block of `count` units at a unit lies inside the bands.
pub open spec fn is_at(b: Bands, mi_r: int, mi_c: int, count: int) -> bool {
    &&& 0 <= mi_r
    &&& 0 <= mi_c
    &&& mi_r + count <= b.left.len()
    &&& mi_c + count <= b.above.len()
}

/// What a block's three planes leave behind.
#[derive(Clone, Copy, Debug, PartialEq, Eq)]
pub struct PlaneStates {
    /// Luma.
    pub y: Neighbour,
    /// U.
    pub u: Neighbour,
    /// V.
    pub v: Neighbour,
}

/// Something a block leaves in the units of a band.
#[derive(Clone, Copy, Debug, PartialEq, Eq)]
pub enum Change {
    /// Its luma palette, of size zero for none.
    Palette(u8, [u16; 8]),
    /// Its chroma palette.
    PaletteUv(u8, [u16; 8]),
    /// Its side and its coefficients, in a band that the frame bounds at
    /// `edge`; not luma's where they were left unit by unit.
    Planes {
        /// Where the frame ends.
        edge: usize,
        /// The block's side in samples.
        side: usize,
        /// What its planes leave.
        states: PlaneStates,
        /// Whether luma is among them.
        luma: bool,
    },
    /// The coefficients of one luma transform unit, up to `edge`.
    Luma {
        /// Where the frame ends.
        edge: usize,
        /// What the unit leaves.
        state: Neighbour,
    },
    /// The side of its transform.
    Tx(u8),
    /// The same, as an inter frame's transform syntax sees it.
    Txfm(u8),
    /// Its skip flag.
    Skip(bool),
    /// An inter frame's block of at most one reference.
    Inter {
        /// Its skip flag.
        skip: bool,
        /// Whether it is predicted from another frame.
        inter: bool,
        /// The reference it names.
        ref_frame: i8,
    },
    /// Its second reference, and how the two are grouped and weighed.
    Compound {
        /// The reference.
        ref1: i8,
        /// The group.
        comp_group_idx: u8,
        /// The weights.
        compound_idx: u8,
    },
}

/// The next even number.
pub open spec fn even(n: int) -> int {
    (n + 1) / 2 * 2
}

/// What the unit at `i` of a band holds after a block left something in it. A
/// unit past the edge of the frame holds no coefficients, but a chroma unit
/// across it is whole.
pub open spec fn applied(change: Change, i: int, c: Cell) -> Cell {
    match change {
        Change::Palette(size, colors) => Cell {
            palette_size: size,
            palette_colors: if size > 0 {
                colors
            } else {
                c.palette_colors
            },
            ..c
        },
        Change::PaletteUv(size, colors) => Cell {
            palette_uv_size: size,
            palette_uv_colors: if size > 0 {
                colors
            } else {
                c.palette_uv_colors
            },
            ..c
        },
        Change::Planes { edge, side, states, luma } => Cell {
            side,
            y: if !luma {
                c.y
            } else if i < edge {
                states.y
            } else {
                blank()
            },
            u: if i < even(edge as int) {
                states.u
            } else {
                blank()
            },
            v: if i < even(edge as int) {
                states.v
            } else {
                blank()
            },
            ..c
        },
        Change::Luma { edge, state } => if i < edge {
            Cell { y: state, ..c }
        } else {
            c
        },
        Change::Tx(tx) => Cell { tx, ..c },
        Change::Txfm(tx) => Cell { txfm: tx, ..c },
        Change::Skip(skip) => Cell { skip, ..c },
        Change::Inter { skip, inter, ref_frame } => {
            let altref = inter && ref_frame == ALTREF_FRAME;
            Cell {
                skip,
                inter,
                ref0: ref_frame,
                ref1: None,
                comp_group_idx: if altref {
                    3
                } else {
                    0
                },
                compound_idx: if altref {
                    1
                } else {
                    0
                },
                ..c
            }
        },
        Change::Compound { ref1, comp_group_idx, compound_idx } => Cell {
            ref1: Some(ref1),
            comp_group_idx,
            compound_idx,
            ..c
        },
    }
}

/// Whether what a block leaves keeps the bounds of a unit.
pub open spec fn is_change(change: Change) -> bool {
    match change {
        Change::Palette(size, _) | Change::PaletteUv(size, _) => size <= 8,
        Change::Planes { side, .. } => side <= NO_NEIGHBOUR_SIDE,
        _ => true,
    }
}

/// A band after a block left something in the units `lo..lo + count`, as far
/// as it reaches.
pub open spec fn changed(band: Seq<Cell>, lo: int, count: int, change: Change) -> Seq<Cell> {
    Seq::new(
        band.len(),
        |i: int|
            if lo <= i < lo + count {
                applied(change, i, band[i])
            } else {
                band[i]
            },
    )
}

/// The modes with the blocks `lo..lo + count` set.
pub open spec fn moded(modes: Seq<usize>, lo: int, count: int, mode: usize) -> Seq<usize> {
    Seq::new(
        modes.len(),
        |i: int|
            if lo <= i < lo + count {
                mode
            } else {
                modes[i]
            },
    )
}

/// The sum of the first `count` magnitudes of a block.
pub open spec fn level_sum(grid: Seq<i32>, count: int) -> int
    decreases count,
{
    if count <= 0 {
        0
    } else {
        level_sum(grid, count - 1) + context::abs(grid[count - 1] as int)
    }
}

/// What a transform block leaves behind.
pub open spec fn state_of(grid: Seq<i32>) -> Neighbour {
    Neighbour {
        coded: exists|p: int| 0 <= p < grid.len() && grid[p] != 0,
        level: context::min(level_sum(grid, grid.len() as int), 7) as u8,
        dc: if grid[0] != 0 {
            Some(grid[0] < 0)
        } else {
            None
        },
    }
}

/// Whether a block's levels are all codable or zero.
pub open spec fn is_levels(grid: Seq<i32>) -> bool {
    &&& 1 <= grid.len() <= 4096
    &&& forall|p: int|
        0 <= p < grid.len() ==> #[trigger] grid[p] == 0 || levels::is_codable(grid[p] as int)
}

/// What a coded transform block leaves behind for the blocks that read it as
/// a neighbour.
pub fn neighbour_state(grid: &[i32]) -> (state: Neighbour)
    requires
        is_levels(grid@),
    ensures
        state == state_of(grid@),
{
    let mut coded: bool = false;
    let mut sum: u64 = 0;
    let mut i: usize = 0;
    while i < grid.len()
        invariant
            i <= grid.len() <= 4096,
            is_levels(grid@),
            coded <==> exists|p: int| 0 <= p < i && grid@[p] != 0,
            sum == level_sum(grid@, i as int),
            sum <= i * 524302,
        decreases grid.len() - i,
    {
        let level: i32 = grid[i];
        assert(level == 0 || levels::is_codable(level as int));
        if level != 0 {
            coded = true;
        }
        let m: i32 = if level < 0 {
            -level
        } else {
            level
        };
        sum = sum + m as u64;
        i += 1;
    }
    Neighbour {
        coded,
        level: if sum <= 7 {
            sum as u8
        } else {
            7
        },
        dc: if grid[0] != 0 {
            Some(grid[0] < 0)
        } else {
            None
        },
    }
}

/// The plane of a unit.
pub open spec fn plane_of(c: Cell, plane: int) -> Neighbour {
    if plane == 0 {
        c.y
    } else if plane == 1 {
        c.u
    } else {
        c.v
    }
}

/// One unit's vote on the sign of a DC: plus one for a positive DC, minus one
/// for a negative one.
pub open spec fn spec_dc_vote(dc: Option<bool>) -> int {
    match dc {
        None => 0,
        Some(true) => -1,
        Some(false) => 1,
    }
}

/// One unit's vote on the sign of a DC.
pub fn dc_vote(dc: Option<bool>) -> (vote: i32)
    ensures
        vote == spec_dc_vote(dc),
{
    match dc {
        None => 0,
        Some(true) => -1,
        Some(false) => 1,
    }
}

/// Which of the three DC sign contexts a gathered vote picks.
pub open spec fn spec_dc_sign_ctx(vote: int) -> int {
    if vote == 0 {
        0
    } else if vote < 0 {
        1
    } else {
        2
    }
}

/// Which of the three DC sign contexts a gathered vote picks.
pub fn dc_sign_ctx(vote: i32) -> (ctx: usize)
    ensures
        ctx == spec_dc_sign_ctx(vote as int),
{
    if vote == 0 {
        0
    } else if vote < 0 {
        1
    } else {
        2
    }
}

/// Whether one of `count` units from `lo` on carried a coefficient.
pub open spec fn any_coded(band: Seq<Cell>, lo: int, count: int, plane: int) -> bool {
    exists|i: int| lo <= i < lo + count && (#[trigger] plane_of(band[i], plane)).coded
}

/// The votes of `count` units from `lo` on.
pub open spec fn votes(band: Seq<Cell>, lo: int, count: int, plane: int) -> int
    decreases count,
{
    if count <= 0 {
        0
    } else {
        votes(band, lo, count - 1, plane) + spec_dc_vote(
            plane_of(band[lo + count - 1], plane).dc,
        )
    }
}

/// The magnitudes of `count` luma units from `lo` on, or-ed together.
pub open spec fn tiers(band: Seq<Cell>, lo: int, count: int) -> u8
    decreases count,
{
    if count <= 0 {
        0
    } else {
        tiers(band, lo, count - 1) | band[lo + count - 1].y.level
    }
}

/// What one plane's neighbours leave for a block, gathered across every unit
/// the block spans.
#[derive(Clone, Copy, Debug, PartialEq, Eq)]
pub struct Around {
    /// Whether any transform block above carried a coefficient.
    pub above_coded: bool,
    /// The same, to the left.
    pub left_coded: bool,
    /// The votes of the neighbours' DC signs.
    pub dc_vote: i32,
}

/// The neighbours of one plane of a block of `count` units.
pub open spec fn around_of(b: Bands, mi_r: int, mi_c: int, count: int, plane: int) -> Around {
    Around {
        above_coded: any_coded(b.above, mi_c, count, plane),
        left_coded: any_coded(b.left, mi_r, count, plane),
        dc_vote: (votes(b.above, mi_c, count, plane) + votes(b.left, mi_r, count, plane)) as i32,
    }
}

/// The context of a block's partition: whether the blocks to its left and
/// above it were split finer than it is.
pub open spec fn spec_partition_ctx(b: Bands, mi_r: int, mi_c: int, side: int) -> int {
    2 * ops::flag(b.left[mi_r].side * 2 <= side) + ops::flag(b.above[mi_c].side * 2 <= side)
}

/// The context of a block's skip flag.
pub open spec fn spec_skip_ctx(b: Bands, mi_r: int, mi_c: int) -> int {
    ops::flag(b.above[mi_c].skip) + ops::flag(b.left[mi_r].skip)
}

/// The context of a key frame's transform depth: whether the transforms above
/// and to the left are at least as large as the block's largest.
pub open spec fn spec_tx_size_ctx(b: Bands, mi_r: int, mi_c: int, max_tx: int) -> int {
    ops::flag(mi_r > b.row0 && b.above[mi_c].tx >= max_tx) + ops::flag(
        mi_c > b.col0 && b.left[mi_r].tx >= max_tx,
    )
}

/// The size an inter frame's transform depth compares a neighbour by: the
/// block of an inter one, the transform of any other.
pub open spec fn txfm_side(c: Cell) -> int {
    if c.inter {
        c.side as int
    } else {
        c.txfm as int
    }
}

/// The context of an inter frame's transform depth.
pub open spec fn spec_tx_size_ctx_txfm(b: Bands, mi_r: int, mi_c: int, side: int) -> int {
    ops::flag(mi_r > b.row0 && txfm_side(b.above[mi_c]) >= side) + ops::flag(
        mi_c > b.col0 && txfm_side(b.left[mi_r]) >= side,
    )
}

/// The context of a luma all-zero flag of a transform unit smaller than its
/// block.
pub open spec fn spec_luma_skip_ctx(b: Bands, mi_r: int, mi_c: int, count: int) -> int {
    SKIP_CONTEXTS[context::min(tiers(b.above, mi_c, count) as int, 4)][context::min(
        tiers(b.left, mi_r, count) as int,
        4,
    )] as int
}

/// Both bands after a block of `count` units left something in them.
pub open spec fn both_changed(
    b: Bands,
    mi_r: int,
    mi_c: int,
    count: int,
    change: Change,
) -> Bands {
    Bands {
        above: changed(b.above, mi_c, count, change),
        left: changed(b.left, mi_r, count, change),
        ..b
    }
}

/// What a palette to be left behind leaves in luma.
pub open spec fn palette_change(p: Pending) -> Change {
    match p {
        Some(x) => Change::Palette(x.0, x.1),
        None => Change::Palette(0, NO_COLORS),
    }
}

/// What it leaves in chroma.
pub open spec fn palette_uv_change(p: Pending) -> Change {
    match p {
        Some(x) => Change::PaletteUv(x.0, x.1),
        None => Change::PaletteUv(0, NO_COLORS),
    }
}

/// The bands after a block's palettes were left in them.
pub open spec fn after_palettes(b: Bands, mi_r: int, mi_c: int, count: int) -> Bands {
    let y = both_changed(b, mi_r, mi_c, count, palette_change(b.pending));
    let uv = both_changed(y, mi_r, mi_c, count, palette_uv_change(b.pending_uv));
    Bands { pending: None, pending_uv: None, ..uv }
}

/// The states three grids of levels leave.
pub open spec fn states_of(y: Seq<i32>, u: Seq<i32>, v: Seq<i32>) -> PlaneStates {
    PlaneStates { y: state_of(y), u: state_of(u), v: state_of(v) }
}

/// What a block's coefficients leave in a band that the frame bounds at
/// `edge`.
pub open spec fn planes_change(
    edge: int,
    side: int,
    states: PlaneStates,
    luma: bool,
) -> Change {
    Change::Planes { edge: edge as usize, side: side as usize, states, luma }
}

/// The bands after a block's palettes, on a frame that has them, and its
/// coefficients, whose luma part was left unit by unit where `luma` does not
/// hold.
pub open spec fn after_planes(
    b: Bands,
    mi_r: int,
    mi_c: int,
    side: int,
    states: PlaneStates,
    luma: bool,
    screen: bool,
) -> Bands {
    let p = if screen {
        after_palettes(b, mi_r, mi_c, side / 4)
    } else {
        b
    };
    Bands {
        above: changed(p.above, mi_c, side / 4, planes_change(b.mi_cols, side, states, luma)),
        left: changed(p.left, mi_r, side / 4, planes_change(b.mi_rows, side, states, luma)),
        ..p
    }
}

/// The bands after a block's luma mode was left in its 16x16 blocks.
pub open spec fn after_mode(b: Bands, r: int, c: int, count: int, mode: usize) -> Bands {
    Bands {
        above_mode: moded(b.above_mode, c, count, mode),
        left_mode: moded(b.left_mode, r, count, mode),
        ..b
    }
}

/// The bands after one luma transform unit's coefficients.
pub open spec fn after_luma(b: Bands, mi_r: int, mi_c: int, tx: int, state: Neighbour) -> Bands {
    Bands {
        above: changed(
            b.above,
            mi_c,
            tx / 4,
            Change::Luma { edge: b.mi_cols as usize, state },
        ),
        left: changed(b.left, mi_r, tx / 4, Change::Luma { edge: b.mi_rows as usize, state }),
        ..b
    }
}

/// The bands after a block's transform size.
pub open spec fn after_tx(b: Bands, mi_r: int, mi_c: int, side: int, tx: int) -> Bands {
    both_changed(b, mi_r, mi_c, side / 4, Change::Tx(tx as u8))
}

/// The bands after an inter frame's transform size.
pub open spec fn after_txfm(b: Bands, mi_r: int, mi_c: int, tx: int, side: int) -> Bands {
    both_changed(b, mi_r, mi_c, side / 4, Change::Txfm(tx as u8))
}

/// The bands after a block's skip flag.
pub open spec fn after_skip(b: Bands, mi_r: int, mi_c: int, side: int, skip: bool) -> Bands {
    both_changed(b, mi_r, mi_c, side / 4, Change::Skip(skip))
}

/// The bands after an inter frame's block.
pub open spec fn after_inter(
    b: Bands,
    mi_r: int,
    mi_c: int,
    side: int,
    skip: bool,
    inter: bool,
    ref_frame: i8,
) -> Bands {
    both_changed(b, mi_r, mi_c, side / 4, Change::Inter { skip, inter, ref_frame })
}

/// The bands after a block's second reference.
pub open spec fn after_compound(
    b: Bands,
    mi_r: int,
    mi_c: int,
    side: int,
    ref1: i8,
    comp_group_idx: u8,
    compound_idx: u8,
) -> Bands {
    both_changed(
        b,
        mi_r,
        mi_c,
        side / 4,
        Change::Compound { ref1, comp_group_idx, compound_idx },
    )
}

/// The bands a tile starts from.
pub open spec fn fresh(cols: int, rows: int, mi_cols: int, mi_rows: int) -> Bands {
    Bands {
        above: Seq::new((4 * cols) as nat, |i: int| blank_cell()),
        left: Seq::new((4 * rows) as nat, |i: int| blank_cell()),
        above_mode: Seq::new(cols as nat, |i: int| DC_PRED),
        left_mode: Seq::new(rows as nat, |i: int| DC_PRED),
        pending: None,
        pending_uv: None,
        row0: 0,
        col0: 0,
        mi_cols,
        mi_rows,
    }
}

/// The bands at the start of a superblock row.
pub open spec fn row_started(b: Bands) -> Bands {
    Bands {
        left: Seq::new(b.left.len(), |i: int| cleared(b.left[i])),
        left_mode: Seq::new(b.left_mode.len(), |i: int| DC_PRED),
        ..b
    }
}

fn blank_unit() -> (c: Cell)
    ensures
        c == blank_cell(),
{
    let none = Neighbour { coded: false, level: 0, dc: None };
    Cell {
        y: none,
        u: none,
        v: none,
        side: NO_NEIGHBOUR_SIDE,
        skip: false,
        inter: false,
        ref0: -1,
        ref1: None,
        comp_group_idx: 0,
        compound_idx: 0,
        tx: 0,
        txfm: TXFM_CTX_INIT,
        palette_size: 0,
        palette_colors: NO_COLORS,
        palette_uv_size: 0,
        palette_uv_colors: NO_COLORS,
    }
}

fn blank_units(count: usize) -> (band: Vec<Cell>)
    ensures
        band@ == Seq::new(count as nat, |i: int| blank_cell()),
{
    let mut band: Vec<Cell> = Vec::new();
    while band.len() < count
        invariant
            band.len() <= count,
            forall|i: int| 0 <= i < band.len() ==> band@[i] == blank_cell(),
        decreases count - band.len(),
    {
        band.push(blank_unit());
    }
    proof {
        assert(band@ =~= Seq::new(count as nat, |i: int| blank_cell()));
    }
    band
}

fn dc_modes(count: usize) -> (modes: Vec<usize>)
    ensures
        modes@ == Seq::new(count as nat, |i: int| DC_PRED),
{
    let mut modes: Vec<usize> = Vec::new();
    while modes.len() < count
        invariant
            modes.len() <= count,
            forall|i: int| 0 <= i < modes.len() ==> modes@[i] == DC_PRED,
        decreases count - modes.len(),
    {
        modes.push(DC_PRED);
    }
    proof {
        assert(modes@ =~= Seq::new(count as nat, |i: int| DC_PRED));
    }
    modes
}

fn plane(c: &Cell, which: usize) -> (n: Neighbour)
    ensures
        n == plane_of(*c, which as int),
{
    if which == 0 {
        c.y
    } else if which == 1 {
        c.u
    } else {
        c.v
    }
}

fn gather(band: &Vec<Cell>, lo: usize, count: usize, which: usize) -> (r: (bool, i32))
    requires
        lo + count <= band.len(),
        count <= 32,
    ensures
        r.0 == any_coded(band@, lo as int, count as int, which as int),
        r.1 == votes(band@, lo as int, count as int, which as int),
        -32 <= r.1 <= 32,
{
    let mut coded: bool = false;
    let mut vote: i32 = 0;
    let mut k: usize = 0;
    while k < count
        invariant
            k <= count <= 32,
            lo + count <= band.len(),
            coded == any_coded(band@, lo as int, k as int, which as int),
            vote == votes(band@, lo as int, k as int, which as int),
            -k <= vote <= k,
        decreases count - k,
    {
        let n: Neighbour = plane(&band[lo + k], which);
        proof {
            let band = band@;
            let ghost_lo = lo as int;
            assert(any_coded(band, ghost_lo, k + 1, which as int) == (any_coded(
                band,
                ghost_lo,
                k as int,
                which as int,
            ) || n.coded)) by {
                if n.coded {
                    assert(plane_of(band[lo + k], which as int).coded);
                }
                if any_coded(band, ghost_lo, k as int, which as int) {
                    let i = choose|i: int|
                        ghost_lo <= i < ghost_lo + k && (#[trigger] plane_of(
                            band[i],
                            which as int,
                        )).coded;
                    assert(plane_of(band[i], which as int).coded);
                }
            }
        }
        coded = coded || n.coded;
        vote = vote + dc_vote(n.dc);
        k += 1;
    }
    (coded, vote)
}

fn or_levels(band: &Vec<Cell>, lo: usize, count: usize) -> (r: u8)
    requires
        lo + count <= band.len(),
    ensures
        r == tiers(band@, lo as int, count as int),
{
    let mut tier: u8 = 0;
    let mut k: usize = 0;
    while k < count
        invariant
            k <= count,
            lo + count <= band.len(),
            tier == tiers(band@, lo as int, k as int),
        decreases count - k,
    {
        tier = tier | band[lo + k].y.level;
        k += 1;
    }
    tier
}

impl Neighbours {
    /// The state a tile starts from: a block outside it reads as the DC mode,
    /// as having coded nothing, and as unsplit. `cols` and `rows` count 16x16
    /// blocks; `mi_cols` and `mi_rows` are the frame's size in 4x4 units.
    pub fn new(cols: usize, rows: usize, mi_cols: usize, mi_rows: usize) -> (n: Neighbours)
        requires
            4 * cols <= 0xffff_ffff,
            4 * rows <= 0xffff_ffff,
        ensures
            n@ == fresh(cols as int, rows as int, mi_cols as int, mi_rows as int),
            is_bands(n@),
    {
        Neighbours {
            above: blank_units(4 * cols),
            left: blank_units(4 * rows),
            above_mode: dc_modes(cols),
            left_mode: dc_modes(rows),
            pending_palette: None,
            pending_palette_uv: None,
            tile_row0_mi: 0,
            tile_col0_mi: 0,
            mi_cols,
            mi_rows,
        }
    }

    /// Points the availability answers at one tile.
    pub fn set_tile_origin(&mut self, row0_mi: usize, col0_mi: usize)
        requires
            is_bands(old(self)@),
        ensures
            is_bands(final(self)@),
            final(self)@ == (Bands { row0: row0_mi as int, col0: col0_mi as int, ..old(self)@ }),
    {
        self.tile_row0_mi = row0_mi;
        self.tile_col0_mi = col0_mi;
    }

    /// Whether the block at a unit row has a neighbour above it inside its
    /// own tile.
    pub fn has_above(&self, mi_r: usize) -> (has: bool)
        ensures
            has == (mi_r > self@.row0),
    {
        mi_r > self.tile_row0_mi
    }

    /// Whether the block at a unit column has a neighbour to its left inside
    /// its own tile.
    pub fn has_left(&self, mi_c: usize) -> (has: bool)
        ensures
            has == (mi_c > self@.col0),
    {
        mi_c > self.tile_col0_mi
    }

    /// Clears the left column, which a tile starts every superblock row with.
    pub fn start_row(&mut self)
        requires
            is_bands(old(self)@),
        ensures
            is_bands(final(self)@),
            final(self)@ == row_started(old(self)@),
    {
        let ghost before = self@;
        let mut i: usize = 0;
        while i < self.left.len()
            invariant
                i <= self.left.len(),
                self@ == (Bands { left: self.left@, ..before }),
                self.left@.len() == before.left.len(),
                forall|k: int| 0 <= k < i ==> #[trigger] self.left@[k] == cleared(before.left[k]),
                forall|k: int| i <= k < before.left.len() ==> #[trigger] self.left@[k]
                    == before.left[k],
            decreases self.left.len() - i,
        {
            let mut c: Cell = blank_unit();
            c.palette_colors = self.left[i].palette_colors;
            self.left.set(i, c);
            i += 1;
        }
        let ghost middle = self@;
        let mut j: usize = 0;
        while j < self.left_mode.len()
            invariant
                j <= self.left_mode.len(),
                self@ == (Bands { left_mode: self.left_mode@, ..middle }),
                self.left_mode@.len() == middle.left_mode.len(),
                forall|k: int| 0 <= k < j ==> #[trigger] self.left_mode@[k] == DC_PRED,
            decreases self.left_mode.len() - j,
        {
            self.left_mode.set(j, DC_PRED);
            j += 1;
        }
        proof {
            assert(self@ =~= row_started(old(self)@));
        }
    }

    /// The gathered state of the blocks above and to the left of one block,
    /// for one plane.
    pub fn around_mi(&self, mi: (usize, usize), side: usize, which: usize) -> (r: Around)
        requires
            is_bands(self@),
            side <= 128,
            is_at(self@, mi.0 as int, mi.1 as int, side as int / 4),
        ensures
            r == around_of(self@, mi.0 as int, mi.1 as int, side as int / 4, which as int),
    {
        let above: (bool, i32) = gather(&self.above, mi.1, side / 4, which);
        let left: (bool, i32) = gather(&self.left, mi.0, side / 4, which);
        Around { above_coded: above.0, left_coded: left.0, dc_vote: above.1 + left.1 }
    }

    /// The same at a 16x16 block of the frame.
    pub fn around(&self, at: (usize, usize), side: usize, which: usize) -> (r: Around)
        requires
            is_bands(self@),
            side <= 128,
            is_at(self@, 4 * at.0, 4 * at.1, side as int / 4),
        ensures
            r == around_of(self@, 4 * at.0, 4 * at.1, side as int / 4, which as int),
    {
        self.around_mi((4 * at.0, 4 * at.1), side, which)
    }

    /// The context of a block's partition symbol: whether the blocks above it
    /// and to its left were split finer than it is.
    pub fn partition_ctx_mi(&self, mi: (usize, usize), side: usize) -> (ctx: usize)
        requires
            is_bands(self@),
            mi.0 < self@.left.len(),
            mi.1 < self@.above.len(),
        ensures
            ctx == spec_partition_ctx(self@, mi.0 as int, mi.1 as int, side as int),
            ctx < 4,
    {
        assert(is_cell(self@.left[mi.0 as int]));
        assert(is_cell(self@.above[mi.1 as int]));
        2 * bit(self.left[mi.0].side * 2 <= side) + bit(self.above[mi.1].side * 2 <= side)
    }

    /// The same at a 16x16 block of the frame.
    pub fn partition_ctx(&self, at: (usize, usize), side: usize) -> (ctx: usize)
        requires
            is_bands(self@),
            4 * at.0 < self@.left.len(),
            4 * at.1 < self@.above.len(),
        ensures
            ctx == spec_partition_ctx(self@, 4 * at.0, 4 * at.1, side as int),
            ctx < 4,
    {
        self.partition_ctx_mi((4 * at.0, 4 * at.1), side)
    }

    /// The context of a block's skip flag.
    pub fn skip_ctx(&self, mi: (usize, usize)) -> (ctx: usize)
        requires
            mi.0 < self@.left.len(),
            mi.1 < self@.above.len(),
        ensures
            ctx == spec_skip_ctx(self@, mi.0 as int, mi.1 as int),
    {
        bit(self.above[mi.1].skip) + bit(self.left[mi.0].skip)
    }

    /// Whether the transform above is at least as wide as this block's own
    /// largest, plus whether the one to the left is at least as tall. A
    /// neighbour outside the tile counts for nothing.
    pub fn tx_size_ctx(&self, mi: (usize, usize), max_tx: usize) -> (ctx: usize)
        requires
            mi.0 < self@.left.len(),
            mi.1 < self@.above.len(),
        ensures
            ctx == spec_tx_size_ctx(self@, mi.0 as int, mi.1 as int, max_tx as int),
    {
        bit(self.has_above(mi.0) && self.above[mi.1].tx as usize >= max_tx) + bit(
            self.has_left(mi.1) && self.left[mi.0].tx as usize >= max_tx,
        )
    }

    /// The same in an inter frame, where an inter neighbour is compared by its
    /// block.
    pub fn tx_size_ctx_txfm(&self, mi: (usize, usize), own_side: usize) -> (ctx: usize)
        requires
            mi.0 < self@.left.len(),
            mi.1 < self@.above.len(),
        ensures
            ctx == spec_tx_size_ctx_txfm(self@, mi.0 as int, mi.1 as int, own_side as int),
    {
        let above: Cell = self.above[mi.1];
        let left: Cell = self.left[mi.0];
        let above_side: usize = if above.inter {
            above.side
        } else {
            above.txfm as usize
        };
        let left_side: usize = if left.inter {
            left.side
        } else {
            left.txfm as usize
        };
        bit(self.has_above(mi.0) && above_side >= own_side) + bit(
            self.has_left(mi.1) && left_side >= own_side,
        )
    }

    /// The context of the luma all-zero flag of a transform unit smaller than
    /// its block: the magnitude tiers above and to the left.
    pub fn luma_skip_ctx(&self, mi: (usize, usize), side_mi: usize) -> (ctx: usize)
        requires
            is_at(self@, mi.0 as int, mi.1 as int, side_mi as int),
        ensures
            ctx == spec_luma_skip_ctx(self@, mi.0 as int, mi.1 as int, side_mi as int),
    {
        let top: u8 = or_levels(&self.above, mi.1, side_mi);
        let left: u8 = or_levels(&self.left, mi.0, side_mi);
        let t: usize = if top <= 4 {
            top as usize
        } else {
            4
        };
        let l: usize = if left <= 4 {
            left as usize
        } else {
            4
        };
        SKIP_CONTEXTS[t][l]
    }
}

} // verus!
