//! What a search prices before a tile is written: the symbols a choice would
//! take, in the contexts a block without neighbours has.
use crate::tile::blocks::{PaletteUv, PaletteY};
use crate::tile::coeffs;
use crate::tile::coeffs::{write_coeffs, TxbCoding};
use crate::tile::color_map;
use crate::tile::color_map::{write_color_index_map, MapPlane};
use crate::tile::colours;
use crate::tile::colours::{write_palette_colors_uv, write_palette_colors_y};
use crate::tile::intra;
use crate::tile::intra::{first_colors, palette_uv_side, size_class};
use crate::tile::levels;
use crate::tile::neighbours::DC_PRED;
use crate::tile::ops;
use crate::tile::ops::{put, Cdf, Op, TxbSet};
use crate::tile::palette;
use crate::tile::plans::{PARTITION_NONE, PARTITION_SPLIT};
use crate::tile::scan;
use crate::tile::scan::default_scan;
use crate::transform::tx_type::TxType;
use vstd::prelude::*;

verus! {

/// The symbols of a luma palette that no neighbour shares a colour with.
pub open spec fn palette_ops(p: PaletteY, side: int) -> Seq<Op> {
    let class = intra::palette_class(side) as usize;
    seq![
        ops::symbol(1, Cdf::PaletteYMode(class, 0)),
        ops::symbol(p.size - 2, Cdf::PaletteYSize(class)),
    ] + colours::colors_y_ops(palette::palette_of(p.size, p.colors), Seq::empty())
        + color_map::color_map_ops(MapPlane::Y, p.map@, side, p.size as int)
}

/// The symbols of a chroma palette that no neighbour shares a colour with.
pub open spec fn palette_uv_ops(p: PaletteUv, side: int) -> Seq<Op> {
    seq![
        ops::symbol(1, Cdf::PaletteUvMode(0)),
        ops::symbol(p.size - 2, Cdf::PaletteUvSize(intra::palette_class(side) as usize)),
    ] + colours::colors_uv_ops(
        palette::palette_of(p.size, p.u_colors),
        palette::palette_of(p.size, p.v_colors),
        Seq::empty(),
    ) + color_map::color_map_ops(
        MapPlane::Uv,
        p.map@,
        intra::spec_palette_uv_side(side),
        p.size as int,
    )
}

/// The partition symbol of a block of a size, split or not.
pub open spec fn partition_op(side: int, split: bool) -> Op {
    let table = if side == 64 {
        Cdf::PartitionW64(0)
    } else if side == 32 {
        Cdf::PartitionW32(0)
    } else if side == 8 {
        Cdf::PartitionW8(0)
    } else {
        Cdf::PartitionW16(0)
    };
    ops::symbol(
        if split {
            PARTITION_SPLIT as int
        } else {
            PARTITION_NONE as int
        },
        table,
    )
}

/// What a block's levels are priced with.
pub open spec fn priced(
    set: TxbSet,
    reduced: bool,
    skip_ctx: usize,
    sign_ctx: usize,
    tx_type: TxType,
) -> TxbCoding {
    TxbCoding { set, mode: DC_PRED, reduced, skip_ctx, sign_ctx, tx_type }
}

/// The symbols a luma palette takes; nothing for a block that can have none.
pub fn palette_symbols(p: &PaletteY, side: usize) -> (r: Option<Vec<Op>>)
    requires
        intra::is_block_side(side as int) ==> intra::is_palette_y(*p, side as int),
    ensures
        r is Some == intra::is_block_side(side as int),
        r matches Some(out) ==> out@ == palette_ops(*p, side as int),
{
    if side != 8 && side != 16 && side != 32 && side != 64 {
        return None;
    }
    let class: usize = size_class(side);
    let n: usize = p.size as usize;
    let mut out: Vec<Op> = Vec::new();
    put(&mut out, 1, Cdf::PaletteYMode(class, 0));
    put(&mut out, n - 2, Cdf::PaletteYSize(class));
    let colors: Vec<u16> = first_colors(&p.colors, n);
    let cache: Vec<u16> = Vec::new();
    write_palette_colors_y(&mut out, &colors, &cache);
    write_color_index_map(&mut out, MapPlane::Y, &p.map, side, n);
    proof {
        assert(cache@ =~= Seq::<u16>::empty());
        assert(out@ =~= palette_ops(*p, side as int));
    }
    Some(out)
}

/// The symbols a chroma palette takes; nothing for a block that can have none.
pub fn palette_uv_symbols(p: &PaletteUv, side: usize) -> (r: Option<Vec<Op>>)
    requires
        intra::is_block_side(side as int) ==> intra::is_palette_uv(*p, side as int),
    ensures
        r is Some == intra::is_block_side(side as int),
        r matches Some(out) ==> out@ == palette_uv_ops(*p, side as int),
{
    if side != 8 && side != 16 && side != 32 && side != 64 {
        return None;
    }
    let n: usize = p.size as usize;
    let mut out: Vec<Op> = Vec::new();
    put(&mut out, 1, Cdf::PaletteUvMode(0));
    put(&mut out, n - 2, Cdf::PaletteUvSize(size_class(side)));
    let u: Vec<u16> = first_colors(&p.u_colors, n);
    let v: Vec<u16> = first_colors(&p.v_colors, n);
    let cache: Vec<u16> = Vec::new();
    write_palette_colors_uv(&mut out, &u, &v, &cache);
    write_color_index_map(&mut out, MapPlane::Uv, &p.map, palette_uv_side(side), n);
    proof {
        assert(cache@ =~= Seq::<u16>::empty());
        assert(out@ =~= palette_uv_ops(*p, side as int));
    }
    Some(out)
}

/// The partition symbol of a block of a size, split or not.
pub fn partition_symbol(side: usize, split: bool) -> (op: Op)
    ensures
        op == partition_op(side as int, split),
{
    let cdf: Cdf = if side == 64 {
        Cdf::PartitionW64(0)
    } else if side == 32 {
        Cdf::PartitionW32(0)
    } else if side == 8 {
        Cdf::PartitionW8(0)
    } else {
        Cdf::PartitionW16(0)
    };
    let value: usize = if split {
        PARTITION_SPLIT
    } else {
        PARTITION_NONE
    };
    Op::Symbol { cdf, value }
}

/// The symbols a block's levels take.
pub fn coeff_symbols(
    grid: &[i32],
    set: TxbSet,
    reduced: bool,
    skip_ctx: usize,
    sign_ctx: usize,
    tx_type: TxType,
) -> (out: Vec<Op>)
    requires
        levels::is_grid(grid@, ops::coeff_side(set)),
    ensures
        out@ == coeffs::coeffs_ops(
            priced(set, reduced, skip_ctx, sign_ctx, tx_type),
            grid@,
        ),
{
    let coding = TxbCoding { set, mode: DC_PRED, reduced, skip_ctx, sign_ctx, tx_type };
    let order: Vec<u16> = default_scan(set.side());
    let mut out: Vec<Op> = Vec::new();
    write_coeffs(&mut out, &coding, grid, &order);
    proof {
        assert(out@ =~= coeffs::coeffs_ops(coding, grid@));
    }
    out
}

/// When a frame's search prices with the tables its tile starts from.
#[derive(Clone, Copy, Debug, PartialEq, Eq, Structural)]
pub enum PriceTables {
    /// Never: always with the default ones.
    Never,
    /// Always.
    Always,
    /// Unless the frame shows a screen.
    Camera,
}

/// Whether a frame's search prices with the tables its tile starts from.
pub open spec fn spec_prices_frame_tables(when: PriceTables, screen: bool) -> bool {
    match when {
        PriceTables::Never => false,
        PriceTables::Always => true,
        PriceTables::Camera => !screen,
    }
}

/// Whether a frame's search prices with the tables its tile starts from.
pub fn prices_frame_tables(when: PriceTables, screen: bool) -> (r: bool)
    ensures
        r == spec_prices_frame_tables(when, screen),
{
    match when {
        PriceTables::Never => false,
        PriceTables::Always => true,
        PriceTables::Camera => !screen,
    }
}

proof fn lemma_no_end(grid: Seq<i32>, order: Seq<int>, count: int)
    requires
        count <= order.len(),
        forall|p: int| 0 <= p < grid.len() ==> grid[p] == 0,
        forall|k: int| 0 <= k < order.len() ==> 0 <= #[trigger] order[k] < grid.len(),
    ensures
        coeffs::end_of_block(grid, order, count) == 0,
    decreases count,
{
    if count > 0 {
        lemma_no_end(grid, order, count - 1);
    }
}

/// A block without levels is one symbol: that there are none.
pub proof fn empty_blocks_are_one_flag(coding: TxbCoding, grid: Seq<i32>)
    requires
        levels::is_grid(grid, ops::coeff_side(coding.set)),
        forall|p: int| 0 <= p < grid.len() ==> grid[p] == 0,
    ensures
        coeffs::coeffs_ops(coding, grid) == seq![
            ops::symbol(
                1,
                coeffs::txb(coding.set, ops::TxbTable::Skip(coding.skip_ctx)),
            ),
        ],
{
    let side = ops::coeff_side(coding.set);
    let class = scan::class_of(coding.tx_type);
    scan::scans_stay_inside(side, class);
    lemma_no_end(grid, scan::scan_for(side, class), side * side);
}

} // verus!
