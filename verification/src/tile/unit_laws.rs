//! How the transform units of a block are coded and what they leave, and what palettes,
//! copies and leaves leave.
use crate::tile::blocks::BlockCoeffs;
use crate::tile::coeffs;
use crate::tile::coeffs::TxbCoding;
use crate::tile::inter_block;
use crate::tile::intra;
use crate::tile::key_block;
use crate::tile::key_frame;
use crate::tile::key_frame::LastLeaf;
use crate::tile::layout;
use crate::tile::motion::MotionContext;
use crate::tile::neighbour_laws;
use crate::tile::neighbours;
use crate::tile::neighbours::Bands;
use crate::tile::ops;
use crate::tile::ops::Cdf;
use crate::tile::plans;
use crate::tile::plans::FramePlan;
use crate::tile::residual;
use crate::tile::residual::{LumaUnits, Written};
use crate::tile::state::TileView;
use crate::tile::syntax_laws;
use crate::transform::tx_type::TxType;
use vstd::prelude::*;

verus! {

/// One unit of a split luma transform lies `r` units down and `c` across. Inside the frame
/// it is coded with its own type, levels and surroundings: its all-zero flag by how much
/// lies along its sides, its DC's sign by the majority around it. What it leaves is left
/// in its own 4x4 units. Outside the frame it is not coded at all.
pub proof fn units_are_coded_by_their_surroundings(
    plan: FramePlan,
    w: Written,
    l: LumaUnits,
    r: int,
    c: int,
)
    requires
        l.tx == 4 || l.tx == 8 || l.tx == 16 || l.tx == 32,
        l.side == 2 * l.tx || l.side == 4 * l.tx,
        0 <= r < l.side / l.tx,
        0 <= c < l.side / l.tx,
    ensures
        ({
            let done = residual::unit_written(plan, w, l, r, c);
            let across = l.side / l.tx;
            let (mi_r, mi_c) = (l.mi_r + r * (l.tx / 4), l.mi_c + c * (l.tx / 4));
            let n = l.tx / 4;
            let levels = residual::unit_grid(l.grid, l.side, l.tx, r, c);
            let own = done.ops.skip(w.ops.len() as int);
            let positive = neighbour_laws::dcs(w.bands.above, mi_c, n, 0, false)
                + neighbour_laws::dcs(w.bands.left, mi_r, n, 0, false);
            let negative = neighbour_laws::dcs(w.bands.above, mi_c, n, 0, true)
                + neighbour_laws::dcs(w.bands.left, mi_r, n, 0, true);
            let coding = TxbCoding {
                set: residual::luma_set(l.tx, l.inter),
                mode: l.mode,
                reduced: plan.reduced_tx_set,
                skip_ctx: neighbours::spec_luma_skip_ctx(w.bands, mi_r, mi_c, n) as usize,
                sign_ctx: if positive > negative {
                    2usize
                } else if positive < negative {
                    1
                } else {
                    0
                },
                tx_type: if r * across + c < l.types.len() {
                    l.types[r * across + c]
                } else {
                    TxType::DctDct
                },
            };
            &&& mi_r >= w.bands.mi_rows || mi_c >= w.bands.mi_cols ==> done == w
            &&& mi_r < w.bands.mi_rows && mi_c < w.bands.mi_cols ==> {
                &&& own == coeffs::coeffs_ops(coding, levels)
                &&& done.bands == neighbours::after_luma(
                    w.bands,
                    mi_r,
                    mi_c,
                    l.tx,
                    neighbours::state_of(levels),
                )
            }
        }),
{
    let (mi_r, mi_c) = (l.mi_r + r * (l.tx / 4), l.mi_c + c * (l.tx / 4));
    neighbour_laws::sign_contexts_follow_the_majority(w.bands, mi_r, mi_c, l.tx / 4, 0);
    let done = residual::unit_written(plan, w, l, r, c);
    let levels = residual::unit_grid(l.grid, l.side, l.tx, r, c);
    let around = neighbours::around_of(w.bands, mi_r, mi_c, l.tx / 4, 0);
    let coding = TxbCoding {
        set: residual::luma_set(l.tx, l.inter),
        mode: l.mode,
        reduced: plan.reduced_tx_set,
        skip_ctx: neighbours::spec_luma_skip_ctx(w.bands, mi_r, mi_c, l.tx / 4) as usize,
        sign_ctx: neighbours::spec_dc_sign_ctx(around.dc_vote as int) as usize,
        tx_type: residual::type_at(l.types, r * (l.side / l.tx) + c),
    };
    assert(l.side / l.tx > 1);
    let own = coeffs::coeffs_ops(coding, levels);
    assert((w.ops + own).skip(w.ops.len() as int) =~= own);
}

/// The levels of a unit are those of its square of the block.
pub proof fn units_take_their_square(grid: Seq<i32>, side: int, tx: int, r: int, c: int, i: int, j: int)
    requires
        0 < tx < side,
        0 <= i < tx,
        0 <= j < tx,
    ensures
        residual::unit_grid(grid, side, tx, r, c)[i * tx + j] == grid[(r * tx + i) * side + (c * tx
            + j)],
{
    assert(0 <= i * tx + j < tx * tx) by (nonlinear_arith)
        requires
            0 <= i < tx,
            0 <= j < tx,
    ;
    vstd::arithmetic::div_mod::lemma_fundamental_div_mod_converse(i * tx + j, tx, i, j);
}

/// A luma unit leaves its levels in its own units of both bands, as far as the frame goes,
/// and nothing else.
pub proof fn units_leave_their_levels(
    b: Bands,
    mi_r: int,
    mi_c: int,
    tx: int,
    state: neighbours::Neighbour,
    i: int,
)
    requires
        tx % 4 == 0,
        0 <= i,
        0 <= b.mi_cols <= 0xffff_ffff,
        0 <= b.mi_rows <= 0xffff_ffff,
    ensures
        ({
            let done = neighbours::after_luma(b, mi_r, mi_c, tx, state);
            let own_above = neighbour_laws::is_own(i, mi_c, tx) && i < b.mi_cols;
            let own_left = neighbour_laws::is_own(i, mi_r, tx) && i < b.mi_rows;
            &&& i < b.above.len() && own_above ==> done.above[i].y == state && done.above[i].u
                == b.above[i].u && done.above[i].skip == b.above[i].skip
            &&& i < b.above.len() && !own_above ==> done.above[i] == b.above[i]
            &&& i < b.left.len() && own_left ==> done.left[i].y == state && done.left[i].u
                == b.left[i].u && done.left[i].skip == b.left[i].skip
            &&& i < b.left.len() && !own_left ==> done.left[i] == b.left[i]
        }),
{
}

/// A key frame's block says how often its transform is halved, in the table of its size and
/// of how many neighbours are at least as large, before its units; and leaves the size of
/// its transform in its own units.
pub proof fn key_depths_come_before_their_units(
    plan: FramePlan,
    w: Written,
    l: LumaUnits,
    depth: int,
    i: int,
)
    requires
        l.side == 8 || l.side == 16 || l.side == 32,
        0 <= l.tx <= 64,
        0 <= i,
    ensures
        ({
            let done = residual::select_written(plan, w, l, depth);
            let (above, left) = (w.bands.above[l.mi_c], w.bands.left[l.mi_r]);
            let table = Cdf::TxSize(
                residual::tx_category(l.side) as usize,
                syntax_laws::count2(
                    l.mi_r > w.bands.row0 && above.tx >= l.side,
                    l.mi_c > w.bands.col0 && left.tx >= l.side,
                ),
            );
            let said = Written { ops: w.ops.push(ops::symbol(depth, table)), ..w };
            &&& done.ops == residual::luma_written(plan, said, l).ops
            &&& i < done.bands.above.len() && neighbour_laws::is_own(i, l.mi_c, l.side)
                ==> done.bands.above[i].tx == l.tx
            &&& i < done.bands.left.len() && neighbour_laws::is_own(i, l.mi_r, l.side)
                ==> done.bands.left[i].tx == l.tx
        }),
{
    reveal(residual::select_written);
}

/// Units are coded row by row, each row from left to right.
pub proof fn units_are_coded_in_raster_order(plan: FramePlan, w: Written, l: LumaUnits)
    requires
        l.tx > 0,
        l.side == 2 * l.tx,
    ensures
        residual::luma_written(plan, w, l) == residual::unit_written(
            plan,
            residual::unit_written(
                plan,
                residual::unit_written(
                    plan,
                    residual::unit_written(plan, w, l, 0, 0),
                    l,
                    0,
                    1,
                ),
                l,
                1,
                0,
            ),
            l,
            1,
            1,
        ),
{
    reveal(residual::luma_written);
    assert(l.side / l.tx == 2) by (nonlinear_arith)
        requires
            l.tx > 0,
            l.side == 2 * l.tx,
    ;
    reveal_with_fuel(residual::unit_rows_written, 3);
    reveal_with_fuel(residual::unit_row_written, 3);
}

/// A block leaves its palettes in its own units of both bands: the size, and the colours
/// where it has one.
pub proof fn blocks_leave_their_palettes(b: Bands, mi_r: int, mi_c: int, side: int, i: int)
    requires
        side % 4 == 0,
        0 <= i,
    ensures
        ({
            let done = neighbours::after_palettes(b, mi_r, mi_c, side / 4);
            &&& done.pending is None && done.pending_uv is None
            &&& i < b.above.len() && neighbour_laws::is_own(i, mi_c, side) ==> {
                let c = done.above[i];
                &&& b.pending is None ==> c.palette_size == 0
                &&& b.pending matches Some(p) ==> c.palette_size == p.0
                &&& b.pending matches Some(p) ==> (p.0 > 0 ==> c.palette_colors == p.1)
                &&& b.pending_uv is None ==> c.palette_uv_size == 0
                &&& b.pending_uv matches Some(p) ==> c.palette_uv_size == p.0
                &&& b.pending_uv matches Some(p) ==> (p.0 > 0 ==> c.palette_uv_colors == p.1)
            }
            &&& i < b.left.len() && neighbour_laws::is_own(i, mi_r, side) ==> {
                let c = done.left[i];
                &&& b.pending is None ==> c.palette_size == 0
                &&& b.pending matches Some(p) ==> c.palette_size == p.0
                &&& b.pending matches Some(p) ==> (p.0 > 0 ==> c.palette_colors == p.1)
                &&& b.pending_uv is None ==> c.palette_uv_size == 0
                &&& b.pending_uv matches Some(p) ==> c.palette_uv_size == p.0
                &&& b.pending_uv matches Some(p) ==> (p.0 > 0 ==> c.palette_uv_colors == p.1)
            }
            &&& i < b.above.len() && !neighbour_laws::is_own(i, mi_c, side) ==> done.above[i]
                == b.above[i]
            &&& i < b.left.len() && !neighbour_laws::is_own(i, mi_r, side) ==> done.left[i]
                == b.left[i]
        }),
{
}

/// The palettes a block is about to leave are its own, luma's for the DC mode and chroma's
/// for the DC chroma mode, in a frame that has palettes.
pub proof fn palettes_go_with_the_dc_modes(plan: FramePlan, b: Bands, block: BlockCoeffs)
    ensures
        ({
            let done = intra::with_pending(plan, b, block);
            &&& !plan.screen ==> done == b
            &&& plan.screen && block.mode != 0 ==> done.pending is None
            &&& plan.screen && block.uv_mode != 0 ==> done.pending_uv is None
            &&& plan.screen && block.mode == 0 ==> (block.palette matches Some(p) ==> done.pending
                == Some((p.size, p.colors)))
            &&& plan.screen && block.mode == 0 && block.palette is None ==> done.pending is None
            &&& plan.screen && block.uv_mode == 0 ==> (block.palette_uv matches Some(p)
                ==> done.pending_uv == Some((p.size, p.u_colors)))
            &&& done.above == b.above && done.left == b.left
        }),
{
}

/// A luma palette is offered to a block of the DC mode: whether it has one, in the table of
/// its size and of the neighbours that have, then its number of colours less two.
pub proof fn palettes_are_offered_to_the_dc_mode(
    b: Bands,
    block: BlockCoeffs,
    mi_r: int,
    mi_c: int,
    side: int,
)
    requires
        intra::is_block_side(side),
        mi_r >= 0,
        mi_c >= 0,
    ensures
        ({
            let y = block.palette;
            let said = intra::palette_y_ops(b, y, 0, mi_r, mi_c, side);
            let class = (if side == 8 {
                0int
            } else if side == 16 {
                2
            } else if side == 32 {
                4
            } else {
                6
            }) as usize;
            let ctx = syntax_laws::count2(
                mi_r > 0 && b.above[mi_c].palette_size > 0,
                mi_c > 0 && b.left[mi_r].palette_size > 0,
            );
            &&& said[0] == syntax_laws::told(y is Some, Cdf::PaletteYMode(class, ctx))
            &&& y is None ==> said.len() == 1
            &&& y matches Some(p) ==> said[1] == ops::symbol(p.size - 2, Cdf::PaletteYSize(class))
        }),
        ({
            let uv = block.palette_uv;
            let said = intra::palette_uv_ops(b, uv, block.palette is Some, 0, mi_r, mi_c, side);
            &&& said[0] == syntax_laws::told(
                uv is Some,
                Cdf::PaletteUvMode(if block.palette is Some { 1usize } else { 0usize }),
            )
            &&& uv is None ==> said.len() == 1
        }),
        forall|mode: int|
            mode != 0 ==> (#[trigger] intra::palette_y_ops(b, None, mode, mi_r, mi_c, side)).len()
                == 0,
{
    reveal(intra::palette_y_ops);
    reveal(intra::palette_uv_ops);
}

/// Recursive filtering is offered to a block of the DC mode without a luma palette, of up
/// to 32 by 32, in a frame that has it: whether it is used, in the table of the block's
/// side, and then which one.
pub proof fn filters_are_offered_to_the_dc_mode(mode: int, side: int, palette: bool, fi: Option<u8>)
    ensures
        ({
            let said = intra::filter_intra_ops(true, mode, side, palette, fi);
            let open = mode == 0 && !palette && side <= 32;
            &&& !open ==> said.len() == 0
            &&& open ==> said[0] == syntax_laws::told(
                fi is Some,
                Cdf::FilterIntra(side as usize),
            )
            &&& open && fi is None ==> said.len() == 1
            &&& open ==> (fi matches Some(f) ==> said[1] == ops::symbol(
                f as int,
                Cdf::FilterIntraMode,
            ))
        }),
        intra::filter_intra_ops(false, mode, side, palette, fi).len() == 0,
{
}

/// A block copied from its own frame starts with a skip flag that is on, in the table of how
/// many of its neighbours are skipped, and the flag of a copy; then its vector. It leaves
/// itself skipped, whole and without coefficients, and the DC mode, in its own units.
pub proof fn copies_are_skipped_and_whole(
    plan: FramePlan,
    motion: Seq<MotionContext>,
    t: TileView,
    dv: (i32, i32),
    mi_r: int,
    mi_c: int,
    side: int,
    i: int,
)
    requires
        side == 8 || side == 16 || side == 32 || side == 64,
        key_block::copied_block(plan, motion, t, dv, mi_r, mi_c, side).fault is None,
        0 <= i,
    ensures
        ({
            let done = key_block::copied_block(plan, motion, t, dv, mi_r, mi_c, side).tile;
            let (b, n) = (t.bands, t.ops.len() as int);
            &&& done.ops[n] == syntax_laws::told(
                true,
                Cdf::Skip(syntax_laws::count2(b.above[mi_c].skip, b.left[mi_r].skip)),
            )
            &&& done.ops[n + 1] == syntax_laws::told(true, Cdf::Intrabc)
            &&& i < b.above.len() && neighbour_laws::is_own(i, mi_c, side) ==> {
                let c = done.bands.above[i];
                c.skip && c.side == side && c.tx == side && !c.y.coded && !c.u.coded && !c.v.coded
            }
            &&& i < b.left.len() && neighbour_laws::is_own(i, mi_r, side) ==> {
                let c = done.bands.left[i];
                c.skip && c.side == side && c.tx == side && !c.y.coded && !c.u.coded && !c.v.coded
            }
            &&& i < b.above.len() && !neighbour_laws::is_own(i, mi_c, side) ==> done.bands.above[i]
                == b.above[i]
            &&& i < b.left.len() && !neighbour_laws::is_own(i, mi_r, side) ==> done.bands.left[i]
                == b.left[i]
            &&& i < b.above_mode.len() && i == mi_c / 4 ==> done.bands.above_mode[i] == 0
            &&& i < b.left_mode.len() && i == mi_r / 4 ==> done.bands.left_mode[i] == 0
        }),
{
    reveal(key_block::copied_block);
    let zero = seq![0i32];
    let none = neighbours::state_of(zero);
    assert(!none.coded) by {
        assert forall|p: int| 0 <= p < zero.len() implies zero[p] == 0 by {}
    }
    lemma_copied(t.bands, mi_r, mi_c, side, plan.screen, i);
}

proof fn lemma_copied(b: Bands, mi_r: int, mi_c: int, side: int, screen: bool, i: int)
    requires
        side == 8 || side == 16 || side == 32 || side == 64,
        0 <= i,
        !neighbours::state_of(seq![0i32]).coded,
    ensures
        ({
            let done = key_block::copied_bands(b, mi_r, mi_c, side, screen);
            &&& i < b.above.len() && neighbour_laws::is_own(i, mi_c, side) ==> {
                let c = done.above[i];
                c.skip && c.side == side && c.tx == side && !c.y.coded && !c.u.coded && !c.v.coded
            }
            &&& i < b.left.len() && neighbour_laws::is_own(i, mi_r, side) ==> {
                let c = done.left[i];
                c.skip && c.side == side && c.tx == side && !c.y.coded && !c.u.coded && !c.v.coded
            }
            &&& i < b.above.len() && !neighbour_laws::is_own(i, mi_c, side) ==> done.above[i]
                == b.above[i]
            &&& i < b.left.len() && !neighbour_laws::is_own(i, mi_r, side) ==> done.left[i]
                == b.left[i]
            &&& i < b.above_mode.len() && i == mi_c / 4 ==> done.above_mode[i] == 0
            &&& i < b.left_mode.len() && i == mi_r / 4 ==> done.left_mode[i] == 0
        }),
{
    let zero = seq![0i32];
    let count = if side < 16 {
        1
    } else {
        side / 16
    };
    let moded = neighbours::after_mode(b, mi_r / 4, mi_c / 4, count, neighbours::DC_PRED);
    let p = if screen {
        neighbours::after_palettes(moded, mi_r, mi_c, side / 4)
    } else {
        moded
    };
    blocks_leave_their_palettes(moded, mi_r, mi_c, side, i);
    let planes = neighbours::after_planes(
        moded,
        mi_r,
        mi_c,
        side,
        neighbours::states_of(zero, zero, zero),
        true,
        screen,
    );
    assert(p.above.len() == b.above.len() && p.left.len() == b.left.len());
    assert(planes.above.len() == b.above.len() && planes.left.len() == b.left.len());
    assert(i < b.above.len() && neighbour_laws::is_own(i, mi_c, side) ==> planes.above[i].side
        == side && !planes.above[i].y.coded && !planes.above[i].u.coded
        && !planes.above[i].v.coded);
    assert(i < b.left.len() && neighbour_laws::is_own(i, mi_r, side) ==> planes.left[i].side == side
        && !planes.left[i].y.coded && !planes.left[i].u.coded && !planes.left[i].v.coded);
    assert(i < b.above.len() && !neighbour_laws::is_own(i, mi_c, side) ==> planes.above[i]
        == b.above[i]);
    assert(i < b.left.len() && !neighbour_laws::is_own(i, mi_r, side) ==> planes.left[i]
        == b.left[i]);
}

/// A leaf reads the mode of the leaf written just before it where that one lies right above
/// it, or right beside it, and the mode of the 16x16 block there otherwise.
pub proof fn leaves_read_the_leaf_before(b: Bands, l: LastLeaf, mi_r: int, mi_c: int)
    ensures
        key_frame::leaf_above(b, None, mi_r, mi_c) == b.above_mode[mi_c / 4],
        key_frame::leaf_left(b, None, mi_r, mi_c) == b.left_mode[mi_r / 4],
        l.mi_r == mi_r && l.mi_c == mi_c - 2 ==> key_frame::leaf_left(b, Some(l), mi_r, mi_c)
            == l.mode && key_frame::leaf_above(b, Some(l), mi_r, mi_c) == b.above_mode[mi_c / 4],
        l.mi_r == mi_r - 2 && l.mi_c == mi_c ==> key_frame::leaf_above(b, Some(l), mi_r, mi_c)
            == l.mode && key_frame::leaf_left(b, Some(l), mi_r, mi_c) == b.left_mode[mi_r / 4],
        l.mi_r == mi_r - 2 && l.mi_c == mi_c + 2 ==> key_frame::leaf_above(
            b,
            Some(l),
            mi_r,
            mi_c,
        ) == b.above_mode[mi_c / 4] && key_frame::leaf_left(b, Some(l), mi_r, mi_c)
            == b.left_mode[mi_r / 4],
{
}

/// The superblocks of a tile without larger roots are written row by row; each row starts
/// at the tile's first column and says so, and every superblock is a root of its own.
pub proof fn superblocks_are_written_row_by_row(r0: int, r1: int, c0: int, c1: int, k: int)
    requires
        0 <= r0 < r1 <= 0xffff_ffff,
        0 <= c0 < c1 <= 0xffff_ffff,
        0 <= k < (r1 - r0) * (c1 - c0),
    ensures
        ({
            let order = layout::write_order(r0, r1, c0, c1, false);
            let s = order[k];
            &&& order.len() == (r1 - r0) * (c1 - c0)
            &&& s.3
            &&& s.2 <==> s.1 == c0
            &&& k == 0 ==> s.0 == r0 && s.1 == c0
            &&& k > 0 ==> {
                let p = order[k - 1];
                s.0 == p.0 && s.1 == p.1 + 1 || p.1 == c1 - 1 && s.1 == c0 && s.0 == p.0 + 1
            }
        }),
{
    let w = c1 - c0;
    let (q, m) = (k / w, k % w);
    crate::bits::lemma_floor_bounds(k, w);
    vstd::arithmetic::div_mod::lemma_mod_bound(k, w);
    vstd::arithmetic::div_mod::lemma_fundamental_div_mod(k, w);
    assert(0 <= q < r1 - r0) by (nonlinear_arith)
        requires
            w > 0,
            0 <= k < (r1 - r0) * w,
            w * q <= k < w * q + w,
    ;
    if k > 0 {
        if m > 0 {
            vstd::arithmetic::div_mod::lemma_fundamental_div_mod_converse(k - 1, w, q, m - 1);
        } else {
            assert(k - 1 == w * (q - 1) + (w - 1)) by (nonlinear_arith)
                requires
                    k == w * q,
            ;
            assert(w * (q - 1) == (q - 1) * w) by (nonlinear_arith);
            vstd::arithmetic::div_mod::lemma_fundamental_div_mod_converse(k - 1, w, q - 1, w - 1);
            assert(q >= 1) by (nonlinear_arith)
                requires
                    k > 0,
                    k == w * q,
                    w > 0,
            ;
        }
    }
}

/// A row of superblocks starts with nothing to its left; any other superblock goes on from
/// what the one before left. The restoration units that start in it come first.
pub proof fn rows_of_superblocks_start_afresh(plan: FramePlan, t: TileView, r: u32, c: u32, first: bool)
    requires
        !plan.sb128,
    ensures
        ({
            let done = key_frame::sb_start(plan, t, (r, c, first, true));
            &&& first ==> done.bands == neighbours::row_started(t.bands)
            &&& !first ==> done.bands == t.bands
            &&& done.ops == t.ops + plans::lr_ops(plan.lr, 16 * r, 16 * c, 16)
            &&& done.cur_q == t.cur_q && done.cdef_last == t.cdef_last && done.asked == t.asked
        }),
{
    reveal(key_frame::sb_start);
}

/// A halved transform's quarters are each said not to be halved again, in raster order; each by
/// the transforms above and to the left of it, the quarters before it among them.
pub proof fn quarters_are_not_halved_again(w: Written, mi_r: int, mi_c: int, side: int, tx: int)
    ensures
        ({
            let done = residual::quarter_written(w, mi_r, mi_c, side, tx);
            let (a, l) = (w.bands.above[mi_c].txfm as int, w.bands.left[mi_r].txfm as int);
            let ctx = residual::spec_txfm_partition_ctx(a, l, side, tx) as usize;
            &&& tx <= 4 ==> done.ops == w.ops
            &&& tx > 4 ==> done.ops == w.ops.push(
                syntax_laws::told(false, Cdf::TxfmPartition(ctx)),
            )
            &&& done.bands == neighbours::after_txfm(w.bands, mi_r, mi_c, tx, tx)
        }),
        ({
            let half = side / 2;
            let step = half / 4;
            let ctx = residual::spec_txfm_partition_ctx(
                w.bands.above[mi_c].txfm as int,
                w.bands.left[mi_r].txfm as int,
                side,
                side,
            ) as usize;
            let said = Written {
                ops: w.ops.push(syntax_laws::told(true, Cdf::TxfmPartition(ctx))),
                ..w
            };
            let one = residual::quarter_written(said, mi_r, mi_c, side, half);
            let two = residual::quarter_written(one, mi_r, mi_c + step, side, half);
            let three = residual::quarter_written(two, mi_r + step, mi_c, side, half);
            residual::tx_inter_written(w, mi_r, mi_c, side, true, false, 1).w
                == residual::quarter_written(three, mi_r + step, mi_c + step, side, half)
        }),
{
    reveal(residual::tx_inter_written);
}

/// The units of a block that is split are those of the block itself: its place, its levels and
/// its types, with a transform halved as its depth says, a 64x64 one into four of 32; coded by
/// the block's prediction, and by its mode or its filter's direction where it is intra. A
/// block that is not split codes at most its first 32 rows and columns.
pub proof fn split_blocks_hand_on_their_own(
    block: BlockCoeffs,
    mi_r: int,
    mi_c: int,
    side: int,
    tx: int,
    y: Seq<i32>,
    row: usize,
)
    requires
        side == 8 || side == 16 || side == 32 || side == 64,
    ensures
        ({
            let l = inter_block::inter_units(block, mi_r, mi_c, side, tx, y);
            &&& l.mi_r == mi_r && l.mi_c == mi_c && l.side == side && l.grid == y
            &&& l.types == block.luma_tx_types@
            &&& l.inter <==> block.inter is Some
            &&& side == 64 ==> l.tx == 32
            &&& side < 64 ==> l.tx == tx
            &&& block.inter is Some ==> l.mode == 0
            &&& block.inter is None && block.filter_intra is None ==> l.mode == block.mode
        }),
        ({
            let l = key_block::key_units(block, mi_r, mi_c, side, row, y);
            &&& l.mi_r == mi_r && l.mi_c == mi_c && l.side == side && l.grid == y
            &&& l.types == block.luma_tx_types@ && !l.inter && l.mode == row
            &&& block.tx_depth == 0 ==> l.tx == side
            &&& block.tx_depth == 1 ==> 2 * l.tx == side
            &&& block.tx_depth == 2 ==> 4 * l.tx == side
        }),
        side < 64 ==> (inter_block::is_split(block, side, tx) <==> tx < side),
        side == 64 ==> (inter_block::is_split(block, side, tx) <==> block.tx_depth == 1),
        inter_block::levels_side(side, true) == side,
        inter_block::levels_side(side, false) == if side == 64 {
            32int
        } else {
            side
        },
        key_block::luma_side(side) == inter_block::levels_side(side, false),
{
}

} // verus!
