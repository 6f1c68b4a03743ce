//! Whether what a caller hands the tile writers can be coded: each test decides
//! exactly what the writers ask for.
use crate::tile::blocks::{BlockCoeffs, InterInfo, PaletteUv, PaletteY, Quadrant, Superblock};
use crate::tile::children;
use crate::tile::children::{child_at, child_inside, children_inside};
use crate::tile::color_map;
use crate::tile::colours;
use crate::tile::inter_block;
use crate::tile::inter_frame;
use crate::tile::intra;
use crate::tile::intra::{palette_uv_side, UV_CFL_PRED};
use crate::tile::key_block;
use crate::tile::key_frame;
use crate::tile::layout;
use crate::tile::layout::{block_grid, has_half, superblock_grid, MAX_MI};
use crate::tile::motion;
use crate::tile::motion::{MotionContext, MvPair};
use crate::tile::neighbours::{DC_PRED, INTRA_MODES};
use crate::tile::palette;
use crate::tile::plans;
use crate::tile::plans::{FramePlan, LrPlan};
use crate::tile::residual;
use crate::tile::residual::halve;
use crate::tile::vectors;
use vstd::prelude::*;

verus! {

/// Whether a restoration plan has a decision for each of its units.
fn holds_lr(p: &LrPlan) -> (r: bool)
    ensures
        r == plans::is_lr(*p),
{
    proof {
        assert(0 <= p.horz_units * p.vert_units <= 0xffff_ffff * 0xffff_ffff) by (nonlinear_arith)
            requires
                0 <= p.horz_units <= 0xffff_ffff,
                0 <= p.vert_units <= 0xffff_ffff,
        ;
    }
    p.unit_size > 0 && p.units.len() as u64 == p.horz_units as u64 * p.vert_units as u64
}

/// Whether a frame's plans are complete.
pub fn holds_plan(p: &FramePlan) -> (r: bool)
    ensures
        r == plans::is_plan(*p),
{
    let lr: bool = match &p.lr {
        Some(lr) => holds_lr(lr),
        None => true,
    };
    let cdef: bool = match &p.cdef {
        Some(c) => c.bits <= 32,
        None => true,
    };
    let delta_q: bool = match &p.delta_q {
        Some(q) => q.res > 0,
        None => true,
    };
    p.mi_cols <= MAX_MI && p.mi_rows <= MAX_MI && lr && cdef && delta_q
}

/// Whether a vector's parts can be coded.
fn holds_mv(v: (i32, i32)) -> (r: bool)
    ensures
        r == vectors::is_mv(v),
{
    -0x3fff_fff8 <= v.0 && v.0 <= 0x3fff_fff8 && -0x3fff_fff8 <= v.1 && v.1 <= 0x3fff_fff8
}

fn holds_pair(p: MvPair) -> (r: bool)
    ensures
        r == motion::is_pair(p),
{
    holds_mv(p.0) && holds_mv(p.1)
}

fn holds_mvs(list: &Vec<(i32, i32)>) -> (r: bool)
    ensures
        r == (forall|i: int| 0 <= i < list@.len() ==> vectors::is_mv(#[trigger] list@[i])),
{
    for i in 0..list.len()
        invariant
            forall|k: int| 0 <= k < i ==> vectors::is_mv(#[trigger] list@[k]),
    {
        if !holds_mv(list[i]) {
            assert(!vectors::is_mv(list@[i as int]));
            return false;
        }
    }
    true
}

fn holds_pairs(list: &Vec<MvPair>) -> (r: bool)
    ensures
        r == (forall|i: int| 0 <= i < list@.len() ==> motion::is_pair(#[trigger] list@[i])),
{
    for i in 0..list.len()
        invariant
            forall|k: int| 0 <= k < i ==> motion::is_pair(#[trigger] list@[k]),
    {
        if !holds_pair(list[i]) {
            assert(!motion::is_pair(list@[i as int]));
            return false;
        }
    }
    true
}

/// Whether what a block is offered is in order.
pub fn holds_motion(m: &MotionContext) -> (r: bool)
    ensures
        r == motion::is_motion(*m),
{
    holds_mv(m.single.nearest_mv) && holds_mv(m.single.near_mv) && holds_mv(m.single.pred_mv)
        && holds_mvs(&m.single.entries) && holds_pair(m.compound.nearest_mv) && holds_pair(
        m.compound.near_mv,
    ) && m.compound.ref_mv_ctx < 6 && holds_pairs(&m.compound.entries)
}

/// Whether every candidate list in a sequence is in order.
pub fn holds_motions(list: &Vec<MotionContext>) -> (r: bool)
    ensures
        r == key_block::are_motions(list@),
{
    for i in 0..list.len()
        invariant
            forall|k: int| 0 <= k < i ==> motion::is_motion(#[trigger] list@[k]),
    {
        if !holds_motion(&list[i]) {
            assert(!motion::is_motion(list@[i as int]));
            return false;
        }
    }
    true
}

/// Whether the first `n` colours are distinct bytes, in order.
fn holds_colors(colors: &[u16; 8], n: u8) -> (r: bool)
    requires
        2 <= n <= 8,
    ensures
        r == colours::are_bytes(palette::palette_of(n, *colors)),
{
    let ghost list = palette::palette_of(n, *colors);
    for i in 0..n as usize
        invariant
            2 <= n <= 8,
            list == palette::palette_of(n, *colors),
            forall|k: int| 0 <= k < i ==> #[trigger] list[k] <= 255,
            forall|j: int, k: int| 0 <= j < k < i ==> list[j] < list[k],
    {
        assert(list[i as int] == colors@[i as int]);
        if colors[i] > 255 {
            return false;
        }
        if i > 0 {
            assert(list[i - 1] == colors@[i - 1]);
            if colors[i - 1] >= colors[i] {
                return false;
            }
        }
    }
    assert(palette::ascends(list));
    true
}

/// Whether a map gives every pixel of a square one of `n` colours.
fn holds_map(map: &Vec<u8>, side: usize, n: u8) -> (r: bool)
    requires
        side <= 64,
    ensures
        r == color_map::is_map(map@, side as int, n as int),
{
    proof {
        assert(0 <= side * side <= 4096) by (nonlinear_arith)
            requires
                0 <= side <= 64,
        ;
    }
    if map.len() != side * side {
        return false;
    }
    for i in 0..map.len()
        invariant
            forall|k: int| 0 <= k < i ==> #[trigger] map@[k] < n,
    {
        if map[i] >= n {
            assert(map@[i as int] >= n);
            return false;
        }
    }
    true
}

/// Whether a luma palette has colours and a map.
pub fn holds_palette_y(p: &PaletteY, side: usize) -> (r: bool)
    requires
        intra::is_block_side(side as int),
    ensures
        r == intra::is_palette_y(*p, side as int),
{
    2 <= p.size && p.size <= 8 && holds_colors(&p.colors, p.size) && holds_map(
        &p.map,
        side,
        p.size,
    )
}

/// Whether a chroma palette has colours and a map.
pub fn holds_palette_uv(p: &PaletteUv, side: usize) -> (r: bool)
    requires
        intra::is_block_side(side as int),
    ensures
        r == intra::is_palette_uv(*p, side as int),
{
    2 <= p.size && p.size <= 8 && holds_colors(&p.u_colors, p.size) && holds_map(
        &p.map,
        palette_uv_side(side),
        p.size,
    )
}

/// Whether an intra block's choices can be coded at a size.
fn holds_intra(plan: &FramePlan, block: &BlockCoeffs, side: usize, cfl: bool) -> (r: bool)
    requires
        intra::is_block_side(side as int),
    ensures
        r == intra::is_intra(*plan, *block, side as int, cfl),
{
    let alphas: bool = match block.cfl_alphas {
        Some(a) => -16 <= a.0 && a.0 <= 16 && -16 <= a.1 && a.1 <= 16 && !(a.0 == 0 && a.1 == 0),
        None => false,
    };
    let filter: bool = match block.filter_intra {
        Some(f) => f < 5,
        None => true,
    };
    let y: bool = match &block.palette {
        Some(p) => !(plan.screen && block.mode as usize == DC_PRED) || holds_palette_y(p, side),
        None => true,
    };
    let uv: bool = match &block.palette_uv {
        Some(p) => !(plan.screen && block.uv_mode as usize == DC_PRED) || holds_palette_uv(p, side),
        None => true,
    };
    block.uv_mode as usize <= UV_CFL_PRED && (block.uv_mode as usize != UV_CFL_PRED || (cfl && alphas)) && -3
        <= block.angle_delta_y && block.angle_delta_y <= 3 && filter && y && uv
}

/// Whether a transform can be halved this often.
fn holds_depth(side: usize, depth: u8) -> (r: bool)
    requires
        intra::is_block_side(side as int),
    ensures
        r == residual::is_depth(side as int, depth as int),
{
    depth <= 2 && halve(side, depth as usize) >= 4
}

/// Whether a block can be coded in a key frame at a size.
fn holds_key_block(plan: &FramePlan, block: &BlockCoeffs, side: usize) -> (r: bool)
    requires
        intra::is_block_side(side as int),
    ensures
        r == key_block::is_key_block(*plan, *block, side as int),
{
    match block.dv {
        Some(d) => holds_mv(d),
        None => holds_intra(plan, block, side, side < 64) && (!(plan.tx_select && side < 64)
            || holds_depth(side, block.tx_depth)),
    }
}

fn holds_key_leaves(plan: &FramePlan, leaves: &Vec<BlockCoeffs>) -> (r: bool)
    ensures
        r == (forall|i: int|
            0 <= i < leaves@.len() ==> key_block::is_key_block(*plan, #[trigger] leaves@[i], 8)),
{
    for i in 0..leaves.len()
        invariant
            forall|k: int| 0 <= k < i ==> key_block::is_key_block(*plan, #[trigger] leaves@[k], 8),
    {
        if !holds_key_block(plan, &leaves[i], 8) {
            assert(!key_block::is_key_block(*plan, leaves@[i as int], 8));
            return false;
        }
    }
    true
}

/// Whether a block of a key frame can be written whole at a size.
fn holds_key_whole(plan: &FramePlan, block: &BlockCoeffs, side: usize) -> (r: bool)
    requires
        intra::is_block_side(side as int),
    ensures
        r == key_frame::is_key_whole(*plan, *block, side as int),
{
    holds_key_block(plan, block, side) && (block.eight.is_none() || (block.mode as usize)
        < INTRA_MODES)
}

fn holds_key_sub(plan: &FramePlan, block: &BlockCoeffs, mi: (u32, u32)) -> (r: bool)
    requires
        mi.0 < plan.mi_rows <= MAX_MI,
        mi.1 < plan.mi_cols <= MAX_MI,
    ensures
        r == key_frame::is_key_sub(*plan, *block, mi.0 as int, mi.1 as int),
{
    proof {
        reveal(key_frame::is_key_sub);
    }
    if has_half(mi.1, 4, plan.mi_cols) && has_half(mi.0, 4, plan.mi_rows) {
        return holds_key_whole(plan, block, 16);
    }
    match &block.eight {
        None => true,
        Some(leaves) => leaves.len() != children_inside(plan, mi.0, mi.1, 2) || holds_key_leaves(
            plan,
            leaves,
        ),
    }
}

fn holds_key_subs(plan: &FramePlan, blocks: &Vec<BlockCoeffs>, mi: (u32, u32)) -> (r: bool)
    requires
        mi.0 < plan.mi_rows <= MAX_MI,
        mi.1 < plan.mi_cols <= MAX_MI,
    ensures
        r == key_frame::are_key_subs(*plan, blocks@, mi.0 as int, mi.1 as int),
{
    proof {
        reveal(key_frame::are_key_subs);
    }
    if blocks.len() != children_inside(plan, mi.0, mi.1, 4) {
        return true;
    }
    let mut next: usize = 0;
    let mut i: u32 = 0;
    while i < 4
        invariant
            i <= 4,
            mi.0 < plan.mi_rows <= MAX_MI,
            mi.1 < plan.mi_cols <= MAX_MI,
            blocks@.len() == children::inside(*plan, mi.0 as int, mi.1 as int, 4),
            next == children::inside_before(*plan, mi.0 as int, mi.1 as int, 4, i as int),
            forall|k: int|
                0 <= k < i && #[trigger] children::is_inside(
                    *plan,
                    mi.0 as int,
                    mi.1 as int,
                    4,
                    k,
                ) ==> key_frame::is_key_sub(
                    *plan,
                    blocks@[children::inside_before(*plan, mi.0 as int, mi.1 as int, 4, k)],
                    children::child_r(mi.0 as int, 4, k),
                    children::child_c(mi.1 as int, 4, k),
                ),
        decreases 4 - i,
    {
        if child_inside(plan, mi.0, mi.1, 4, i) {
            proof {
                children::lemma_inside_before(
                    *plan,
                    mi.0 as int,
                    mi.1 as int,
                    4,
                    i as int,
                );
            }
            let at: (u32, u32) = child_at(mi, 4, i);
            if !holds_key_sub(plan, &blocks[next], at) {
                proof {
                    reveal(key_frame::are_key_subs);
                    assert(children::is_inside(*plan, mi.0 as int, mi.1 as int, 4, i as int));
                }
                return false;
            }
            next += 1;
        }
        i += 1;
    }
    true
}

fn holds_key_quad(plan: &FramePlan, quad: &Quadrant, mi: (u32, u32)) -> (r: bool)
    requires
        mi.0 < plan.mi_rows <= MAX_MI,
        mi.1 < plan.mi_cols <= MAX_MI,
    ensures
        r == key_frame::is_key_quad(*plan, *quad, mi.0 as int, mi.1 as int),
{
    match quad {
        Quadrant::Whole(b) => !has_half(mi.1, 8, plan.mi_cols) || !has_half(
            mi.0,
            8,
            plan.mi_rows,
        ) || holds_key_whole(plan, b, 32),
        Quadrant::Split(blocks) => holds_key_subs(plan, blocks, mi),
        _ => true,
    }
}

fn holds_key_quads(plan: &FramePlan, quads: &Vec<Quadrant>, mi: (u32, u32)) -> (r: bool)
    requires
        mi.0 < plan.mi_rows <= MAX_MI,
        mi.1 < plan.mi_cols <= MAX_MI,
    ensures
        r == key_frame::are_key_quads(*plan, quads@, mi.0 as int, mi.1 as int),
{
    if quads.len() != children_inside(plan, mi.0, mi.1, 8) {
        return true;
    }
    let mut next: usize = 0;
    let mut i: u32 = 0;
    while i < 4
        invariant
            i <= 4,
            mi.0 < plan.mi_rows <= MAX_MI,
            mi.1 < plan.mi_cols <= MAX_MI,
            quads@.len() == children::inside(*plan, mi.0 as int, mi.1 as int, 8),
            next == children::inside_before(*plan, mi.0 as int, mi.1 as int, 8, i as int),
            forall|k: int|
                0 <= k < i && #[trigger] children::is_inside(
                    *plan,
                    mi.0 as int,
                    mi.1 as int,
                    8,
                    k,
                ) ==> key_frame::is_key_quad(
                    *plan,
                    quads@[children::inside_before(*plan, mi.0 as int, mi.1 as int, 8, k)],
                    children::child_r(mi.0 as int, 8, k),
                    children::child_c(mi.1 as int, 8, k),
                ),
        decreases 4 - i,
    {
        if child_inside(plan, mi.0, mi.1, 8, i) {
            proof {
                children::lemma_inside_before(
                    *plan,
                    mi.0 as int,
                    mi.1 as int,
                    8,
                    i as int,
                );
            }
            let at: (u32, u32) = child_at(mi, 8, i);
            if !holds_key_quad(plan, &quads[next], at) {
                proof {
                    assert(children::is_inside(*plan, mi.0 as int, mi.1 as int, 8, i as int));
                }
                return false;
            }
            next += 1;
        }
        i += 1;
    }
    true
}

fn holds_key_sb(plan: &FramePlan, sb: &Superblock, mi: (u32, u32)) -> (r: bool)
    requires
        mi.0 < plan.mi_rows <= MAX_MI,
        mi.1 < plan.mi_cols <= MAX_MI,
    ensures
        r == key_frame::is_key_sb(*plan, key_frame::sb_view(*sb), mi.0 as int, mi.1 as int),
{
    match sb {
        Superblock::Whole(b) => !has_half(mi.1, 16, plan.mi_cols) || !has_half(
            mi.0,
            16,
            plan.mi_rows,
        ) || holds_key_block(plan, b, 64),
        Superblock::Split(quads) => holds_key_quads(plan, quads, mi),
    }
}

/// The row of a cell of a grid is one of the grid's.
proof fn lemma_row(i: int, across: int, down: int)
    requires
        0 <= i < across * down,
        across > 0,
    ensures
        0 <= i / across < down,
        0 <= i % across < across,
{
    vstd::arithmetic::div_mod::lemma_fundamental_div_mod(i, across);
    let row = i / across;
    assert(0 <= row < down) by (nonlinear_arith)
        requires
            0 <= i < across * down,
            i == across * row + i % across,
            0 <= i % across < across,
    ;
}

/// Whether the 32x32 blocks of a key frame can be coded, each at its place.
pub fn holds_key_blocks(plan: &FramePlan, blocks: &[BlockCoeffs]) -> (r: bool)
    requires
        plan.mi_cols <= MAX_MI,
        plan.mi_rows <= MAX_MI,
    ensures
        r == key_frame::are_key_blocks(*plan, blocks@),
{
    let (cols, rows): (u32, u32) = block_grid(plan.mi_cols, plan.mi_rows);
    proof {
        assert(0 <= cols * rows <= 0x2000_0000 * 0x2000_0000) by (nonlinear_arith)
            requires
                cols <= 0x2000_0000,
                rows <= 0x2000_0000,
        ;
    }
    if cols == 0 || rows == 0 || blocks.len() as u64 != cols as u64 * rows as u64 {
        return true;
    }
    for i in 0..blocks.len()
        invariant
            plan.mi_cols <= MAX_MI,
            plan.mi_rows <= MAX_MI,
            cols > 0,
            cols == layout::ceil_div(plan.mi_cols as int, 8),
            rows == layout::ceil_div(plan.mi_rows as int, 8),
            blocks@.len() == cols * rows,
            forall|k: int|
                0 <= k < i ==> key_frame::is_key_quad(
                    *plan,
                    Quadrant::Whole(#[trigger] blocks@[k]),
                    8 * (k / cols as int),
                    8 * (k % cols as int),
                ),
    {
        proof {
            lemma_row(i as int, cols as int, rows as int);
        }
        let r: u32 = (i / cols as usize) as u32;
        let c: u32 = (i % cols as usize) as u32;
        let whole: bool = has_half(c * 8, 8, plan.mi_cols) && has_half(r * 8, 8, plan.mi_rows);
        if whole && !holds_key_whole(plan, &blocks[i], 32) {
            assert(!key_frame::is_key_quad(
                *plan,
                Quadrant::Whole(blocks@[i as int]),
                8 * r,
                8 * c,
            ));
            return false;
        }
    }
    true
}

/// Whether the superblocks of a key frame can be coded, each at its place.
pub fn holds_key_sbs(plan: &FramePlan, sbs: &[Superblock]) -> (r: bool)
    requires
        plan.mi_cols <= MAX_MI,
        plan.mi_rows <= MAX_MI,
    ensures
        r == key_frame::are_key_sbs(*plan, key_frame::sb_views(sbs@)),
{
    let ghost views = key_frame::sb_views(sbs@);
    let (cols, rows): (u32, u32) = superblock_grid(plan.mi_cols, plan.mi_rows);
    proof {
        assert(0 <= cols * rows <= 0x1000_0000 * 0x1000_0000) by (nonlinear_arith)
            requires
                cols <= 0x1000_0000,
                rows <= 0x1000_0000,
        ;
    }
    if cols == 0 || rows == 0 || sbs.len() as u64 != cols as u64 * rows as u64 {
        return true;
    }
    for i in 0..sbs.len()
        invariant
            plan.mi_cols <= MAX_MI,
            plan.mi_rows <= MAX_MI,
            cols > 0,
            cols == layout::superblocks(plan.mi_cols as int),
            rows == layout::superblocks(plan.mi_rows as int),
            sbs@.len() == cols * rows,
            views == key_frame::sb_views(sbs@),
            forall|k: int|
                0 <= k < i ==> key_frame::is_key_sb(
                    *plan,
                    #[trigger] views[k],
                    16 * (k / cols as int),
                    16 * (k % cols as int),
                ),
    {
        proof {
            lemma_row(i as int, cols as int, rows as int);
        }
        let r: u32 = (i / cols as usize) as u32;
        let c: u32 = (i % cols as usize) as u32;
        assert(views[i as int] == key_frame::sb_view(sbs@[i as int]));
        if !holds_key_sb(plan, &sbs[i], (r * 16, c * 16)) {
            return false;
        }
    }
    true
}

fn holds_info(info: &InterInfo) -> (r: bool)
    ensures
        r == motion::is_info(*info),
{
    holds_mv(info.mv) && holds_mv(info.mv1)
}

/// Whether a block can be coded in an inter frame at a size.
fn holds_inter_block(plan: &FramePlan, block: &BlockCoeffs, side: usize) -> (r: bool)
    requires
        intra::is_block_side(side as int),
    ensures
        r == inter_block::is_inter_block(*plan, *block, side as int),
{
    match &block.inter {
        Some(info) => holds_info(info),
        None => holds_intra(plan, block, side, true) && (!plan.tx_select || holds_depth(
            side,
            block.tx_depth,
        )),
    }
}

fn holds_inter_leaves(plan: &FramePlan, leaves: &Vec<BlockCoeffs>) -> (r: bool)
    ensures
        r == (forall|i: int|
            0 <= i < leaves@.len() ==> inter_block::is_inter_block(*plan, #[trigger] leaves@[i], 8)),
{
    for i in 0..leaves.len()
        invariant
            forall|k: int| 0 <= k < i ==> inter_block::is_inter_block(*plan, #[trigger] leaves@[k], 8),
    {
        if !holds_inter_block(plan, &leaves[i], 8) {
            assert(!inter_block::is_inter_block(*plan, leaves@[i as int], 8));
            return false;
        }
    }
    true
}

fn holds_inter_sub(plan: &FramePlan, block: &BlockCoeffs, mi: (u32, u32)) -> (r: bool)
    requires
        mi.0 < plan.mi_rows <= MAX_MI,
        mi.1 < plan.mi_cols <= MAX_MI,
    ensures
        r == inter_frame::is_inter_sub(*plan, *block, mi.0 as int, mi.1 as int),
{
    proof {
        reveal(inter_frame::is_inter_sub);
    }
    match &block.eight {
        None => !has_half(mi.1, 4, plan.mi_cols) || !has_half(mi.0, 4, plan.mi_rows)
            || holds_inter_block(plan, block, 16),
        Some(leaves) => leaves.len() != children_inside(plan, mi.0, mi.1, 2)
            || holds_inter_leaves(plan, leaves),
    }
}

fn holds_inter_subs(plan: &FramePlan, blocks: &Vec<BlockCoeffs>, mi: (u32, u32)) -> (r: bool)
    requires
        mi.0 < plan.mi_rows <= MAX_MI,
        mi.1 < plan.mi_cols <= MAX_MI,
    ensures
        r == inter_frame::are_inter_subs(*plan, blocks@, mi.0 as int, mi.1 as int),
{
    proof {
        reveal(inter_frame::are_inter_subs);
    }
    if blocks.len() != children_inside(plan, mi.0, mi.1, 4) {
        return true;
    }
    let mut next: usize = 0;
    let mut i: u32 = 0;
    while i < 4
        invariant
            i <= 4,
            mi.0 < plan.mi_rows <= MAX_MI,
            mi.1 < plan.mi_cols <= MAX_MI,
            blocks@.len() == children::inside(*plan, mi.0 as int, mi.1 as int, 4),
            next == children::inside_before(*plan, mi.0 as int, mi.1 as int, 4, i as int),
            forall|k: int|
                0 <= k < i && #[trigger] children::is_inside(
                    *plan,
                    mi.0 as int,
                    mi.1 as int,
                    4,
                    k,
                ) ==> inter_frame::is_inter_sub(
                    *plan,
                    blocks@[children::inside_before(*plan, mi.0 as int, mi.1 as int, 4, k)],
                    children::child_r(mi.0 as int, 4, k),
                    children::child_c(mi.1 as int, 4, k),
                ),
        decreases 4 - i,
    {
        if child_inside(plan, mi.0, mi.1, 4, i) {
            proof {
                children::lemma_inside_before(
                    *plan,
                    mi.0 as int,
                    mi.1 as int,
                    4,
                    i as int,
                );
            }
            let at: (u32, u32) = child_at(mi, 4, i);
            if !holds_inter_sub(plan, &blocks[next], at) {
                proof {
                    reveal(inter_frame::are_inter_subs);
                    assert(children::is_inside(*plan, mi.0 as int, mi.1 as int, 4, i as int));
                }
                return false;
            }
            next += 1;
        }
        i += 1;
    }
    true
}

fn holds_inter_quad(plan: &FramePlan, quad: &Quadrant, mi: (u32, u32)) -> (r: bool)
    requires
        mi.0 < plan.mi_rows <= MAX_MI,
        mi.1 < plan.mi_cols <= MAX_MI,
    ensures
        r == inter_frame::is_inter_quad(*plan, *quad, mi.0 as int, mi.1 as int),
{
    match quad {
        Quadrant::Whole(b) => !has_half(mi.1, 8, plan.mi_cols) || !has_half(
            mi.0,
            8,
            plan.mi_rows,
        ) || holds_inter_block(plan, b, 32),
        Quadrant::Whole64(b) => match &b.inter {
            None => true,
            Some(info) => info.ref1.is_some() || !has_half(mi.1, 16, plan.mi_cols) || !has_half(
                mi.0,
                16,
                plan.mi_rows,
            ) || holds_info(info),
        },
        Quadrant::Split(blocks) => holds_inter_subs(plan, blocks, mi),
        Quadrant::Covered => true,
    }
}

/// Whether the quadrants of an inter frame can be coded, each at its place.
pub fn holds_inter_quads(plan: &FramePlan, quads: &[Quadrant]) -> (r: bool)
    requires
        plan.mi_cols <= MAX_MI,
        plan.mi_rows <= MAX_MI,
    ensures
        r == inter_frame::are_inter_quads(*plan, quads@),
{
    let (cols, rows): (u32, u32) = block_grid(plan.mi_cols, plan.mi_rows);
    proof {
        assert(0 <= cols * rows <= 0x2000_0000 * 0x2000_0000) by (nonlinear_arith)
            requires
                cols <= 0x2000_0000,
                rows <= 0x2000_0000,
        ;
    }
    if cols == 0 || rows == 0 || quads.len() as u64 != cols as u64 * rows as u64 {
        return true;
    }
    for i in 0..quads.len()
        invariant
            plan.mi_cols <= MAX_MI,
            plan.mi_rows <= MAX_MI,
            plan.mi_cols > 0,
            plan.mi_rows > 0,
            cols > 0,
            cols == layout::ceil_div(plan.mi_cols as int, 8),
            rows == layout::ceil_div(plan.mi_rows as int, 8),
            quads@.len() == cols * rows,
            forall|k: int|
                0 <= k < i ==> inter_frame::is_inter_quad(
                    *plan,
                    #[trigger] quads@[k],
                    8 * (k / cols as int),
                    8 * (k % cols as int),
                ),
    {
        proof {
            lemma_row(i as int, cols as int, rows as int);
        }
        let r: u32 = (i / cols as usize) as u32;
        let c: u32 = (i % cols as usize) as u32;
        if !holds_inter_quad(plan, &quads[i], (r * 8, c * 8)) {
            proof {
                assert(!inter_frame::is_inter_quad(*plan, quads@[i as int], 8 * r, 8 * c));
            }
            return false;
        }
    }
    true
}

} // verus!
