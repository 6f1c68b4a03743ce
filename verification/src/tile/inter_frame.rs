//! A tile of an inter frame.
use crate::tile::blocks;
use crate::tile::blocks::{BlockCoeffs, Quadrant};
use crate::tile::children;
use crate::tile::children::{child_at, child_inside, children_inside};
use crate::tile::error::TileError;
use crate::tile::inter_block;
use crate::tile::inter_block::{
    write_inter_block, write_inter_frame_leaf, write_inter_frame_leaf8,
};
use crate::tile::key_block;
use crate::tile::key_frame;
use crate::tile::key_frame::write_sb_start;
use crate::tile::key_tile;
use crate::tile::key_tile::{blank, order_of, Trace};
use crate::tile::layout;
use crate::tile::layout::{block_grid, check_blocks, has_half, q_ctx_of, SbStep};
use crate::tile::motion::MotionContext;
use crate::tile::neighbours;
use crate::tile::neighbours::INTRA_MODES;
use crate::tile::ops;
use crate::tile::ops::{put, Cdf};
use crate::tile::plans;
use crate::tile::plans::{write_split, FramePlan, PARTITION_NONE};
use crate::tile::residual;
use crate::tile::residual::Scans;
use crate::tile::state;
use crate::tile::state::{Step, Tile, TileView};
use crate::tile::tiles;
use crate::tile::tiles::TileRect;
use vstd::prelude::*;

verus! {

/// One whole block, its partition first.
pub open spec fn inter_whole(
    plan: FramePlan,
    motion: Seq<MotionContext>,
    t: TileView,
    block: BlockCoeffs,
    mi_r: int,
    mi_c: int,
    side: int,
    table: Cdf,
) -> Step {
    inter_block::inter_block(
        plan,
        motion,
        TileView { ops: t.ops.push(ops::symbol(0, table)), ..t },
        block,
        mi_r,
        mi_c,
        side,
    )
}

/// The first `i` quarters of a split 16x16 block, each that is inside the frame
/// as an 8x8 leaf.
pub open spec fn inter_leaves(
    plan: FramePlan,
    motion: Seq<MotionContext>,
    t: TileView,
    leaves: Seq<BlockCoeffs>,
    mi_r: int,
    mi_c: int,
    i: int,
) -> Step
    decreases i,
{
    if i <= 0 {
        state::going(t)
    } else {
        let before = inter_leaves(plan, motion, t, leaves, mi_r, mi_c, i - 1);
        if before.fault is Some || !children::is_inside(plan, mi_r, mi_c, 2, i - 1) {
            before
        } else {
            let r = children::child_r(mi_r, 2, i - 1);
            let c = children::child_c(mi_c, 2, i - 1);
            inter_whole(
                plan,
                motion,
                before.tile,
                leaves[children::inside_before(plan, mi_r, mi_c, 2, i - 1)],
                r,
                c,
                8,
                Cdf::PartitionW8(
                    neighbours::spec_partition_ctx(before.tile.bands, r, c, 8) as usize,
                ),
            )
        }
    }
}

/// One 16x16 block: whole where both its halves are inside the frame and it
/// has no leaves, else its leaves.
#[verifier::opaque]
pub open spec fn inter_sub(
    plan: FramePlan,
    motion: Seq<MotionContext>,
    t: TileView,
    block: BlockCoeffs,
    mi_r: int,
    mi_c: int,
) -> Step {
    let cols = key_frame::has_cols(plan, mi_c, 4);
    let rows = key_frame::has_rows(plan, mi_r, 4);
    let table = Cdf::PartitionW16(
        neighbours::spec_partition_ctx(t.bands, mi_r, mi_c, 16) as usize,
    );
    let split = state::said(t, plans::split_ops(table, cols, rows));
    match block.eight {
        None => if cols && rows {
            inter_whole(plan, motion, t, block, mi_r, mi_c, 16, table)
        } else {
            state::stopped(split, TileError::InterEightMissing)
        },
        Some(leaves) => if cols && rows && leaves@.len() != 4 {
            state::stopped(t, TileError::InterSplitCount)
        } else if leaves@.len() != children::inside(plan, mi_r, mi_c, 2) {
            state::stopped(split, TileError::InterEightCount)
        } else {
            inter_leaves(plan, motion, split, leaves@, mi_r, mi_c, 4)
        },
    }
}

/// The first `i` quarters of a split 32x32 block.
pub open spec fn inter_subs(
    plan: FramePlan,
    motion: Seq<MotionContext>,
    t: TileView,
    blocks: Seq<BlockCoeffs>,
    mi_r: int,
    mi_c: int,
    i: int,
) -> Step
    decreases i,
{
    if i <= 0 {
        state::going(t)
    } else {
        let before = inter_subs(plan, motion, t, blocks, mi_r, mi_c, i - 1);
        if before.fault is Some || !children::is_inside(plan, mi_r, mi_c, 4, i - 1) {
            before
        } else {
            inter_sub(
                plan,
                motion,
                before.tile,
                blocks[children::inside_before(plan, mi_r, mi_c, 4, i - 1)],
                children::child_r(mi_r, 4, i - 1),
                children::child_c(mi_c, 4, i - 1),
            )
        }
    }
}

/// One 32x32 quadrant.
#[verifier::opaque]
pub open spec fn inter_quad(
    plan: FramePlan,
    motion: Seq<MotionContext>,
    t: TileView,
    quad: Quadrant,
    mi_r: int,
    mi_c: int,
) -> Step {
    let cols = key_frame::has_cols(plan, mi_c, 8);
    let rows = key_frame::has_rows(plan, mi_r, 8);
    let table = Cdf::PartitionW32(
        neighbours::spec_partition_ctx(t.bands, mi_r, mi_c, 32) as usize,
    );
    match quad {
        Quadrant::Whole64(_) | Quadrant::Covered => state::stopped(t, TileError::StrayWhole64),
        Quadrant::Whole(block) => if !cols || !rows {
            state::stopped(t, TileError::WholeQuadrantOutside)
        } else {
            inter_whole(plan, motion, t, block, mi_r, mi_c, 32, table)
        },
        Quadrant::Split(blocks) => if blocks@.len() != children::inside(plan, mi_r, mi_c, 4) {
            state::stopped(t, TileError::InterSubBlockCount)
        } else {
            inter_subs(
                plan,
                motion,
                state::said(t, plans::split_ops(table, cols, rows)),
                blocks@,
                mi_r,
                mi_c,
                4,
            )
        },
    }
}

/// The quadrant at a unit row and column, among a frame's in raster order.
pub open spec fn quad_at(plan: FramePlan, quads: Seq<Quadrant>, mi_r: int, mi_c: int) -> Quadrant {
    quads[(mi_r / 8) * layout::ceil_div(plan.mi_cols as int, 8) + mi_c / 8]
}

/// The first `i` quadrants of a split superblock.
pub open spec fn inter_quads(
    plan: FramePlan,
    motion: Seq<MotionContext>,
    t: TileView,
    quads: Seq<Quadrant>,
    mi_r: int,
    mi_c: int,
    i: int,
) -> Step
    decreases i,
{
    if i <= 0 {
        state::going(t)
    } else {
        let before = inter_quads(plan, motion, t, quads, mi_r, mi_c, i - 1);
        if before.fault is Some || !children::is_inside(plan, mi_r, mi_c, 8, i - 1) {
            before
        } else {
            let r = children::child_r(mi_r, 8, i - 1);
            let c = children::child_c(mi_c, 8, i - 1);
            inter_quad(plan, motion, before.tile, quad_at(plan, quads, r, c), r, c)
        }
    }
}

/// Whether a block has two references.
pub open spec fn is_paired(block: BlockCoeffs) -> bool {
    block.inter matches Some(info) && info.ref1 is Some
}

/// One superblock: whole where its first quadrant says so, which a block of one
/// reference may be, else its quadrants.
#[verifier::opaque]
pub open spec fn inter_sb(
    plan: FramePlan,
    motion: Seq<MotionContext>,
    t: TileView,
    quads: Seq<Quadrant>,
    mi_r: int,
    mi_c: int,
) -> Step {
    let cols = key_frame::has_cols(plan, mi_c, 16);
    let rows = key_frame::has_rows(plan, mi_r, 16);
    let table = Cdf::PartitionW64(
        neighbours::spec_partition_ctx(t.bands, mi_r, mi_c, 64) as usize,
    );
    match quad_at(plan, quads, mi_r, mi_c) {
        Quadrant::Whole64(block) => if !cols || !rows {
            state::stopped(t, TileError::WholeRootOutside)
        } else if block.inter is None {
            state::stopped(t, TileError::RootNotInter)
        } else if is_paired(block) {
            state::stopped(t, TileError::RootPaired)
        } else {
            inter_whole(plan, motion, t, block, mi_r, mi_c, 64, table)
        },
        _ => inter_quads(
            plan,
            motion,
            state::said(t, plans::split_ops(table, cols, rows)),
            quads,
            mi_r,
            mi_c,
            4,
        ),
    }
}

/// The first `count` superblocks of a tile in the order they are written.
pub open spec fn inter_sbs(
    plan: FramePlan,
    motion: Seq<MotionContext>,
    t: TileView,
    quads: Seq<Quadrant>,
    order: Seq<SbStep>,
    count: int,
) -> Step
    decreases count,
{
    if count <= 0 {
        state::going(t)
    } else {
        let before = inter_sbs(plan, motion, t, quads, order, count - 1);
        if before.fault is Some {
            before
        } else {
            let s = order[count - 1];
            inter_sb(
                plan,
                motion,
                key_frame::sb_start(plan, before.tile, s),
                quads,
                16 * s.0,
                16 * s.1,
            )
        }
    }
}

/// The first mode of an intra block among the first `count` that no luma block
/// has.
pub open spec fn bad_intra(blocks: Seq<BlockCoeffs>, count: int) -> Option<u8>
    decreases count,
{
    if count <= 0 {
        None
    } else {
        match bad_intra(blocks, count - 1) {
            Some(m) => Some(m),
            None => if blocks[count - 1].inter is None && blocks[count - 1].mode >= INTRA_MODES {
                Some(blocks[count - 1].mode)
            } else {
                None
            },
        }
    }
}

/// The first such mode among the first `count` quadrants.
pub open spec fn bad_quads(quads: Seq<Quadrant>, count: int) -> Option<u8>
    decreases count,
{
    if count <= 0 {
        None
    } else {
        match bad_quads(quads, count - 1) {
            Some(m) => Some(m),
            None => {
                let all = blocks::spec_blocks(quads[count - 1]);
                bad_intra(all, all.len() as int)
            },
        }
    }
}

/// A whole tile of an inter frame: refused for the frame's size, the number of
/// quadrants or a mode, or its superblocks in order.
#[verifier::opaque]
pub open spec fn inter_tile(
    plan: FramePlan,
    motion: Seq<MotionContext>,
    quads: Seq<Quadrant>,
    rect: TileRect,
) -> Step {
    let blank = key_frame::blank_tile(plan, rect);
    let order = key_frame::tile_order(plan, rect);
    if plan.mi_cols == 0 || plan.mi_rows == 0 {
        state::stopped(blank, TileError::NoGrid)
    } else if quads.len() != layout::ceil_div(plan.mi_cols as int, 8) * layout::ceil_div(
        plan.mi_rows as int,
        8,
    ) {
        state::stopped(blank, TileError::InterBlockCount)
    } else {
        match bad_quads(quads, quads.len() as int) {
            Some(mode) => state::stopped(blank, TileError::InterIntraMode(mode)),
            None => inter_sbs(plan, motion, blank, quads, order, order.len() as int),
        }
    }
}

/// Whether a 16x16 block at a position can be coded: its leaves where it has
/// them, one for each quarter inside the frame, or itself where it lies inside.
#[verifier::opaque]
pub open spec fn is_inter_sub(plan: FramePlan, b: BlockCoeffs, mi_r: int, mi_c: int) -> bool {
    match b.eight {
        None => key_frame::has_cols(plan, mi_c, 4) && key_frame::has_rows(plan, mi_r, 4)
            ==> inter_block::is_inter_block(plan, b, 16),
        Some(leaves) => leaves@.len() == children::inside(plan, mi_r, mi_c, 2) ==> forall|i: int|
            0 <= i < leaves@.len() ==> inter_block::is_inter_block(
                plan,
                #[trigger] leaves@[i],
                8,
            ),
    }
}

/// Whether the blocks of a split quadrant at a position can be coded, where
/// there is one for each quarter inside the frame.
#[verifier::opaque]
pub open spec fn are_inter_subs(
    plan: FramePlan,
    blocks: Seq<BlockCoeffs>,
    mi_r: int,
    mi_c: int,
) -> bool {
    blocks.len() == children::inside(plan, mi_r, mi_c, 4) ==> forall|k: int|
        0 <= k < 4 && #[trigger] children::is_inside(plan, mi_r, mi_c, 4, k) ==> is_inter_sub(
            plan,
            blocks[children::inside_before(plan, mi_r, mi_c, 4, k)],
            children::child_r(mi_r, 4, k),
            children::child_c(mi_c, 4, k),
        )
}

/// Whether the blocks of a quadrant at a position can be coded.
pub open spec fn is_inter_quad(plan: FramePlan, q: Quadrant, mi_r: int, mi_c: int) -> bool {
    match q {
        Quadrant::Whole(b) => key_frame::has_cols(plan, mi_c, 8) && key_frame::has_rows(
            plan,
            mi_r,
            8,
        ) ==> inter_block::is_inter_block(plan, b, 32),
        Quadrant::Whole64(b) => b.inter is Some && !is_paired(b) && key_frame::has_cols(
            plan,
            mi_c,
            16,
        ) && key_frame::has_rows(plan, mi_r, 16) ==> inter_block::is_inter_block(plan, b, 64),
        Quadrant::Split(blocks) => are_inter_subs(plan, blocks@, mi_r, mi_c),
        Quadrant::Covered => true,
    }
}

/// Whether the blocks of a frame's quadrants, in raster order, can be coded,
/// where there is one quadrant for each place.
pub open spec fn are_inter_quads(plan: FramePlan, quads: Seq<Quadrant>) -> bool {
    let across = layout::ceil_div(plan.mi_cols as int, 8);
    plan.mi_cols > 0 && plan.mi_rows > 0 && quads.len() == across * layout::ceil_div(
        plan.mi_rows as int,
        8,
    ) ==> forall|i: int|
        0 <= i < quads.len() ==> is_inter_quad(
            plan,
            #[trigger] quads[i],
            8 * (i / across),
            8 * (i % across),
        )
}

proof fn lemma_inter_sub(
    plan: FramePlan,
    blocks: Seq<BlockCoeffs>,
    mi_r: int,
    mi_c: int,
    k: int,
)
    requires
        are_inter_subs(plan, blocks, mi_r, mi_c),
        blocks.len() == children::inside(plan, mi_r, mi_c, 4),
        0 <= k < 4,
        children::is_inside(plan, mi_r, mi_c, 4, k),
    ensures
        is_inter_sub(
            plan,
            blocks[children::inside_before(plan, mi_r, mi_c, 4, k)],
            children::child_r(mi_r, 4, k),
            children::child_c(mi_c, 4, k),
        ),
{
    reveal(are_inter_subs);
}

proof fn lemma_inter_parts(plan: FramePlan, b: BlockCoeffs, mi_r: int, mi_c: int)
    requires
        is_inter_sub(plan, b, mi_r, mi_c),
    ensures
        b.eight is None && key_frame::has_cols(plan, mi_c, 4) && key_frame::has_rows(
            plan,
            mi_r,
            4,
        ) ==> inter_block::is_inter_block(plan, b, 16),
        b.eight matches Some(leaves) ==> (leaves@.len() == children::inside(plan, mi_r, mi_c, 2)
            ==> forall|i: int|
            0 <= i < leaves@.len() ==> inter_block::is_inter_block(
                plan,
                #[trigger] leaves@[i],
                8,
            )),
{
    reveal(is_inter_sub);
}

proof fn lemma_inter_root(plan: FramePlan, b: BlockCoeffs, mi_r: int, mi_c: int)
    requires
        is_inter_quad(plan, Quadrant::Whole64(b), mi_r, mi_c),
        b.inter is Some,
        !is_paired(b),
        key_frame::has_cols(plan, mi_c, 16),
        key_frame::has_rows(plan, mi_r, 16),
    ensures
        inter_block::is_inter_block(plan, b, 64),
{
}

proof fn lemma_inter_quad(plan: FramePlan, quads: Seq<Quadrant>, mi_r: int, mi_c: int)
    requires
        are_inter_quads(plan, quads),
        quads.len() == layout::ceil_div(plan.mi_cols as int, 8) * layout::ceil_div(
            plan.mi_rows as int,
            8,
        ),
        0 <= mi_r < plan.mi_rows,
        0 <= mi_c < plan.mi_cols,
        mi_r % 8 == 0,
        mi_c % 8 == 0,
    ensures
        is_inter_quad(plan, quad_at(plan, quads, mi_r, mi_c), mi_r, mi_c),
{
    lemma_quad_index(plan, mi_r, mi_c);
    let across = layout::ceil_div(plan.mi_cols as int, 8);
    let at = (mi_r / 8) * across + mi_c / 8;
    assert(mi_c / 8 < across);
    vstd::arithmetic::div_mod::lemma_fundamental_div_mod_converse(
        at,
        across,
        mi_r / 8,
        mi_c / 8,
    );
    assert(is_inter_quad(plan, quads[at], 8 * (at / across), 8 * (at % across)));
}

proof fn lemma_leaves_stay(
    plan: FramePlan,
    motion: Seq<MotionContext>,
    t: TileView,
    leaves: Seq<BlockCoeffs>,
    mi_r: int,
    mi_c: int,
    i: int,
    more: int,
)
    requires
        i <= more,
        inter_leaves(plan, motion, t, leaves, mi_r, mi_c, i).fault is Some,
    ensures
        inter_leaves(plan, motion, t, leaves, mi_r, mi_c, more) == inter_leaves(
            plan,
            motion,
            t,
            leaves,
            mi_r,
            mi_c,
            i,
        ),
    decreases more,
{
    if i < more {
        lemma_leaves_stay(plan, motion, t, leaves, mi_r, mi_c, i, more - 1);
    }
}

proof fn lemma_subs_stay(
    plan: FramePlan,
    motion: Seq<MotionContext>,
    t: TileView,
    blocks: Seq<BlockCoeffs>,
    mi_r: int,
    mi_c: int,
    i: int,
    more: int,
)
    requires
        i <= more,
        inter_subs(plan, motion, t, blocks, mi_r, mi_c, i).fault is Some,
    ensures
        inter_subs(plan, motion, t, blocks, mi_r, mi_c, more) == inter_subs(
            plan,
            motion,
            t,
            blocks,
            mi_r,
            mi_c,
            i,
        ),
    decreases more,
{
    if i < more {
        lemma_subs_stay(plan, motion, t, blocks, mi_r, mi_c, i, more - 1);
    }
}

proof fn lemma_quads_stay(
    plan: FramePlan,
    motion: Seq<MotionContext>,
    t: TileView,
    quads: Seq<Quadrant>,
    mi_r: int,
    mi_c: int,
    i: int,
    more: int,
)
    requires
        i <= more,
        inter_quads(plan, motion, t, quads, mi_r, mi_c, i).fault is Some,
    ensures
        inter_quads(plan, motion, t, quads, mi_r, mi_c, more) == inter_quads(
            plan,
            motion,
            t,
            quads,
            mi_r,
            mi_c,
            i,
        ),
    decreases more,
{
    if i < more {
        lemma_quads_stay(plan, motion, t, quads, mi_r, mi_c, i, more - 1);
    }
}

proof fn lemma_sbs_stay(
    plan: FramePlan,
    motion: Seq<MotionContext>,
    t: TileView,
    quads: Seq<Quadrant>,
    order: Seq<SbStep>,
    i: int,
    more: int,
)
    requires
        i <= more,
        inter_sbs(plan, motion, t, quads, order, i).fault is Some,
    ensures
        inter_sbs(plan, motion, t, quads, order, more) == inter_sbs(
            plan,
            motion,
            t,
            quads,
            order,
            i,
        ),
    decreases more,
{
    if i < more {
        lemma_sbs_stay(plan, motion, t, quads, order, i, more - 1);
    }
}

/// Writes one whole block, its partition first.
fn write_whole(
    tile: &mut Tile,
    plan: &FramePlan,
    motion: &Vec<MotionContext>,
    block: &BlockCoeffs,
    mi: (usize, usize),
    side: usize,
    table: Cdf,
    scans: &Scans,
) -> (r: Result<(), TileError>)
    requires
        state::is_tile(old(tile)@),
        plans::is_plan(*plan),
        key_block::are_motions(motion@),
        key_block::is_place(*plan, old(tile)@.bands, mi.0 as int, mi.1 as int, side as int),
        inter_block::is_inter_block(*plan, *block, side as int),
        side == 64 ==> block.inter is Some,
        residual::are_scans(*scans),
    ensures
        state::is_step(
            old(tile)@,
            final(tile)@,
            r,
            inter_whole(
                *plan,
                motion@,
                old(tile)@,
                *block,
                mi.0 as int,
                mi.1 as int,
                side as int,
                table,
            ),
        ),
{
    put(&mut tile.ops, PARTITION_NONE, table);
    write_inter_block(tile, plan, motion, block, mi, side, scans)
}

/// Writes one 8x8 leaf, its partition first.
fn write_leaf(
    tile: &mut Tile,
    plan: &FramePlan,
    motion: &Vec<MotionContext>,
    block: &BlockCoeffs,
    mi: (u32, u32),
    scans: &Scans,
) -> (r: Result<(), TileError>)
    requires
        state::is_tile(old(tile)@),
        plans::is_plan(*plan),
        key_block::are_motions(motion@),
        key_frame::fits(*plan, old(tile)@.bands),
        mi.0 < plan.mi_rows,
        mi.1 < plan.mi_cols,
        mi.0 % 2 == 0,
        mi.1 % 2 == 0,
        inter_block::is_inter_block(*plan, *block, 8),
        residual::are_scans(*scans),
    ensures
        state::is_step(
            old(tile)@,
            final(tile)@,
            r,
            inter_whole(
                *plan,
                motion@,
                old(tile)@,
                *block,
                mi.0 as int,
                mi.1 as int,
                8,
                Cdf::PartitionW8(
                    neighbours::spec_partition_ctx(
                        old(tile)@.bands,
                        mi.0 as int,
                        mi.1 as int,
                        8,
                    ) as usize,
                ),
            ),
        ),
{
    let at: (usize, usize) = (mi.0 as usize, mi.1 as usize);
    let table: Cdf = Cdf::PartitionW8(tile.bands.partition_ctx_mi(at, 8));
    put(&mut tile.ops, PARTITION_NONE, table);
    match write_inter_frame_leaf8(tile, plan, motion, block, at, scans) {
        Ok(_) => Ok(()),
        Err(e) => Err(e),
    }
}

/// Writes the 8x8 leaves of a split 16x16 block.
#[verifier::rlimit(100)]
fn write_inter_leaves(
    tile: &mut Tile,
    plan: &FramePlan,
    motion: &Vec<MotionContext>,
    leaves: &Vec<BlockCoeffs>,
    mi: (u32, u32),
    scans: &Scans,
) -> (r: Result<(), TileError>)
    requires
        state::is_tile(old(tile)@),
        key_block::are_motions(motion@),
        key_frame::fits(*plan, old(tile)@.bands),
        plans::is_plan(*plan),
        mi.0 < plan.mi_rows,
        mi.1 < plan.mi_cols,
        mi.0 % 4 == 0,
        mi.1 % 4 == 0,
        leaves@.len() == children::inside(*plan, mi.0 as int, mi.1 as int, 2),
        forall|i: int|
            0 <= i < leaves@.len() ==> inter_block::is_inter_block(
                *plan,
                #[trigger] leaves@[i],
                8,
            ),
        residual::are_scans(*scans),
    ensures
        state::is_step(
            old(tile)@,
            final(tile)@,
            r,
            inter_leaves(*plan, motion@, old(tile)@, leaves@, mi.0 as int, mi.1 as int, 4),
        ),
{
    let ghost start = tile@;
    let mut next: usize = 0;
    let mut i: u32 = 0;
    while i < 4
        invariant
            i <= 4,
            start == old(tile)@,
            state::is_tile(tile@),
            state::same_frame(start.bands, tile@.bands),
            key_frame::fits(*plan, start.bands),
            plans::is_plan(*plan),
            key_block::are_motions(motion@),
            mi.0 < plan.mi_rows,
            mi.1 < plan.mi_cols,
            mi.0 % 4 == 0,
            mi.1 % 4 == 0,
            residual::are_scans(*scans),
            leaves@.len() == children::inside(*plan, mi.0 as int, mi.1 as int, 2),
            forall|k: int|
                0 <= k < leaves@.len() ==> inter_block::is_inter_block(
                    *plan,
                    #[trigger] leaves@[k],
                    8,
                ),
            next == children::inside_before(*plan, mi.0 as int, mi.1 as int, 2, i as int),
            inter_leaves(
                *plan,
                motion@,
                start,
                leaves@,
                mi.0 as int,
                mi.1 as int,
                i as int,
            ) == state::going(tile@),
        decreases 4 - i,
    {
        if child_inside(plan, mi.0, mi.1, 2, i) {
            proof {
                children::lemma_inside_before(
                    *plan,
                    mi.0 as int,
                    mi.1 as int,
                    2,
                    i as int,
                );
            }
            let at: (u32, u32) = child_at(mi, 2, i);
            let done = write_leaf(tile, plan, motion, &leaves[next], at, scans);
            if done.is_err() {
                proof {
                    lemma_leaves_stay(
                        *plan,
                        motion@,
                        start,
                        leaves@,
                        mi.0 as int,
                        mi.1 as int,
                        i + 1,
                        4,
                    );
                }
                return done;
            }
            next += 1;
        }
        i += 1;
    }
    Ok(())
}

/// Writes one 16x16 block of an inter frame.
#[verifier::rlimit(100)]
fn write_inter_sub(
    tile: &mut Tile,
    plan: &FramePlan,
    motion: &Vec<MotionContext>,
    block: &BlockCoeffs,
    mi: (u32, u32),
    scans: &Scans,
) -> (r: Result<(), TileError>)
    requires
        state::is_tile(old(tile)@),
        key_block::are_motions(motion@),
        key_frame::fits(*plan, old(tile)@.bands),
        plans::is_plan(*plan),
        mi.0 < plan.mi_rows,
        mi.1 < plan.mi_cols,
        mi.0 % 4 == 0,
        mi.1 % 4 == 0,
        is_inter_sub(*plan, *block, mi.0 as int, mi.1 as int),
        residual::are_scans(*scans),
    ensures
        state::is_step(
            old(tile)@,
            final(tile)@,
            r,
            inter_sub(*plan, motion@, old(tile)@, *block, mi.0 as int, mi.1 as int),
        ),
{
    proof {
        reveal(inter_sub);
        lemma_inter_parts(*plan, *block, mi.0 as int, mi.1 as int);
    }
    let cols: bool = has_half(mi.1, 4, plan.mi_cols);
    let rows: bool = has_half(mi.0, 4, plan.mi_rows);
    let at: (usize, usize) = (mi.0 as usize, mi.1 as usize);
    let ctx: usize = tile.bands.partition_ctx_mi(at, 16);
    let table: Cdf = Cdf::PartitionW16(ctx);
    match &block.eight {
        None => {
            if cols && rows {
                put(&mut tile.ops, PARTITION_NONE, table);
                return write_inter_frame_leaf(
                    tile,
                    plan,
                    motion,
                    block,
                    (at.0 / 4, at.1 / 4),
                    scans,
                );
            }
            write_split(&mut tile.ops, table, cols, rows);
            Err(TileError::InterEightMissing)
        },
        Some(leaves) => {
            if cols && rows && leaves.len() != 4 {
                return Err(TileError::InterSplitCount);
            }
            write_split(&mut tile.ops, table, cols, rows);
            if leaves.len() != children_inside(plan, mi.0, mi.1, 2) {
                return Err(TileError::InterEightCount);
            }
            write_inter_leaves(tile, plan, motion, leaves, mi, scans)
        },
    }
}

/// Writes the blocks of a split quadrant.
#[verifier::rlimit(100)]
fn write_inter_subs(
    tile: &mut Tile,
    plan: &FramePlan,
    motion: &Vec<MotionContext>,
    blocks: &Vec<BlockCoeffs>,
    mi: (u32, u32),
    scans: &Scans,
) -> (r: Result<(), TileError>)
    requires
        state::is_tile(old(tile)@),
        key_block::are_motions(motion@),
        key_frame::fits(*plan, old(tile)@.bands),
        plans::is_plan(*plan),
        mi.0 < plan.mi_rows,
        mi.1 < plan.mi_cols,
        mi.0 % 8 == 0,
        mi.1 % 8 == 0,
        blocks@.len() == children::inside(*plan, mi.0 as int, mi.1 as int, 4),
        are_inter_subs(*plan, blocks@, mi.0 as int, mi.1 as int),
        residual::are_scans(*scans),
    ensures
        state::is_step(
            old(tile)@,
            final(tile)@,
            r,
            inter_subs(*plan, motion@, old(tile)@, blocks@, mi.0 as int, mi.1 as int, 4),
        ),
{
    let ghost start = tile@;
    let mut next: usize = 0;
    let mut i: u32 = 0;
    while i < 4
        invariant
            i <= 4,
            start == old(tile)@,
            state::is_tile(tile@),
            state::same_frame(start.bands, tile@.bands),
            key_frame::fits(*plan, start.bands),
            plans::is_plan(*plan),
            key_block::are_motions(motion@),
            mi.0 < plan.mi_rows,
            mi.1 < plan.mi_cols,
            mi.0 % 8 == 0,
            mi.1 % 8 == 0,
            residual::are_scans(*scans),
            blocks@.len() == children::inside(*plan, mi.0 as int, mi.1 as int, 4),
            are_inter_subs(*plan, blocks@, mi.0 as int, mi.1 as int),
            next == children::inside_before(*plan, mi.0 as int, mi.1 as int, 4, i as int),
            inter_subs(
                *plan,
                motion@,
                start,
                blocks@,
                mi.0 as int,
                mi.1 as int,
                i as int,
            ) == state::going(tile@),
        decreases 4 - i,
    {
        if child_inside(plan, mi.0, mi.1, 4, i) {
            proof {
                children::lemma_inside_before(
                    *plan,
                    mi.0 as int,
                    mi.1 as int,
                    4,
                    i as int,
                );
                lemma_inter_sub(*plan, blocks@, mi.0 as int, mi.1 as int, i as int);
            }
            let at: (u32, u32) = child_at(mi, 4, i);
            let done = write_inter_sub(tile, plan, motion, &blocks[next], at, scans);
            if done.is_err() {
                proof {
                    lemma_subs_stay(
                        *plan,
                        motion@,
                        start,
                        blocks@,
                        mi.0 as int,
                        mi.1 as int,
                        i + 1,
                        4,
                    );
                }
                return done;
            }
            next += 1;
        }
        i += 1;
    }
    Ok(())
}

/// Writes one 32x32 quadrant of an inter frame.
fn write_inter_quad(
    tile: &mut Tile,
    plan: &FramePlan,
    motion: &Vec<MotionContext>,
    quad: &Quadrant,
    mi: (u32, u32),
    scans: &Scans,
) -> (r: Result<(), TileError>)
    requires
        state::is_tile(old(tile)@),
        key_block::are_motions(motion@),
        key_frame::fits(*plan, old(tile)@.bands),
        plans::is_plan(*plan),
        mi.0 < plan.mi_rows,
        mi.1 < plan.mi_cols,
        mi.0 % 8 == 0,
        mi.1 % 8 == 0,
        is_inter_quad(*plan, *quad, mi.0 as int, mi.1 as int),
        residual::are_scans(*scans),
    ensures
        state::is_step(
            old(tile)@,
            final(tile)@,
            r,
            inter_quad(*plan, motion@, old(tile)@, *quad, mi.0 as int, mi.1 as int),
        ),
{
    proof {
        reveal(inter_quad);
    }
    let cols: bool = has_half(mi.1, 8, plan.mi_cols);
    let rows: bool = has_half(mi.0, 8, plan.mi_rows);
    let at: (usize, usize) = (mi.0 as usize, mi.1 as usize);
    let ctx: usize = tile.bands.partition_ctx_mi(at, 32);
    let table: Cdf = Cdf::PartitionW32(ctx);
    match quad {
        Quadrant::Whole64(_) => Err(TileError::StrayWhole64),
        Quadrant::Covered => Err(TileError::StrayWhole64),
        Quadrant::Whole(block) => {
            if !cols || !rows {
                return Err(TileError::WholeQuadrantOutside);
            }
            write_whole(tile, plan, motion, block, at, 32, table, scans)
        },
        Quadrant::Split(blocks) => {
            if blocks.len() != children_inside(plan, mi.0, mi.1, 4) {
                return Err(TileError::InterSubBlockCount);
            }
            write_split(&mut tile.ops, table, cols, rows);
            write_inter_subs(tile, plan, motion, blocks, mi, scans)
        },
    }
}

proof fn lemma_quad_index(plan: FramePlan, mi_r: int, mi_c: int)
    requires
        0 <= mi_r < plan.mi_rows,
        0 <= mi_c < plan.mi_cols,
    ensures
        0 <= (mi_r / 8) * layout::ceil_div(plan.mi_cols as int, 8) + mi_c / 8
            < layout::ceil_div(plan.mi_cols as int, 8) * layout::ceil_div(
            plan.mi_rows as int,
            8,
        ),
{
    let cols = layout::ceil_div(plan.mi_cols as int, 8);
    let rows = layout::ceil_div(plan.mi_rows as int, 8);
    let r = mi_r / 8;
    let c = mi_c / 8;
    assert(0 <= r < rows && 0 <= c < cols);
    assert(0 <= r * cols + c < cols * rows) by (nonlinear_arith)
        requires
            0 <= r < rows,
            0 <= c < cols,
    ;
}

/// The quadrant at a unit row and column.
fn quad_of<'a>(plan: &FramePlan, quads: &'a [Quadrant], mi: (u32, u32)) -> (q: &'a Quadrant)
    requires
        mi.0 < plan.mi_rows,
        mi.1 < plan.mi_cols,
        mi.0 % 8 == 0,
        mi.1 % 8 == 0,
        quads@.len() == layout::ceil_div(plan.mi_cols as int, 8) * layout::ceil_div(
            plan.mi_rows as int,
            8,
        ),
        are_inter_quads(*plan, quads@),
    ensures
        *q == quad_at(*plan, quads@, mi.0 as int, mi.1 as int),
        is_inter_quad(*plan, *q, mi.0 as int, mi.1 as int),
{
    let (cols, rows): (u32, u32) = block_grid(plan.mi_cols, plan.mi_rows);
    proof {
        lemma_quad_index(*plan, mi.0 as int, mi.1 as int);
        assert(quads@.len() == quads.len());
    }
    let at: usize = (mi.0 / 8) as usize * cols as usize + (mi.1 / 8) as usize;
    proof {
        lemma_inter_quad(*plan, quads@, mi.0 as int, mi.1 as int);
    }
    &quads[at]
}

/// Writes the quadrants of a split superblock.
#[verifier::rlimit(100)]
fn write_inter_quads(
    tile: &mut Tile,
    plan: &FramePlan,
    motion: &Vec<MotionContext>,
    quads: &[Quadrant],
    mi: (u32, u32),
    scans: &Scans,
) -> (r: Result<(), TileError>)
    requires
        state::is_tile(old(tile)@),
        key_block::are_motions(motion@),
        key_frame::fits(*plan, old(tile)@.bands),
        plans::is_plan(*plan),
        mi.0 < plan.mi_rows,
        mi.1 < plan.mi_cols,
        mi.0 % 16 == 0,
        mi.1 % 16 == 0,
        quads@.len() == layout::ceil_div(plan.mi_cols as int, 8) * layout::ceil_div(
            plan.mi_rows as int,
            8,
        ),
        are_inter_quads(*plan, quads@),
        residual::are_scans(*scans),
    ensures
        state::is_step(
            old(tile)@,
            final(tile)@,
            r,
            inter_quads(*plan, motion@, old(tile)@, quads@, mi.0 as int, mi.1 as int, 4),
        ),
{
    let ghost start = tile@;
    let mut i: u32 = 0;
    while i < 4
        invariant
            i <= 4,
            start == old(tile)@,
            state::is_tile(tile@),
            state::same_frame(start.bands, tile@.bands),
            key_frame::fits(*plan, start.bands),
            plans::is_plan(*plan),
            key_block::are_motions(motion@),
            mi.0 < plan.mi_rows,
            mi.1 < plan.mi_cols,
            mi.0 % 16 == 0,
            mi.1 % 16 == 0,
            residual::are_scans(*scans),
            quads@.len() == layout::ceil_div(plan.mi_cols as int, 8) * layout::ceil_div(
                plan.mi_rows as int,
                8,
            ),
            are_inter_quads(*plan, quads@),
            inter_quads(
                *plan,
                motion@,
                start,
                quads@,
                mi.0 as int,
                mi.1 as int,
                i as int,
            ) == state::going(tile@),
        decreases 4 - i,
    {
        if child_inside(plan, mi.0, mi.1, 8, i) {
            let at: (u32, u32) = child_at(mi, 8, i);
            let quad: &Quadrant = quad_of(plan, quads, at);
            let done = write_inter_quad(tile, plan, motion, quad, at, scans);
            if done.is_err() {
                proof {
                    lemma_quads_stay(
                        *plan,
                        motion@,
                        start,
                        quads@,
                        mi.0 as int,
                        mi.1 as int,
                        i + 1,
                        4,
                    );
                }
                return done;
            }
        }
        i += 1;
    }
    Ok(())
}

/// Writes one superblock of an inter frame.
#[verifier::rlimit(100)]
fn write_inter_sb(
    tile: &mut Tile,
    plan: &FramePlan,
    motion: &Vec<MotionContext>,
    quads: &[Quadrant],
    mi: (u32, u32),
    scans: &Scans,
) -> (r: Result<(), TileError>)
    requires
        state::is_tile(old(tile)@),
        key_block::are_motions(motion@),
        key_frame::fits(*plan, old(tile)@.bands),
        plans::is_plan(*plan),
        mi.0 < plan.mi_rows,
        mi.1 < plan.mi_cols,
        mi.0 % 16 == 0,
        mi.1 % 16 == 0,
        quads@.len() == layout::ceil_div(plan.mi_cols as int, 8) * layout::ceil_div(
            plan.mi_rows as int,
            8,
        ),
        are_inter_quads(*plan, quads@),
        residual::are_scans(*scans),
    ensures
        state::is_step(
            old(tile)@,
            final(tile)@,
            r,
            inter_sb(*plan, motion@, old(tile)@, quads@, mi.0 as int, mi.1 as int),
        ),
{
    proof {
        reveal(inter_sb);
    }
    let cols: bool = has_half(mi.1, 16, plan.mi_cols);
    let rows: bool = has_half(mi.0, 16, plan.mi_rows);
    let at: (usize, usize) = (mi.0 as usize, mi.1 as usize);
    let ctx: usize = tile.bands.partition_ctx_mi(at, 64);
    let table: Cdf = Cdf::PartitionW64(ctx);
    if let Quadrant::Whole64(block) = quad_of(plan, quads, mi) {
        if !cols || !rows {
            return Err(TileError::WholeRootOutside);
        }
        match &block.inter {
            None => {
                return Err(TileError::RootNotInter);
            },
            Some(info) => {
                if info.ref1.is_some() {
                    return Err(TileError::RootPaired);
                }
            },
        }
        proof {
            lemma_inter_root(*plan, *block, mi.0 as int, mi.1 as int);
        }
        return write_whole(tile, plan, motion, block, at, 64, table, scans);
    }
    write_split(&mut tile.ops, table, cols, rows);
    write_inter_quads(tile, plan, motion, quads, mi, scans)
}

fn first_bad_intra(blocks: &[BlockCoeffs]) -> (bad: Option<u8>)
    ensures
        bad == bad_intra(blocks@, blocks@.len() as int),
{
    let mut bad: Option<u8> = None;
    let mut i: usize = 0;
    while i < blocks.len()
        invariant
            i <= blocks@.len(),
            bad == bad_intra(blocks@, i as int),
        decreases blocks@.len() - i,
    {
        if bad.is_none() && blocks[i].inter.is_none() && blocks[i].mode as usize >= INTRA_MODES {
            bad = Some(blocks[i].mode);
        }
        i += 1;
    }
    bad
}

fn first_bad_quad(quad: &Quadrant) -> (bad: Option<u8>)
    ensures
        bad == bad_intra(
            blocks::spec_blocks(*quad),
            blocks::spec_blocks(*quad).len() as int,
        ),
{
    let block: &BlockCoeffs = match quad {
        Quadrant::Whole(block) => block,
        Quadrant::Whole64(block) => block,
        Quadrant::Split(blocks) => {
            return first_bad_intra(blocks.as_slice());
        },
        Quadrant::Covered => {
            return None;
        },
    };
    proof {
        assert(blocks::spec_blocks(*quad) =~= seq![*block]);
        reveal_with_fuel(bad_intra, 2);
    }
    if block.inter.is_none() && block.mode as usize >= INTRA_MODES {
        Some(block.mode)
    } else {
        None
    }
}

fn first_bad_of(quads: &[Quadrant]) -> (bad: Option<u8>)
    ensures
        bad == bad_quads(quads@, quads@.len() as int),
{
    let mut bad: Option<u8> = None;
    let mut i: usize = 0;
    while i < quads.len()
        invariant
            i <= quads@.len(),
            bad == bad_quads(quads@, i as int),
        decreases quads@.len() - i,
    {
        if bad.is_none() {
            bad = first_bad_quad(&quads[i]);
        }
        i += 1;
    }
    bad
}

/// Writes one tile of an inter frame, whose 32x32 quadrants come in raster
/// order across the frame. Where a block's candidate vectors are not among
/// those given, the writer stops there; what the tile recorded until then is
/// what they follow from.
#[verifier::rlimit(100)]
pub fn sb_coeff_inter_frame_tile_cdfs(
    plan: &FramePlan,
    motion: &Vec<MotionContext>,
    quads: &[Quadrant],
    rect: TileRect,
) -> (r: (Tile, Result<(), TileError>))
    requires
        plans::is_plan(*plan),
        key_block::are_motions(motion@),
        are_inter_quads(*plan, quads@),
    ensures
        state::is_step(
            key_frame::blank_tile(*plan, rect),
            r.0@,
            r.1,
            inter_tile(*plan, motion@, quads@, rect),
        ),
{
    proof {
        reveal(inter_tile);
    }
    let mut tile: Tile = blank(plan, rect);
    let ghost start = tile@;
    if let Err(e) = check_blocks(plan.mi_cols, plan.mi_rows) {
        return (tile, Err(e));
    }
    let (cols, rows): (u32, u32) = block_grid(plan.mi_cols, plan.mi_rows);
    proof {
        assert(0 <= cols * rows <= 0x2000_0000 * 0x2000_0000) by (nonlinear_arith)
            requires
                cols <= 0x2000_0000,
                rows <= 0x2000_0000,
        ;
    }
    if quads.len() as u64 != cols as u64 * rows as u64 {
        return (tile, Err(TileError::InterBlockCount));
    }
    if let Some(mode) = first_bad_of(quads) {
        return (tile, Err(TileError::InterIntraMode(mode)));
    }
    let scans: Scans = Scans::new();
    let order: Vec<SbStep> = order_of(plan, rect);
    let mut i: usize = 0;
    while i < order.len()
        invariant
            i <= order@.len(),
            order@ == key_frame::tile_order(*plan, rect),
            forall|k: int|
                0 <= k < order@.len() ==> {
                    let s = #[trigger] order@[k];
                    &&& 16 * s.0 < plan.mi_rows
                    &&& 16 * s.1 < plan.mi_cols
                },
            plans::is_plan(*plan),
            key_block::are_motions(motion@),
            are_inter_quads(*plan, quads@),
            quads@.len() == layout::ceil_div(plan.mi_cols as int, 8) * layout::ceil_div(
                plan.mi_rows as int,
                8,
            ),
            start == key_frame::blank_tile(*plan, rect),
            state::is_tile(tile@),
            state::same_frame(start.bands, tile@.bands),
            key_frame::fits(*plan, start.bands),
            residual::are_scans(scans),
            inter_tile(*plan, motion@, quads@, rect) == inter_sbs(
                *plan,
                motion@,
                start,
                quads@,
                order@,
                order@.len() as int,
            ),
            inter_sbs(*plan, motion@, start, quads@, order@, i as int) == state::going(tile@),
        decreases order@.len() - i,
    {
        let s: SbStep = order[i];
        write_sb_start(&mut tile, plan, s);
        let done = write_inter_sb(
            &mut tile,
            plan,
            motion,
            quads,
            (s.0 * 16, s.1 * 16),
            &scans,
        );
        if done.is_err() {
            proof {
                lemma_sbs_stay(
                    *plan,
                    motion@,
                    start,
                    quads@,
                    order@,
                    i + 1,
                    order@.len() as int,
                );
            }
            return (tile, done);
        }
        i += 1;
    }
    (tile, Ok(()))
}

/// Whether a trace is that of an inter frame of one tile that uses none of the
/// optional tools.
pub open spec fn is_inter_trace(
    mi_cols: u32,
    mi_rows: u32,
    base_q_idx: u8,
    quads: Seq<Quadrant>,
    motion: Seq<MotionContext>,
    tx_select: bool,
    r: Result<Trace, TileError>,
) -> bool {
    let step = inter_tile(
        key_tile::spec_plain(mi_cols, mi_rows, tx_select),
        motion,
        quads,
        tiles::spec_whole(mi_cols as int, mi_rows as int),
    );
    match step.fault {
        Some(e) => r == Err::<Trace, TileError>(e),
        None => r matches Ok(t) && t.q_ctx == layout::spec_q_ctx(base_q_idx as int) && t.ops@
            == step.tile.ops,
    }
}

/// Writes an inter frame of one tile.
pub fn sb_coeff_inter_frame_tile(
    mi_cols: u32,
    mi_rows: u32,
    base_q_idx: u8,
    quads: &[Quadrant],
    motion: &Vec<MotionContext>,
) -> (r: Result<Trace, TileError>)
    requires
        mi_cols <= layout::MAX_MI,
        mi_rows <= layout::MAX_MI,
        key_block::are_motions(motion@),
        are_inter_quads(key_tile::spec_plain(mi_cols, mi_rows, false), quads@),
    ensures
        is_inter_trace(mi_cols, mi_rows, base_q_idx, quads@, motion@, false, r),
{
    sb_coeff_inter_frame_tile_tx(mi_cols, mi_rows, base_q_idx, quads, motion, false)
}

/// Writes an inter frame of one tile in which each block may choose a smaller
/// transform, where `tx_select` says so.
pub fn sb_coeff_inter_frame_tile_tx(
    mi_cols: u32,
    mi_rows: u32,
    base_q_idx: u8,
    quads: &[Quadrant],
    motion: &Vec<MotionContext>,
    tx_select: bool,
) -> (r: Result<Trace, TileError>)
    requires
        mi_cols <= layout::MAX_MI,
        mi_rows <= layout::MAX_MI,
        key_block::are_motions(motion@),
        are_inter_quads(key_tile::spec_plain(mi_cols, mi_rows, tx_select), quads@),
    ensures
        is_inter_trace(mi_cols, mi_rows, base_q_idx, quads@, motion@, tx_select, r),
{
    let plan: FramePlan = FramePlan::plain(mi_cols, mi_rows, tx_select);
    let (tile, done) = sb_coeff_inter_frame_tile_cdfs(
        &plan,
        motion,
        quads,
        TileRect::whole(mi_cols, mi_rows),
    );
    match done {
        Err(e) => Err(e),
        Ok(_) => Ok(Trace { q_ctx: q_ctx_of(base_q_idx), ops: tile.ops }),
    }
}

} // verus!
