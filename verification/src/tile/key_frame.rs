//! A tile of a key frame.
use crate::tile::blocks;
use crate::tile::blocks::{BlockCoeffs, Quadrant, Superblock};
use crate::tile::children;
use crate::tile::children::{child_at, child_inside, children_inside};
use crate::tile::error::TileError;
use crate::tile::key_block;
use crate::tile::key_block::write_block;
use crate::tile::layout;
use crate::tile::layout::{has_half, SbStep};
use crate::tile::motion::MotionContext;
use crate::tile::neighbours;
use crate::tile::neighbours::{Bands, DC_PRED, INTRA_MODES};
use crate::tile::ops;
use crate::tile::ops::{put, Cdf};
use crate::tile::plans;
use crate::tile::plans::{
    write_lr, write_sb128_root, write_split, FramePlan, PARTITION_NONE,
};
use crate::tile::residual;
use crate::tile::residual::Scans;
use crate::tile::state;
use crate::tile::state::{Step, Tile, TileView};
use crate::tile::tiles::TileRect;
use vstd::prelude::*;

verus! {

/// One superblock of a key frame, as values.
pub enum SbView {
    /// One block.
    Whole(BlockCoeffs),
    /// Its quadrants.
    Split(Seq<Quadrant>),
}

/// A superblock as values.
pub open spec fn sb_view(s: Superblock) -> SbView {
    match s {
        Superblock::Whole(b) => SbView::Whole(b),
        Superblock::Split(qs) => SbView::Split(qs@),
    }
}

/// A frame's superblocks as values.
pub open spec fn sb_views(sbs: Seq<Superblock>) -> Seq<SbView> {
    Seq::new(sbs.len(), |i: int| sb_view(sbs[i]))
}

/// A quadrant, borrowed whole or made of a borrowed block.
pub enum QuadRef<'a> {
    /// A quadrant.
    Given(&'a Quadrant),
    /// A quadrant that is one block.
    Whole(&'a BlockCoeffs),
}

impl<'a> View for QuadRef<'a> {
    type V = Quadrant;

    open spec fn view(&self) -> Quadrant {
        match *self {
            QuadRef::Given(q) => *q,
            QuadRef::Whole(b) => Quadrant::Whole(*b),
        }
    }
}

/// A superblock, borrowed.
pub enum SbRef<'a> {
    /// One block.
    Whole(&'a BlockCoeffs),
    /// Its quadrants.
    Split(Vec<QuadRef<'a>>),
}

/// Borrowed quadrants as values.
pub open spec fn quad_refs(qs: Seq<QuadRef>) -> Seq<Quadrant> {
    Seq::new(qs.len(), |i: int| qs[i]@)
}

impl<'a> View for SbRef<'a> {
    type V = SbView;

    open spec fn view(&self) -> SbView {
        match *self {
            SbRef::Whole(b) => SbView::Whole(*b),
            SbRef::Split(qs) => SbView::Split(quad_refs(qs@)),
        }
    }
}

/// Borrowed superblocks as values.
pub open spec fn sb_refs(sbs: Seq<SbRef>) -> Seq<SbView> {
    Seq::new(sbs.len(), |i: int| sbs[i]@)
}

/// The mode among the first `count` blocks that no luma block has.
pub open spec fn bad_leaf(leaves: Seq<BlockCoeffs>, count: int) -> Option<u8>
    decreases count,
{
    if count <= 0 {
        None
    } else {
        match bad_leaf(leaves, count - 1) {
            Some(m) => Some(m),
            None => if leaves[count - 1].mode >= INTRA_MODES {
                Some(leaves[count - 1].mode)
            } else {
                None
            },
        }
    }
}

/// The mode of a block, or of its leaves where it has them, that no luma block
/// has.
pub open spec fn bad_block(b: BlockCoeffs) -> Option<u8> {
    match b.eight {
        Some(leaves) => bad_leaf(leaves@, leaves@.len() as int),
        None => if b.mode >= INTRA_MODES {
            Some(b.mode)
        } else {
            None
        },
    }
}

/// The first such mode among the first `count` blocks.
pub open spec fn bad_blocks(blocks: Seq<BlockCoeffs>, count: int) -> Option<u8>
    decreases count,
{
    if count <= 0 {
        None
    } else {
        match bad_blocks(blocks, count - 1) {
            Some(m) => Some(m),
            None => bad_block(blocks[count - 1]),
        }
    }
}

/// The first such mode of a quadrant.
pub open spec fn bad_quad(q: Quadrant) -> Option<u8> {
    let all = blocks::spec_blocks(q);
    bad_blocks(all, all.len() as int)
}

/// The first such mode among the first `count` quadrants.
pub open spec fn bad_quads(quads: Seq<Quadrant>, count: int) -> Option<u8>
    decreases count,
{
    if count <= 0 {
        None
    } else {
        match bad_quads(quads, count - 1) {
            Some(m) => Some(m),
            None => bad_quad(quads[count - 1]),
        }
    }
}

/// The first such mode of a superblock.
pub open spec fn bad_sb(s: SbView) -> Option<u8> {
    match s {
        SbView::Whole(b) => if b.mode >= INTRA_MODES {
            Some(b.mode)
        } else {
            None
        },
        SbView::Split(quads) => bad_quads(quads, quads.len() as int),
    }
}

/// The first such mode among the first `count` superblocks.
pub open spec fn bad_sbs(sbs: Seq<SbView>, count: int) -> Option<u8>
    decreases count,
{
    if count <= 0 {
        None
    } else {
        match bad_sbs(sbs, count - 1) {
            Some(m) => Some(m),
            None => bad_sb(sbs[count - 1]),
        }
    }
}

/// The luma mode a leaf is read as.
pub open spec fn leaf_mode(b: BlockCoeffs) -> usize {
    if b.dv is Some {
        DC_PRED
    } else {
        b.mode as usize
    }
}

/// The leaf coded last: where it starts and its mode.
pub struct LastLeaf {
    /// Its first unit row.
    pub mi_r: int,
    /// Its first unit column.
    pub mi_c: int,
    /// Its mode.
    pub mode: usize,
}

/// A tile between leaves.
#[verifier::ext_equal]
pub struct LeafStep {
    /// The tile.
    pub step: Step,
    /// The leaf coded last.
    pub last: Option<LastLeaf>,
}

/// The luma mode above a leaf: the last leaf's where it is right above, else
/// the one its 16x16 block reads.
pub open spec fn leaf_above(b: Bands, last: Option<LastLeaf>, mi_r: int, mi_c: int) -> int {
    match last {
        Some(l) => if l.mi_c == mi_c && mi_r == l.mi_r + 2 {
            l.mode as int
        } else {
            b.above_mode[mi_c / 4] as int
        },
        None => b.above_mode[mi_c / 4] as int,
    }
}

/// The luma mode to its left.
pub open spec fn leaf_left(b: Bands, last: Option<LastLeaf>, mi_r: int, mi_c: int) -> int {
    match last {
        Some(l) => if !(l.mi_c == mi_c && mi_r == l.mi_r + 2) && l.mi_r == mi_r && mi_c == l.mi_c
            + 2 {
            l.mode as int
        } else {
            b.left_mode[mi_r / 4] as int
        },
        None => b.left_mode[mi_r / 4] as int,
    }
}

/// The first `i` quarters of a 16x16 block across the frame's edge, each that
/// is inside as an 8x8 leaf.
pub open spec fn key_leaves(
    plan: FramePlan,
    motion: Seq<MotionContext>,
    t: TileView,
    leaves: Seq<BlockCoeffs>,
    mi_r: int,
    mi_c: int,
    i: int,
) -> LeafStep
    decreases i,
{
    if i <= 0 {
        LeafStep { step: state::going(t), last: None }
    } else {
        let before = key_leaves(plan, motion, t, leaves, mi_r, mi_c, i - 1);
        if before.step.fault is Some || !children::is_inside(plan, mi_r, mi_c, 2, i - 1) {
            before
        } else {
            let b = before.step.tile.bands;
            let leaf = leaves[children::inside_before(plan, mi_r, mi_c, 2, i - 1)];
            let r = children::child_r(mi_r, 2, i - 1);
            let c = children::child_c(mi_c, 2, i - 1);
            let ctx = neighbours::spec_partition_ctx(b, r, c, 8);
            let partition = TileView {
                ops: before.step.tile.ops.push(
                    ops::symbol(0, Cdf::PartitionW8(ctx as usize)),
                ),
                ..before.step.tile
            };
            LeafStep {
                step: key_block::key_block(
                    plan,
                    motion,
                    partition,
                    leaf,
                    r,
                    c,
                    8,
                    leaf_above(b, before.last, r, c),
                    leaf_left(b, before.last, r, c),
                ),
                last: Some(LastLeaf { mi_r: r, mi_c: c, mode: leaf_mode(leaf) }),
            }
        }
    }
}

/// One whole block, its partition first, in the context of the modes beside
/// it.
pub open spec fn key_whole(
    plan: FramePlan,
    motion: Seq<MotionContext>,
    t: TileView,
    block: BlockCoeffs,
    mi_r: int,
    mi_c: int,
    side: int,
    table: Cdf,
) -> Step {
    key_block::key_block(
        plan,
        motion,
        TileView { ops: t.ops.push(ops::symbol(0, table)), ..t },
        block,
        mi_r,
        mi_c,
        side,
        t.bands.above_mode[mi_c / 4] as int,
        t.bands.left_mode[mi_r / 4] as int,
    )
}

/// Whether a block's right half starts inside the frame.
pub open spec fn has_cols(plan: FramePlan, mi_c: int, side_mi: int) -> bool {
    layout::spec_has_half(mi_c, side_mi, plan.mi_cols as int)
}

/// Whether its lower half does.
pub open spec fn has_rows(plan: FramePlan, mi_r: int, side_mi: int) -> bool {
    layout::spec_has_half(mi_r, side_mi, plan.mi_rows as int)
}

/// One 16x16 block: whole where both its halves are inside the frame, else its
/// leaves, the last of which leaves its mode for the whole block.
#[verifier::opaque]
pub open spec fn key_sub(
    plan: FramePlan,
    motion: Seq<MotionContext>,
    t: TileView,
    block: BlockCoeffs,
    mi_r: int,
    mi_c: int,
) -> Step {
    let cols = has_cols(plan, mi_c, 4);
    let rows = has_rows(plan, mi_r, 4);
    let table = Cdf::PartitionW16(
        neighbours::spec_partition_ctx(t.bands, mi_r, mi_c, 16) as usize,
    );
    if cols && rows {
        key_whole(plan, motion, t, block, mi_r, mi_c, 16, table)
    } else {
        let split = state::said(t, plans::split_ops(table, cols, rows));
        match block.eight {
            None => state::stopped(split, TileError::EightMissing),
            Some(leaves) => if leaves@.len() != children::inside(plan, mi_r, mi_c, 2) {
                state::stopped(split, TileError::EightCount)
            } else {
                let done = key_leaves(plan, motion, split, leaves@, mi_r, mi_c, 4);
                match (done.step.fault, done.last) {
                    (None, Some(l)) => state::going(
                        state::banded(
                            done.step.tile,
                            neighbours::after_mode(
                                done.step.tile.bands,
                                mi_r / 4,
                                mi_c / 4,
                                1,
                                l.mode,
                            ),
                        ),
                    ),
                    _ => done.step,
                }
            },
        }
    }
}

/// The first `i` quarters of a split 32x32 block.
pub open spec fn key_subs(
    plan: FramePlan,
    motion: Seq<MotionContext>,
    t: TileView,
    blocks: Seq<BlockCoeffs>,
    mi_r: int,
    mi_c: int,
    i: int,
) -> Step
    decreases i,
{
    if i <= 0 {
        state::going(t)
    } else {
        let before = key_subs(plan, motion, t, blocks, mi_r, mi_c, i - 1);
        if before.fault is Some || !children::is_inside(plan, mi_r, mi_c, 4, i - 1) {
            before
        } else {
            key_sub(
                plan,
                motion,
                before.tile,
                blocks[children::inside_before(plan, mi_r, mi_c, 4, i - 1)],
                children::child_r(mi_r, 4, i - 1),
                children::child_c(mi_c, 4, i - 1),
            )
        }
    }
}

/// One 32x32 quadrant.
#[verifier::opaque]
pub open spec fn key_quad(
    plan: FramePlan,
    motion: Seq<MotionContext>,
    t: TileView,
    quad: Quadrant,
    mi_r: int,
    mi_c: int,
) -> Step {
    let cols = has_cols(plan, mi_c, 8);
    let rows = has_rows(plan, mi_r, 8);
    let table = Cdf::PartitionW32(
        neighbours::spec_partition_ctx(t.bands, mi_r, mi_c, 32) as usize,
    );
    match quad {
        Quadrant::Whole64(_) | Quadrant::Covered => state::stopped(t, TileError::KeyWhole64),
        Quadrant::Whole(block) => if !cols || !rows {
            state::stopped(t, TileError::WholeQuadrantOutside)
        } else {
            key_whole(plan, motion, t, block, mi_r, mi_c, 32, table)
        },
        Quadrant::Split(blocks) => if blocks@.len() != children::inside(plan, mi_r, mi_c, 4) {
            state::stopped(t, TileError::SubBlockCount)
        } else {
            key_subs(
                plan,
                motion,
                state::said(t, plans::split_ops(table, cols, rows)),
                blocks@,
                mi_r,
                mi_c,
                4,
            )
        },
    }
}

/// The first `i` quadrants of a split superblock.
pub open spec fn key_quads(
    plan: FramePlan,
    motion: Seq<MotionContext>,
    t: TileView,
    quads: Seq<Quadrant>,
    mi_r: int,
    mi_c: int,
    i: int,
) -> Step
    decreases i,
{
    if i <= 0 {
        state::going(t)
    } else {
        let before = key_quads(plan, motion, t, quads, mi_r, mi_c, i - 1);
        if before.fault is Some || !children::is_inside(plan, mi_r, mi_c, 8, i - 1) {
            before
        } else {
            key_quad(
                plan,
                motion,
                before.tile,
                quads[children::inside_before(plan, mi_r, mi_c, 8, i - 1)],
                children::child_r(mi_r, 8, i - 1),
                children::child_c(mi_c, 8, i - 1),
            )
        }
    }
}

/// What comes before a superblock's partition: the left column cleared at the
/// start of a row, and the root of a 128x128 superblock or the restoration
/// units of a 64x64 one.
#[verifier::opaque]
pub open spec fn sb_start(plan: FramePlan, t: TileView, s: SbStep) -> TileView {
    let cleared = if s.2 {
        state::banded(t, neighbours::row_started(t.bands))
    } else {
        t
    };
    let r = s.0 as int;
    let c = s.1 as int;
    if plan.sb128 {
        if s.3 {
            state::said(cleared, plans::root_ops(plan, cleared.bands, r, c))
        } else {
            cleared
        }
    } else {
        state::said(cleared, plans::lr_ops(plan.lr, 16 * r, 16 * c, 16))
    }
}

/// One superblock, after what comes before its partition.
#[verifier::opaque]
pub open spec fn key_sb(
    plan: FramePlan,
    motion: Seq<MotionContext>,
    t: TileView,
    sb: SbView,
    mi_r: int,
    mi_c: int,
) -> Step {
    let cols = has_cols(plan, mi_c, 16);
    let rows = has_rows(plan, mi_r, 16);
    let table = Cdf::PartitionW64(
        neighbours::spec_partition_ctx(t.bands, mi_r, mi_c, 64) as usize,
    );
    match sb {
        SbView::Whole(block) => if !cols || !rows {
            state::stopped(t, TileError::WholeSuperblockOutside)
        } else {
            key_whole(plan, motion, t, block, mi_r, mi_c, 64, table)
        },
        SbView::Split(quads) => {
            let split = state::said(t, plans::split_ops(table, cols, rows));
            if quads.len() != children::inside(plan, mi_r, mi_c, 8) {
                state::stopped(split, TileError::QuadrantCount)
            } else {
                key_quads(plan, motion, split, quads, mi_r, mi_c, 4)
            }
        },
    }
}

/// The first `count` superblocks of a tile in the order they are written.
pub open spec fn key_sbs(
    plan: FramePlan,
    motion: Seq<MotionContext>,
    t: TileView,
    sbs: Seq<SbView>,
    order: Seq<SbStep>,
    count: int,
) -> Step
    decreases count,
{
    if count <= 0 {
        state::going(t)
    } else {
        let before = key_sbs(plan, motion, t, sbs, order, count - 1);
        if before.fault is Some {
            before
        } else {
            let s = order[count - 1];
            key_sb(
                plan,
                motion,
                sb_start(plan, before.tile, s),
                sbs[s.0 * layout::superblocks(plan.mi_cols as int) + s.1],
                16 * s.0,
                16 * s.1,
            )
        }
    }
}

/// The lesser of two superblock positions.
pub open spec fn end_of(a: int, b: int) -> int {
    if a <= b {
        a
    } else {
        b
    }
}

/// The superblocks of a tile, in the order they are written.
pub open spec fn tile_order(plan: FramePlan, rect: TileRect) -> Seq<SbStep> {
    layout::write_order(
        rect.sb_row0 as int,
        end_of(rect.sb_row1 as int, layout::superblocks(plan.mi_rows as int)),
        rect.sb_col0 as int,
        end_of(rect.sb_col1 as int, layout::superblocks(plan.mi_cols as int)),
        plan.sb128,
    )
}

/// A tile that nothing is written of yet.
pub open spec fn blank_tile(plan: FramePlan, rect: TileRect) -> TileView {
    TileView {
        ops: Seq::empty(),
        bands: Bands {
            row0: rect.mi_row0 as int,
            col0: rect.mi_col0 as int,
            ..neighbours::fresh(
                2 * layout::ceil_div(plan.mi_cols as int, 8),
                2 * layout::ceil_div(plan.mi_rows as int, 8),
                plan.mi_cols as int,
                plan.mi_rows as int,
            )
        },
        cdef_last: None,
        cur_q: match plan.delta_q {
            Some(q) => q.base as int,
            None => 0,
        },
        records: Seq::empty(),
        asked: 0,
    }
}

/// A whole tile of a key frame: refused for the frame's size, the number of
/// superblocks or a mode, or its superblocks in order.
#[verifier::opaque]
pub open spec fn key_tile(
    plan: FramePlan,
    motion: Seq<MotionContext>,
    sbs: Seq<SbView>,
    rect: TileRect,
) -> Step {
    let blank = blank_tile(plan, rect);
    let order = tile_order(plan, rect);
    if plan.mi_cols == 0 || plan.mi_rows == 0 {
        state::stopped(blank, TileError::NoGrid)
    } else if sbs.len() != layout::superblocks(plan.mi_cols as int) * layout::superblocks(
        plan.mi_rows as int,
    ) {
        state::stopped(blank, TileError::SuperblockCount)
    } else {
        match bad_sbs(sbs, sbs.len() as int) {
            Some(mode) => state::stopped(blank, TileError::KeyIntraMode(mode)),
            None => key_sbs(plan, motion, blank, sbs, order, order.len() as int),
        }
    }
}

/// Whether a block can be written whole at a size. The mode of a block without
/// leaves is tested before anything is written; that of one with leaves is not,
/// and has to be one of luma's.
pub open spec fn is_key_whole(plan: FramePlan, b: BlockCoeffs, side: int) -> bool {
    &&& key_block::is_key_block(plan, b, side)
    &&& b.eight is Some ==> b.mode < INTRA_MODES
}

/// Whether a 16x16 block at a position can be coded: whole where it lies inside
/// the frame, else by its leaves, and then whatever it holds itself.
#[verifier::opaque]
pub open spec fn is_key_sub(plan: FramePlan, b: BlockCoeffs, mi_r: int, mi_c: int) -> bool {
    if has_cols(plan, mi_c, 4) && has_rows(plan, mi_r, 4) {
        is_key_whole(plan, b, 16)
    } else {
        b.eight matches Some(leaves) ==> (leaves@.len() == children::inside(plan, mi_r, mi_c, 2)
            ==> forall|i: int|
            0 <= i < leaves@.len() ==> key_block::is_key_block(plan, #[trigger] leaves@[i], 8))
    }
}

/// Whether the blocks of a split quadrant at a position can be coded, where
/// there is one for each quarter inside the frame.
#[verifier::opaque]
pub open spec fn are_key_subs(
    plan: FramePlan,
    blocks: Seq<BlockCoeffs>,
    mi_r: int,
    mi_c: int,
) -> bool {
    blocks.len() == children::inside(plan, mi_r, mi_c, 4) ==> forall|k: int|
        0 <= k < 4 && #[trigger] children::is_inside(plan, mi_r, mi_c, 4, k) ==> is_key_sub(
            plan,
            blocks[children::inside_before(plan, mi_r, mi_c, 4, k)],
            children::child_r(mi_r, 4, k),
            children::child_c(mi_c, 4, k),
        )
}

/// Whether the blocks of a quadrant at a position can be coded.
pub open spec fn is_key_quad(plan: FramePlan, q: Quadrant, mi_r: int, mi_c: int) -> bool {
    match q {
        Quadrant::Whole(b) => has_cols(plan, mi_c, 8) && has_rows(plan, mi_r, 8) ==> is_key_whole(
            plan,
            b,
            32,
        ),
        Quadrant::Split(blocks) => are_key_subs(plan, blocks@, mi_r, mi_c),
        _ => true,
    }
}

/// Whether the quadrants of a split superblock at a position can be coded,
/// where there is one for each quarter inside the frame.
pub open spec fn are_key_quads(
    plan: FramePlan,
    quads: Seq<Quadrant>,
    mi_r: int,
    mi_c: int,
) -> bool {
    quads.len() == children::inside(plan, mi_r, mi_c, 8) ==> forall|k: int|
        0 <= k < 4 && #[trigger] children::is_inside(plan, mi_r, mi_c, 8, k) ==> is_key_quad(
            plan,
            quads[children::inside_before(plan, mi_r, mi_c, 8, k)],
            children::child_r(mi_r, 8, k),
            children::child_c(mi_c, 8, k),
        )
}

/// Whether the blocks of a superblock at a position can be coded.
pub open spec fn is_key_sb(plan: FramePlan, s: SbView, mi_r: int, mi_c: int) -> bool {
    match s {
        SbView::Whole(b) => has_cols(plan, mi_c, 16) && has_rows(plan, mi_r, 16)
            ==> key_block::is_key_block(plan, b, 64),
        SbView::Split(quads) => are_key_quads(plan, quads, mi_r, mi_c),
    }
}

/// Whether the blocks of a frame's superblocks, in raster order, can be coded,
/// where there is one superblock for each place.
pub open spec fn are_key_sbs(plan: FramePlan, sbs: Seq<SbView>) -> bool {
    let across = layout::superblocks(plan.mi_cols as int);
    plan.mi_cols > 0 && plan.mi_rows > 0 && sbs.len() == across * layout::superblocks(
        plan.mi_rows as int,
    ) ==> forall|i: int|
        0 <= i < sbs.len() ==> is_key_sb(
            plan,
            #[trigger] sbs[i],
            16 * (i / across),
            16 * (i % across),
        )
}

/// Whether a frame's 32x32 blocks, in raster order, can be coded, where there is
/// one for each place.
pub open spec fn are_key_blocks(plan: FramePlan, blocks: Seq<BlockCoeffs>) -> bool {
    let across = layout::ceil_div(plan.mi_cols as int, 8);
    plan.mi_cols > 0 && plan.mi_rows > 0 && blocks.len() == across * layout::ceil_div(
        plan.mi_rows as int,
        8,
    ) ==> forall|i: int|
        0 <= i < blocks.len() ==> is_key_quad(
            plan,
            Quadrant::Whole(#[trigger] blocks[i]),
            8 * (i / across),
            8 * (i % across),
        )
}

proof fn lemma_key_sub(plan: FramePlan, blocks: Seq<BlockCoeffs>, mi_r: int, mi_c: int, k: int)
    requires
        are_key_subs(plan, blocks, mi_r, mi_c),
        blocks.len() == children::inside(plan, mi_r, mi_c, 4),
        0 <= k < 4,
        children::is_inside(plan, mi_r, mi_c, 4, k),
    ensures
        is_key_sub(
            plan,
            blocks[children::inside_before(plan, mi_r, mi_c, 4, k)],
            children::child_r(mi_r, 4, k),
            children::child_c(mi_c, 4, k),
        ),
{
    reveal(are_key_subs);
}

proof fn lemma_key_quad(plan: FramePlan, quads: Seq<Quadrant>, mi_r: int, mi_c: int, k: int)
    requires
        are_key_quads(plan, quads, mi_r, mi_c),
        quads.len() == children::inside(plan, mi_r, mi_c, 8),
        0 <= k < 4,
        children::is_inside(plan, mi_r, mi_c, 8, k),
    ensures
        is_key_quad(
            plan,
            quads[children::inside_before(plan, mi_r, mi_c, 8, k)],
            children::child_r(mi_r, 8, k),
            children::child_c(mi_c, 8, k),
        ),
{
}

/// Whether bands are those of a frame.
pub open spec fn fits(plan: FramePlan, b: Bands) -> bool {
    &&& b.mi_cols == plan.mi_cols
    &&& b.mi_rows == plan.mi_rows
    &&& b.above.len() == 8 * layout::ceil_div(plan.mi_cols as int, 8)
    &&& b.left.len() == 8 * layout::ceil_div(plan.mi_rows as int, 8)
}

proof fn lemma_no_bad_leaf(leaves: Seq<BlockCoeffs>, count: int, i: int)
    requires
        bad_leaf(leaves, count) is None,
        0 <= i < count,
    ensures
        leaves[i].mode < INTRA_MODES,
    decreases count,
{
    if i < count - 1 {
        lemma_no_bad_leaf(leaves, count - 1, i);
    }
}

proof fn lemma_no_bad_block(blocks: Seq<BlockCoeffs>, count: int, i: int)
    requires
        bad_blocks(blocks, count) is None,
        0 <= i < count,
    ensures
        bad_block(blocks[i]) is None,
    decreases count,
{
    if i < count - 1 {
        lemma_no_bad_block(blocks, count - 1, i);
    }
}

proof fn lemma_no_bad_quad(quads: Seq<Quadrant>, count: int, i: int)
    requires
        bad_quads(quads, count) is None,
        0 <= i < count,
    ensures
        bad_quad(quads[i]) is None,
    decreases count,
{
    if i < count - 1 {
        lemma_no_bad_quad(quads, count - 1, i);
    }
}

pub proof fn lemma_no_bad_sb(sbs: Seq<SbView>, count: int, i: int)
    requires
        bad_sbs(sbs, count) is None,
        0 <= i < count,
    ensures
        bad_sb(sbs[i]) is None,
    decreases count,
{
    if i < count - 1 {
        lemma_no_bad_sb(sbs, count - 1, i);
    }
}

/// Writes one whole block, its partition first.
fn write_whole(
    tile: &mut Tile,
    plan: &FramePlan,
    motion: &Vec<MotionContext>,
    block: &BlockCoeffs,
    mi: (usize, usize),
    side: usize,
    table: Cdf,
    scans: &Scans,
) -> (r: Result<(), TileError>)
    requires
        state::is_tile(old(tile)@),
        key_block::are_motions(motion@),
        key_block::is_place(*plan, old(tile)@.bands, mi.0 as int, mi.1 as int, side as int),
        side >= 16,
        key_block::is_key_block(*plan, *block, side as int),
        block.mode < INTRA_MODES,
        residual::are_scans(*scans),
    ensures
        state::is_step(
            old(tile)@,
            final(tile)@,
            r,
            key_whole(
                *plan,
                motion@,
                old(tile)@,
                *block,
                mi.0 as int,
                mi.1 as int,
                side as int,
                table,
            ),
        ),
{
    let above: usize = tile.bands.above_mode[mi.1 / 4];
    let left: usize = tile.bands.left_mode[mi.0 / 4];
    proof {
        assert(tile@.bands.above_mode[mi.1 as int / 4] < INTRA_MODES);
        assert(tile@.bands.left_mode[mi.0 as int / 4] < INTRA_MODES);
    }
    put(&mut tile.ops, PARTITION_NONE, table);
    write_block(tile, plan, motion, block, mi, side, above, left, scans)
}

/// The leaf coded last, as values.
pub open spec fn last_leaf(last: Option<(u32, u32, usize)>) -> Option<LastLeaf> {
    match last {
        Some(l) => Some(LastLeaf { mi_r: l.0 as int, mi_c: l.1 as int, mode: l.2 }),
        None => None,
    }
}

/// Writes one 8x8 leaf of a 16x16 block across the frame's edge, and hands back
/// the mode it is read as. The modes beside it are those of the 16x16 block,
/// but for a leaf coded just before right above or right to the left.
fn write_leaf8(
    tile: &mut Tile,
    plan: &FramePlan,
    motion: &Vec<MotionContext>,
    leaf: &BlockCoeffs,
    mi: (u32, u32),
    last: Option<(u32, u32, usize)>,
    scans: &Scans,
) -> (r: Result<usize, TileError>)
    requires
        state::is_tile(old(tile)@),
        key_block::are_motions(motion@),
        key_block::is_place(*plan, old(tile)@.bands, mi.0 as int, mi.1 as int, 8),
        key_block::is_key_block(*plan, *leaf, 8),
        leaf.mode < INTRA_MODES,
        last matches Some(l) ==> l.0 <= layout::MAX_MI && l.1 <= layout::MAX_MI && l.2
            < INTRA_MODES,
        residual::are_scans(*scans),
    ensures
        ({
            let b = old(tile)@.bands;
            let step = key_block::key_block(
                *plan,
                motion@,
                old(tile)@,
                *leaf,
                mi.0 as int,
                mi.1 as int,
                8,
                leaf_above(b, last_leaf(last), mi.0 as int, mi.1 as int),
                leaf_left(b, last_leaf(last), mi.0 as int, mi.1 as int),
            );
            &&& final(tile)@ == step.tile
            &&& state::is_tile(final(tile)@)
            &&& state::same_frame(b, final(tile)@.bands)
            &&& r == match step.fault {
                None => Ok::<usize, TileError>(leaf_mode(*leaf)),
                Some(e) => Err::<usize, TileError>(e),
            }
        }),
{
    let at: (usize, usize) = (mi.0 as usize, mi.1 as usize);
    let mut above: usize = tile.bands.above_mode[at.1 / 4];
    let mut left: usize = tile.bands.left_mode[at.0 / 4];
    proof {
        assert(tile@.bands.above_mode[at.1 as int / 4] < INTRA_MODES);
        assert(tile@.bands.left_mode[at.0 as int / 4] < INTRA_MODES);
    }
    if let Some((r, c, mode)) = last {
        if c == mi.1 && mi.0 == r + 2 {
            above = mode;
        } else if r == mi.0 && mi.1 == c + 2 {
            left = mode;
        }
    }
    if let Err(e) = write_block(tile, plan, motion, leaf, at, 8, above, left, scans) {
        return Err(e);
    }
    if leaf.dv.is_some() {
        Ok(DC_PRED)
    } else {
        Ok(leaf.mode as usize)
    }
}

/// Writes the leaves of a 16x16 block across the frame's edge, and hands back
/// the mode of the last.
#[verifier::rlimit(100)]
fn write_leaves(
    tile: &mut Tile,
    plan: &FramePlan,
    motion: &Vec<MotionContext>,
    leaves: &Vec<BlockCoeffs>,
    mi: (u32, u32),
    scans: &Scans,
) -> (r: (Result<(), TileError>, Option<usize>))
    requires
        state::is_tile(old(tile)@),
        key_block::are_motions(motion@),
        fits(*plan, old(tile)@.bands),
        plans::is_plan(*plan),
        mi.0 < plan.mi_rows,
        mi.1 < plan.mi_cols,
        mi.0 % 4 == 0,
        mi.1 % 4 == 0,
        leaves@.len() == children::inside(*plan, mi.0 as int, mi.1 as int, 2),
        forall|i: int|
            0 <= i < leaves@.len() ==> key_block::is_key_block(*plan, #[trigger] leaves@[i], 8)
                && leaves@[i].mode < INTRA_MODES,
        residual::are_scans(*scans),
    ensures
        ({
            let said = key_leaves(
                *plan,
                motion@,
                old(tile)@,
                leaves@,
                mi.0 as int,
                mi.1 as int,
                4,
            );
            &&& state::is_step(old(tile)@, final(tile)@, r.0, said.step)
            &&& r.0 is Ok ==> (said.last matches Some(l) ==> r.1 == Some(l.mode) && l.mode
                < INTRA_MODES)
            &&& r.0 is Ok ==> (said.last is None ==> r.1 is None)
        }),
{
    let ghost start = tile@;
    let mut last: Option<(u32, u32, usize)> = None;
    let mut next: usize = 0;
    let mut i: u32 = 0;
    while i < 4
        invariant
            i <= 4,
            start == old(tile)@,
            state::is_tile(tile@),
            state::same_frame(start.bands, tile@.bands),
            fits(*plan, start.bands),
            plans::is_plan(*plan),
            key_block::are_motions(motion@),
            mi.0 < plan.mi_rows,
            mi.1 < plan.mi_cols,
            mi.0 % 4 == 0,
            mi.1 % 4 == 0,
            residual::are_scans(*scans),
            leaves@.len() == children::inside(*plan, mi.0 as int, mi.1 as int, 2),
            forall|k: int|
                0 <= k < leaves@.len() ==> key_block::is_key_block(
                    *plan,
                    #[trigger] leaves@[k],
                    8,
                ) && leaves@[k].mode < INTRA_MODES,
            next == children::inside_before(*plan, mi.0 as int, mi.1 as int, 2, i as int),
            ({
                let said = key_leaves(
                    *plan,
                    motion@,
                    start,
                    leaves@,
                    mi.0 as int,
                    mi.1 as int,
                    i as int,
                );
                &&& said.step == state::going(tile@)
                &&& said.last == last_leaf(last)
                &&& last matches Some(l) ==> l.2 < INTRA_MODES && l.0 < plan.mi_rows && l.1
                    < plan.mi_cols
            }),
        decreases 4 - i,
    {
        if child_inside(plan, mi.0, mi.1, 2, i) {
            proof {
                children::lemma_inside_before(
                    *plan,
                    mi.0 as int,
                    mi.1 as int,
                    2,
                    i as int,
                );
            }
            let (r, c): (u32, u32) = child_at(mi, 2, i);
            let at: (usize, usize) = (r as usize, c as usize);
            let table: Cdf = Cdf::PartitionW8(tile.bands.partition_ctx_mi(at, 8));
            put(&mut tile.ops, PARTITION_NONE, table);
            let own: usize = match write_leaf8(
                tile,
                plan,
                motion,
                &leaves[next],
                (r, c),
                last,
                scans,
            ) {
                Ok(mode) => mode,
                Err(e) => {
                    proof {
                        lemma_leaves_stay(
                            *plan,
                            motion@,
                            start,
                            leaves@,
                            mi.0 as int,
                            mi.1 as int,
                            i + 1,
                            4,
                        );
                    }
                    return (Err(e), None);
                },
            };
            last = Some((r, c, own));
            next += 1;
        }
        i += 1;
    }
    (
        Ok(()),
        match last {
            Some(l) => Some(l.2),
            None => None,
        },
    )
}

proof fn lemma_leaves_stay(
    plan: FramePlan,
    motion: Seq<MotionContext>,
    t: TileView,
    leaves: Seq<BlockCoeffs>,
    mi_r: int,
    mi_c: int,
    i: int,
    more: int,
)
    requires
        i <= more,
        key_leaves(plan, motion, t, leaves, mi_r, mi_c, i).step.fault is Some,
    ensures
        key_leaves(plan, motion, t, leaves, mi_r, mi_c, more) == key_leaves(
            plan,
            motion,
            t,
            leaves,
            mi_r,
            mi_c,
            i,
        ),
    decreases more,
{
    if i < more {
        lemma_leaves_stay(plan, motion, t, leaves, mi_r, mi_c, i, more - 1);
    }
}

proof fn lemma_subs_stay(
    plan: FramePlan,
    motion: Seq<MotionContext>,
    t: TileView,
    blocks: Seq<BlockCoeffs>,
    mi_r: int,
    mi_c: int,
    i: int,
    more: int,
)
    requires
        i <= more,
        key_subs(plan, motion, t, blocks, mi_r, mi_c, i).fault is Some,
    ensures
        key_subs(plan, motion, t, blocks, mi_r, mi_c, more) == key_subs(
            plan,
            motion,
            t,
            blocks,
            mi_r,
            mi_c,
            i,
        ),
    decreases more,
{
    if i < more {
        lemma_subs_stay(plan, motion, t, blocks, mi_r, mi_c, i, more - 1);
    }
}

proof fn lemma_quads_stay(
    plan: FramePlan,
    motion: Seq<MotionContext>,
    t: TileView,
    quads: Seq<Quadrant>,
    mi_r: int,
    mi_c: int,
    i: int,
    more: int,
)
    requires
        i <= more,
        key_quads(plan, motion, t, quads, mi_r, mi_c, i).fault is Some,
    ensures
        key_quads(plan, motion, t, quads, mi_r, mi_c, more) == key_quads(
            plan,
            motion,
            t,
            quads,
            mi_r,
            mi_c,
            i,
        ),
    decreases more,
{
    if i < more {
        lemma_quads_stay(plan, motion, t, quads, mi_r, mi_c, i, more - 1);
    }
}

pub proof fn lemma_sbs_stay(
    plan: FramePlan,
    motion: Seq<MotionContext>,
    t: TileView,
    sbs: Seq<SbView>,
    order: Seq<SbStep>,
    i: int,
    more: int,
)
    requires
        i <= more,
        key_sbs(plan, motion, t, sbs, order, i).fault is Some,
    ensures
        key_sbs(plan, motion, t, sbs, order, more) == key_sbs(plan, motion, t, sbs, order, i),
    decreases more,
{
    if i < more {
        lemma_sbs_stay(plan, motion, t, sbs, order, i, more - 1);
    }
}

/// Writes one 16x16 block of a key frame.
fn write_sub(
    tile: &mut Tile,
    plan: &FramePlan,
    motion: &Vec<MotionContext>,
    block: &BlockCoeffs,
    mi: (u32, u32),
    scans: &Scans,
) -> (r: Result<(), TileError>)
    requires
        state::is_tile(old(tile)@),
        key_block::are_motions(motion@),
        fits(*plan, old(tile)@.bands),
        plans::is_plan(*plan),
        mi.0 < plan.mi_rows,
        mi.1 < plan.mi_cols,
        mi.0 % 4 == 0,
        mi.1 % 4 == 0,
        is_key_sub(*plan, *block, mi.0 as int, mi.1 as int),
        bad_block(*block) is None,
        residual::are_scans(*scans),
    ensures
        state::is_step(
            old(tile)@,
            final(tile)@,
            r,
            key_sub(*plan, motion@, old(tile)@, *block, mi.0 as int, mi.1 as int),
        ),
{
    proof {
        reveal(key_sub);
        reveal(is_key_sub);
    }
    let cols: bool = has_half(mi.1, 4, plan.mi_cols);
    let rows: bool = has_half(mi.0, 4, plan.mi_rows);
    let at: (usize, usize) = (mi.0 as usize, mi.1 as usize);
    let ctx: usize = tile.bands.partition_ctx_mi(at, 16);
    let table: Cdf = Cdf::PartitionW16(ctx);
    if cols && rows {
        return write_whole(tile, plan, motion, block, at, 16, table, scans);
    }
    write_split(&mut tile.ops, table, cols, rows);
    match &block.eight {
        None => Err(TileError::EightMissing),
        Some(leaves) => {
            if leaves.len() != children_inside(plan, mi.0, mi.1, 2) {
                return Err(TileError::EightCount);
            }
            proof {
                assert forall|i: int| 0 <= i < leaves@.len() implies key_block::is_key_block(
                    *plan,
                    #[trigger] leaves@[i],
                    8,
                ) && leaves@[i].mode < INTRA_MODES by {
                    lemma_no_bad_leaf(leaves@, leaves@.len() as int, i);
                }
            }
            let (done, last): (Result<(), TileError>, Option<usize>) = write_leaves(
                tile,
                plan,
                motion,
                leaves,
                mi,
                scans,
            );
            if done.is_err() {
                return done;
            }
            if let Some(mode) = last {
                tile.bands.record_mode((at.0 / 4, at.1 / 4), 1, mode);
            }
            Ok(())
        },
    }
}

/// Writes the blocks of a split quadrant.
#[verifier::rlimit(100)]
fn write_subs(
    tile: &mut Tile,
    plan: &FramePlan,
    motion: &Vec<MotionContext>,
    blocks: &Vec<BlockCoeffs>,
    mi: (u32, u32),
    scans: &Scans,
) -> (r: Result<(), TileError>)
    requires
        state::is_tile(old(tile)@),
        key_block::are_motions(motion@),
        fits(*plan, old(tile)@.bands),
        plans::is_plan(*plan),
        mi.0 < plan.mi_rows,
        mi.1 < plan.mi_cols,
        mi.0 % 8 == 0,
        mi.1 % 8 == 0,
        blocks@.len() == children::inside(*plan, mi.0 as int, mi.1 as int, 4),
        are_key_subs(*plan, blocks@, mi.0 as int, mi.1 as int),
        forall|i: int| 0 <= i < blocks@.len() ==> bad_block(#[trigger] blocks@[i]) is None,
        residual::are_scans(*scans),
    ensures
        state::is_step(
            old(tile)@,
            final(tile)@,
            r,
            key_subs(*plan, motion@, old(tile)@, blocks@, mi.0 as int, mi.1 as int, 4),
        ),
{
    let ghost start = tile@;
    let mut next: usize = 0;
    let mut i: u32 = 0;
    while i < 4
        invariant
            i <= 4,
            start == old(tile)@,
            state::is_tile(tile@),
            state::same_frame(start.bands, tile@.bands),
            fits(*plan, start.bands),
            plans::is_plan(*plan),
            key_block::are_motions(motion@),
            mi.0 < plan.mi_rows,
            mi.1 < plan.mi_cols,
            mi.0 % 8 == 0,
            mi.1 % 8 == 0,
            residual::are_scans(*scans),
            blocks@.len() == children::inside(*plan, mi.0 as int, mi.1 as int, 4),
            are_key_subs(*plan, blocks@, mi.0 as int, mi.1 as int),
            forall|k: int| 0 <= k < blocks@.len() ==> bad_block(#[trigger] blocks@[k]) is None,
            next == children::inside_before(*plan, mi.0 as int, mi.1 as int, 4, i as int),
            key_subs(
                *plan,
                motion@,
                start,
                blocks@,
                mi.0 as int,
                mi.1 as int,
                i as int,
            ) == state::going(tile@),
        decreases 4 - i,
    {
        if child_inside(plan, mi.0, mi.1, 4, i) {
            proof {
                children::lemma_inside_before(
                    *plan,
                    mi.0 as int,
                    mi.1 as int,
                    4,
                    i as int,
                );
                lemma_key_sub(*plan, blocks@, mi.0 as int, mi.1 as int, i as int);
            }
            let (r, c): (u32, u32) = child_at(mi, 4, i);
            let done = write_sub(tile, plan, motion, &blocks[next], (r, c), scans);
            if done.is_err() {
                proof {
                    lemma_subs_stay(
                        *plan,
                        motion@,
                        start,
                        blocks@,
                        mi.0 as int,
                        mi.1 as int,
                        i + 1,
                        4,
                    );
                }
                return done;
            }
            next += 1;
        }
        i += 1;
    }
    Ok(())
}

/// Writes one 32x32 quadrant of a key frame.
fn write_quad(
    tile: &mut Tile,
    plan: &FramePlan,
    motion: &Vec<MotionContext>,
    quad: &QuadRef,
    mi: (u32, u32),
    scans: &Scans,
) -> (r: Result<(), TileError>)
    requires
        state::is_tile(old(tile)@),
        key_block::are_motions(motion@),
        fits(*plan, old(tile)@.bands),
        plans::is_plan(*plan),
        mi.0 < plan.mi_rows,
        mi.1 < plan.mi_cols,
        mi.0 % 8 == 0,
        mi.1 % 8 == 0,
        is_key_quad(*plan, quad@, mi.0 as int, mi.1 as int),
        bad_quad(quad@) is None,
        residual::are_scans(*scans),
    ensures
        state::is_step(
            old(tile)@,
            final(tile)@,
            r,
            key_quad(*plan, motion@, old(tile)@, quad@, mi.0 as int, mi.1 as int),
        ),
{
    proof {
        reveal(key_quad);
    }
    let cols: bool = has_half(mi.1, 8, plan.mi_cols);
    let rows: bool = has_half(mi.0, 8, plan.mi_rows);
    let at: (usize, usize) = (mi.0 as usize, mi.1 as usize);
    let ctx: usize = tile.bands.partition_ctx_mi(at, 32);
    let table: Cdf = Cdf::PartitionW32(ctx);
    let block: &BlockCoeffs = match quad {
        QuadRef::Whole(block) => block,
        QuadRef::Given(Quadrant::Whole(block)) => block,
        QuadRef::Given(Quadrant::Split(blocks)) => {
            if blocks.len() != children_inside(plan, mi.0, mi.1, 4) {
                return Err(TileError::SubBlockCount);
            }
            write_split(&mut tile.ops, table, cols, rows);
            proof {
                assert forall|i: int| 0 <= i < blocks@.len() implies bad_block(
                    #[trigger] blocks@[i],
                ) is None by {
                    lemma_no_bad_block(blocks@, blocks@.len() as int, i);
                }
            }
            return write_subs(tile, plan, motion, blocks, mi, scans);
        },
        _ => {
            return Err(TileError::KeyWhole64);
        },
    };
    proof {
        let all = blocks::spec_blocks(quad@);
        assert(all =~= seq![*block]);
        lemma_no_bad_block(all, 1, 0);
    }
    if !cols || !rows {
        return Err(TileError::WholeQuadrantOutside);
    }
    write_whole(tile, plan, motion, block, at, 32, table, scans)
}

/// Writes the quadrants of a split superblock.
#[verifier::rlimit(100)]
fn write_quads(
    tile: &mut Tile,
    plan: &FramePlan,
    motion: &Vec<MotionContext>,
    quads: &Vec<QuadRef>,
    mi: (u32, u32),
    scans: &Scans,
) -> (r: Result<(), TileError>)
    requires
        state::is_tile(old(tile)@),
        key_block::are_motions(motion@),
        fits(*plan, old(tile)@.bands),
        plans::is_plan(*plan),
        mi.0 < plan.mi_rows,
        mi.1 < plan.mi_cols,
        mi.0 % 16 == 0,
        mi.1 % 16 == 0,
        quads@.len() == children::inside(*plan, mi.0 as int, mi.1 as int, 8),
        are_key_quads(*plan, quad_refs(quads@), mi.0 as int, mi.1 as int),
        forall|i: int| 0 <= i < quads@.len() ==> bad_quad((#[trigger] quads@[i])@) is None,
        residual::are_scans(*scans),
    ensures
        state::is_step(
            old(tile)@,
            final(tile)@,
            r,
            key_quads(
                *plan,
                motion@,
                old(tile)@,
                quad_refs(quads@),
                mi.0 as int,
                mi.1 as int,
                4,
            ),
        ),
{
    let ghost start = tile@;
    let ghost all = quad_refs(quads@);
    let mut next: usize = 0;
    let mut i: u32 = 0;
    while i < 4
        invariant
            i <= 4,
            start == old(tile)@,
            state::is_tile(tile@),
            state::same_frame(start.bands, tile@.bands),
            fits(*plan, start.bands),
            plans::is_plan(*plan),
            key_block::are_motions(motion@),
            mi.0 < plan.mi_rows,
            mi.1 < plan.mi_cols,
            mi.0 % 16 == 0,
            mi.1 % 16 == 0,
            residual::are_scans(*scans),
            all == quad_refs(quads@),
            quads@.len() == children::inside(*plan, mi.0 as int, mi.1 as int, 8),
            are_key_quads(*plan, all, mi.0 as int, mi.1 as int),
            forall|k: int| 0 <= k < quads@.len() ==> bad_quad((#[trigger] quads@[k])@) is None,
            next == children::inside_before(*plan, mi.0 as int, mi.1 as int, 8, i as int),
            key_quads(
                *plan,
                motion@,
                start,
                all,
                mi.0 as int,
                mi.1 as int,
                i as int,
            ) == state::going(tile@),
        decreases 4 - i,
    {
        if child_inside(plan, mi.0, mi.1, 8, i) {
            proof {
                children::lemma_inside_before(
                    *plan,
                    mi.0 as int,
                    mi.1 as int,
                    8,
                    i as int,
                );
                assert(all[next as int] == quads@[next as int]@);
                lemma_key_quad(*plan, all, mi.0 as int, mi.1 as int, i as int);
            }
            let (r, c): (u32, u32) = child_at(mi, 8, i);
            let done = write_quad(tile, plan, motion, &quads[next], (r, c), scans);
            if done.is_err() {
                proof {
                    lemma_quads_stay(
                        *plan,
                        motion@,
                        start,
                        all,
                        mi.0 as int,
                        mi.1 as int,
                        i + 1,
                        4,
                    );
                }
                return done;
            }
            next += 1;
        }
        i += 1;
    }
    Ok(())
}

/// Writes one superblock of a key frame.
pub fn write_sb(
    tile: &mut Tile,
    plan: &FramePlan,
    motion: &Vec<MotionContext>,
    sb: &SbRef,
    mi: (u32, u32),
    scans: &Scans,
) -> (r: Result<(), TileError>)
    requires
        state::is_tile(old(tile)@),
        key_block::are_motions(motion@),
        fits(*plan, old(tile)@.bands),
        plans::is_plan(*plan),
        mi.0 < plan.mi_rows,
        mi.1 < plan.mi_cols,
        mi.0 % 16 == 0,
        mi.1 % 16 == 0,
        is_key_sb(*plan, sb@, mi.0 as int, mi.1 as int),
        bad_sb(sb@) is None,
        residual::are_scans(*scans),
    ensures
        state::is_step(
            old(tile)@,
            final(tile)@,
            r,
            key_sb(*plan, motion@, old(tile)@, sb@, mi.0 as int, mi.1 as int),
        ),
{
    proof {
        reveal(key_sb);
    }
    let cols: bool = has_half(mi.1, 16, plan.mi_cols);
    let rows: bool = has_half(mi.0, 16, plan.mi_rows);
    let at: (usize, usize) = (mi.0 as usize, mi.1 as usize);
    let ctx: usize = tile.bands.partition_ctx_mi(at, 64);
    let table: Cdf = Cdf::PartitionW64(ctx);
    match sb {
        SbRef::Whole(block) => {
            if !cols || !rows {
                return Err(TileError::WholeSuperblockOutside);
            }
            write_whole(tile, plan, motion, block, at, 64, table, scans)
        },
        SbRef::Split(quads) => {
            write_split(&mut tile.ops, table, cols, rows);
            if quads.len() != children_inside(plan, mi.0, mi.1, 8) {
                return Err(TileError::QuadrantCount);
            }
            proof {
                let all = quad_refs(quads@);
                assert forall|i: int| 0 <= i < quads@.len() implies bad_quad(
                    (#[trigger] quads@[i])@,
                ) is None by {
                    assert(all[i] == quads@[i]@);
                    lemma_no_bad_quad(all, all.len() as int, i);
                }
            }
            write_quads(tile, plan, motion, quads, mi, scans)
        },
    }
}

/// Writes what comes before a superblock's partition.
pub fn write_sb_start(tile: &mut Tile, plan: &FramePlan, s: SbStep)
    requires
        state::is_tile(old(tile)@),
        fits(*plan, old(tile)@.bands),
        plans::is_plan(*plan),
        16 * s.0 < plan.mi_rows,
        16 * s.1 < plan.mi_cols,
    ensures
        state::is_tile(final(tile)@),
        state::same_frame(old(tile)@.bands, final(tile)@.bands),
        final(tile)@ == sb_start(*plan, old(tile)@, s),
{
    proof {
        reveal(sb_start);
    }
    if s.2 {
        tile.bands.start_row();
    }
    if plan.sb128 {
        if s.3 {
            write_sb128_root(&mut tile.ops, plan, &tile.bands, s.0, s.1);
        }
    } else {
        write_lr(&mut tile.ops, &plan.lr, s.0 * 16, s.1 * 16, 16);
    }
}

/// The first mode of some blocks that no luma block has.
fn first_bad_leaf(leaves: &[BlockCoeffs]) -> (bad: Option<u8>)
    ensures
        bad == bad_leaf(leaves@, leaves@.len() as int),
{
    let mut bad: Option<u8> = None;
    let mut i: usize = 0;
    while i < leaves.len()
        invariant
            i <= leaves@.len(),
            bad == bad_leaf(leaves@, i as int),
        decreases leaves@.len() - i,
    {
        if bad.is_none() && leaves[i].mode as usize >= INTRA_MODES {
            bad = Some(leaves[i].mode);
        }
        i += 1;
    }
    bad
}

fn first_bad_block(block: &BlockCoeffs) -> (bad: Option<u8>)
    ensures
        bad == bad_block(*block),
{
    match &block.eight {
        Some(leaves) => first_bad_leaf(leaves.as_slice()),
        None => if block.mode as usize >= INTRA_MODES {
            Some(block.mode)
        } else {
            None
        },
    }
}

fn first_bad_quad(quad: &QuadRef) -> (bad: Option<u8>)
    ensures
        bad == bad_quad(quad@),
{
    let block: &BlockCoeffs = match quad {
        QuadRef::Whole(block) => block,
        QuadRef::Given(Quadrant::Whole(block)) => block,
        QuadRef::Given(Quadrant::Whole64(block)) => block,
        QuadRef::Given(Quadrant::Covered) => {
            return None;
        },
        QuadRef::Given(Quadrant::Split(blocks)) => {
            let mut bad: Option<u8> = None;
            let mut i: usize = 0;
            while i < blocks.len()
                invariant
                    i <= blocks@.len(),
                    bad == bad_blocks(blocks@, i as int),
                decreases blocks@.len() - i,
            {
                if bad.is_none() {
                    bad = first_bad_block(&blocks[i]);
                }
                i += 1;
            }
            return bad;
        },
    };
    proof {
        let all = blocks::spec_blocks(quad@);
        assert(all =~= seq![*block]);
        reveal_with_fuel(bad_blocks, 2);
    }
    first_bad_block(block)
}

fn first_bad_sb(sb: &SbRef) -> (bad: Option<u8>)
    ensures
        bad == bad_sb(sb@),
{
    match sb {
        SbRef::Whole(block) => if block.mode as usize >= INTRA_MODES {
            Some(block.mode)
        } else {
            None
        },
        SbRef::Split(quads) => {
            let ghost all = quad_refs(quads@);
            let mut bad: Option<u8> = None;
            let mut i: usize = 0;
            while i < quads.len()
                invariant
                    i <= quads@.len(),
                    all == quad_refs(quads@),
                    bad == bad_quads(all, i as int),
                decreases quads@.len() - i,
            {
                if bad.is_none() {
                    bad = first_bad_quad(&quads[i]);
                }
                i += 1;
            }
            bad
        },
    }
}

/// The first mode of a frame's blocks that no luma block has.
pub fn first_bad(sbs: &Vec<SbRef>) -> (bad: Option<u8>)
    ensures
        bad == bad_sbs(sb_refs(sbs@), sbs@.len() as int),
{
    let ghost all = sb_refs(sbs@);
    let mut bad: Option<u8> = None;
    let mut i: usize = 0;
    while i < sbs.len()
        invariant
            i <= sbs@.len(),
            all == sb_refs(sbs@),
            bad == bad_sbs(all, i as int),
        decreases sbs@.len() - i,
    {
        if bad.is_none() {
            bad = first_bad_sb(&sbs[i]);
        }
        i += 1;
    }
    bad
}

} // verus!
