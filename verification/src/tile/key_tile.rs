//! A whole tile of a key frame, and the frames of one tile.
use crate::tile::blocks::{BlockCoeffs, Quadrant, Superblock};
use crate::tile::children;
use crate::tile::children::child_at;
use crate::tile::error::TileError;
use crate::tile::key_block;
use crate::tile::key_frame;
use crate::tile::key_frame::{first_bad, write_sb, write_sb_start, QuadRef, SbRef, SbView};
use crate::tile::layout;
use crate::tile::layout::{
    block_grid, check_blocks, q_ctx_of, sb_write_order, superblock_grid, SbStep,
};
use crate::tile::motion::MotionContext;
use crate::tile::neighbours::Neighbours;
use crate::tile::ops::Op;
use crate::tile::plans;
use crate::tile::plans::FramePlan;
use crate::tile::residual;
use crate::tile::residual::Scans;
use crate::tile::state;
use crate::tile::state::Tile;
use crate::tile::tiles;
use crate::tile::tiles::TileRect;
use vstd::prelude::*;

verus! {

/// A tile as the symbols it is made of, and the set of coefficient tables they
/// start from.
#[derive(Debug)]
pub struct Trace {
    /// The set of coefficient tables.
    pub q_ctx: usize,
    /// The symbols.
    pub ops: Vec<Op>,
}

/// The plan of a frame that uses none of the optional tools.
pub open spec fn spec_plain(mi_cols: u32, mi_rows: u32, tx_select: bool) -> FramePlan {
    FramePlan {
        mi_cols,
        mi_rows,
        tx_select,
        sb128: false,
        screen: false,
        intrabc: false,
        filter_intra: false,
        reference_select: false,
        motion_mode: false,
        warped_motion: false,
        reduced_tx_set: false,
        lr: None,
        cdef: None,
        delta_q: None,
    }
}

impl FramePlan {
    /// The plan of a frame that uses none of the optional tools.
    pub fn plain(mi_cols: u32, mi_rows: u32, tx_select: bool) -> (plan: FramePlan)
        ensures
            plan == spec_plain(mi_cols, mi_rows, tx_select),
    {
        FramePlan {
            mi_cols,
            mi_rows,
            tx_select,
            sb128: false,
            screen: false,
            intrabc: false,
            filter_intra: false,
            reference_select: false,
            motion_mode: false,
            warped_motion: false,
            reduced_tx_set: false,
            lr: None,
            cdef: None,
            delta_q: None,
        }
    }
}

/// A tile that nothing is written of yet.
pub fn blank(plan: &FramePlan, rect: TileRect) -> (tile: Tile)
    requires
        plans::is_plan(*plan),
    ensures
        tile@ == key_frame::blank_tile(*plan, rect),
        state::is_tile(tile@),
        key_frame::fits(*plan, tile@.bands),
{
    let (cols, rows): (u32, u32) = block_grid(plan.mi_cols, plan.mi_rows);
    let mut bands: Neighbours = Neighbours::new(
        cols as usize * 2,
        rows as usize * 2,
        plan.mi_cols as usize,
        plan.mi_rows as usize,
    );
    bands.set_tile_origin(rect.mi_row0 as usize, rect.mi_col0 as usize);
    let cur_q: i32 = match &plan.delta_q {
        Some(q) => q.base as i32,
        None => 0,
    };
    let tile = Tile {
        ops: Vec::new(),
        bands,
        cdef_last: None,
        cur_q,
        records: Vec::new(),
        asked: 0,
    };
    proof {
        assert(tile@ =~= key_frame::blank_tile(*plan, rect));
    }
    tile
}

/// The superblocks of a tile, in the order they are written.
pub fn order_of(plan: &FramePlan, rect: TileRect) -> (order: Vec<SbStep>)
    requires
        plans::is_plan(*plan),
    ensures
        order@ == key_frame::tile_order(*plan, rect),
        forall|k: int|
            0 <= k < order@.len() ==> {
                let s = #[trigger] order@[k];
                &&& 16 * s.0 < plan.mi_rows
                &&& 16 * s.1 < plan.mi_cols
                &&& s.0 < layout::superblocks(plan.mi_rows as int)
                &&& s.1 < layout::superblocks(plan.mi_cols as int)
            },
{
    let (sb_cols, sb_rows): (u32, u32) = superblock_grid(plan.mi_cols, plan.mi_rows);
    let r1: u32 = if rect.sb_row1 <= sb_rows {
        rect.sb_row1
    } else {
        sb_rows
    };
    let c1: u32 = if rect.sb_col1 <= sb_cols {
        rect.sb_col1
    } else {
        sb_cols
    };
    let order: Vec<SbStep> = sb_write_order(rect.sb_row0, r1, rect.sb_col0, c1, plan.sb128);
    proof {
        layout::every_written_cell_is_inside(
            rect.sb_row0 as int,
            r1 as int,
            rect.sb_col0 as int,
            c1 as int,
            plan.sb128,
        );
    }
    order
}

proof fn lemma_cell(r: int, c: int, rows: int, cols: int)
    requires
        0 <= r < rows,
        0 <= c < cols,
    ensures
        0 <= r * cols + c < cols * rows,
{
    assert(0 <= r * cols + c < cols * rows) by (nonlinear_arith)
        requires
            0 <= r < rows,
            0 <= c < cols,
    ;
}

/// Writes a tile of a key frame whose superblocks are borrowed.
#[verifier::rlimit(100)]
fn write_key_tile(
    plan: &FramePlan,
    motion: &Vec<MotionContext>,
    sbs: &Vec<SbRef>,
    rect: TileRect,
) -> (r: (Tile, Result<(), TileError>))
    requires
        plans::is_plan(*plan),
        key_block::are_motions(motion@),
        key_frame::are_key_sbs(*plan, key_frame::sb_refs(sbs@)),
    ensures
        state::is_step(
            key_frame::blank_tile(*plan, rect),
            r.0@,
            r.1,
            key_frame::key_tile(*plan, motion@, key_frame::sb_refs(sbs@), rect),
        ),
{
    proof {
        reveal(key_frame::key_tile);
    }
    let ghost all = key_frame::sb_refs(sbs@);
    let mut tile: Tile = blank(plan, rect);
    let ghost start = tile@;
    if let Err(e) = check_blocks(plan.mi_cols, plan.mi_rows) {
        return (tile, Err(e));
    }
    let (sb_cols, sb_rows): (u32, u32) = superblock_grid(plan.mi_cols, plan.mi_rows);
    proof {
        assert(0 <= sb_cols * sb_rows <= 0x1000_0000 * 0x1000_0000) by (nonlinear_arith)
            requires
                sb_cols <= 0x1000_0000,
                sb_rows <= 0x1000_0000,
        ;
    }
    if sbs.len() as u64 != sb_cols as u64 * sb_rows as u64 {
        return (tile, Err(TileError::SuperblockCount));
    }
    if let Some(mode) = first_bad(sbs) {
        return (tile, Err(TileError::KeyIntraMode(mode)));
    }
    let scans: Scans = Scans::new();
    let order: Vec<SbStep> = order_of(plan, rect);
    let mut i: usize = 0;
    while i < order.len()
        invariant
            i <= order@.len(),
            order@ == key_frame::tile_order(*plan, rect),
            forall|k: int|
                0 <= k < order@.len() ==> {
                    let s = #[trigger] order@[k];
                    &&& 16 * s.0 < plan.mi_rows
                    &&& 16 * s.1 < plan.mi_cols
                    &&& s.0 < layout::superblocks(plan.mi_rows as int)
                    &&& s.1 < layout::superblocks(plan.mi_cols as int)
                },
            plans::is_plan(*plan),
            key_block::are_motions(motion@),
            all == key_frame::sb_refs(sbs@),
            key_frame::are_key_sbs(*plan, all),
            plan.mi_cols > 0 && plan.mi_rows > 0,
            sb_cols == layout::superblocks(plan.mi_cols as int),
            sb_rows == layout::superblocks(plan.mi_rows as int),
            sbs@.len() == sb_cols * sb_rows,
            key_frame::bad_sbs(all, all.len() as int) is None,
            start == key_frame::blank_tile(*plan, rect),
            state::is_tile(tile@),
            state::same_frame(start.bands, tile@.bands),
            key_frame::fits(*plan, start.bands),
            residual::are_scans(scans),
            key_frame::key_tile(*plan, motion@, all, rect) == key_frame::key_sbs(
                *plan,
                motion@,
                start,
                all,
                order@,
                order@.len() as int,
            ),
            key_frame::key_sbs(*plan, motion@, start, all, order@, i as int) == state::going(
                tile@,
            ),
        decreases order@.len() - i,
    {
        let s: SbStep = order[i];
        proof {
            lemma_cell(s.0 as int, s.1 as int, sb_rows as int, sb_cols as int);
            assert(sbs@.len() == sbs.len());
            vstd::arithmetic::div_mod::lemma_fundamental_div_mod_converse(
                s.0 * sb_cols + s.1,
                sb_cols as int,
                s.0 as int,
                s.1 as int,
            );
        }
        let at: usize = s.0 as usize * sb_cols as usize + s.1 as usize;
        proof {
            assert(all[at as int] == sbs@[at as int]@);
            key_frame::lemma_no_bad_sb(all, all.len() as int, at as int);
        }
        write_sb_start(&mut tile, plan, s);
        let done = write_sb(
            &mut tile,
            plan,
            motion,
            &sbs[at],
            (s.0 * 16, s.1 * 16),
            &scans,
        );
        if done.is_err() {
            proof {
                key_frame::lemma_sbs_stay(
                    *plan,
                    motion@,
                    start,
                    all,
                    order@,
                    i + 1,
                    order@.len() as int,
                );
            }
            return (tile, done);
        }
        i += 1;
    }
    (tile, Ok(()))
}

/// A frame's superblocks, borrowed.
fn borrow_sbs<'a>(sbs: &'a [Superblock]) -> (r: Vec<SbRef<'a>>)
    ensures
        key_frame::sb_refs(r@) == key_frame::sb_views(sbs@),
{
    let ghost all = key_frame::sb_views(sbs@);
    let mut r: Vec<SbRef<'a>> = Vec::new();
    let mut i: usize = 0;
    while i < sbs.len()
        invariant
            i <= sbs@.len(),
            r@.len() == i,
            all == key_frame::sb_views(sbs@),
            forall|k: int| 0 <= k < i ==> (#[trigger] r@[k])@ == all[k],
        decreases sbs@.len() - i,
    {
        match &sbs[i] {
            Superblock::Whole(b) => {
                r.push(SbRef::Whole(b));
            },
            Superblock::Split(quads) => {
                let mut qs: Vec<QuadRef<'a>> = Vec::new();
                let mut q: usize = 0;
                while q < quads.len()
                    invariant
                        q <= quads@.len(),
                        qs@.len() == q,
                        forall|k: int| 0 <= k < q ==> (#[trigger] qs@[k])@ == quads@[k],
                    decreases quads@.len() - q,
                {
                    qs.push(QuadRef::Given(&quads[q]));
                    q += 1;
                }
                proof {
                    assert(key_frame::quad_refs(qs@) =~= quads@);
                }
                r.push(SbRef::Split(qs));
            },
        }
        i += 1;
    }
    proof {
        assert(key_frame::sb_refs(r@) =~= all);
    }
    r
}

/// Writes one tile of a key frame. Where a block's candidate vectors are not
/// among those given, the writer stops there; what the tile recorded until then
/// is what they follow from.
pub fn sb_coeff_key_frame_tile_cdfs(
    plan: &FramePlan,
    motion: &Vec<MotionContext>,
    superblocks: &[Superblock],
    rect: TileRect,
) -> (r: (Tile, Result<(), TileError>))
    requires
        plans::is_plan(*plan),
        key_block::are_motions(motion@),
        key_frame::are_key_sbs(*plan, key_frame::sb_views(superblocks@)),
    ensures
        state::is_step(
            key_frame::blank_tile(*plan, rect),
            r.0@,
            r.1,
            key_frame::key_tile(*plan, motion@, key_frame::sb_views(superblocks@), rect),
        ),
{
    let sbs: Vec<SbRef> = borrow_sbs(superblocks);
    write_key_tile(plan, motion, &sbs, rect)
}

/// Whether a trace is that of a key frame of one tile that uses none of the
/// optional tools.
pub open spec fn is_key_trace(
    mi_cols: u32,
    mi_rows: u32,
    base_q_idx: u8,
    sbs: Seq<SbView>,
    tx_select: bool,
    r: Result<Trace, TileError>,
) -> bool {
    let step = key_frame::key_tile(
        spec_plain(mi_cols, mi_rows, tx_select),
        Seq::empty(),
        sbs,
        tiles::spec_whole(mi_cols as int, mi_rows as int),
    );
    match step.fault {
        Some(e) => r == Err::<Trace, TileError>(e),
        None => r matches Ok(t) && t.q_ctx == layout::spec_q_ctx(base_q_idx as int) && t.ops@
            == step.tile.ops,
    }
}

fn trace_of(
    mi_cols: u32,
    mi_rows: u32,
    base_q_idx: u8,
    sbs: &Vec<SbRef>,
    tx_select: bool,
) -> (r: Result<Trace, TileError>)
    requires
        mi_cols <= layout::MAX_MI,
        mi_rows <= layout::MAX_MI,
        key_frame::are_key_sbs(
            spec_plain(mi_cols, mi_rows, tx_select),
            key_frame::sb_refs(sbs@),
        ),
    ensures
        is_key_trace(mi_cols, mi_rows, base_q_idx, key_frame::sb_refs(sbs@), tx_select, r),
{
    let plan: FramePlan = FramePlan::plain(mi_cols, mi_rows, tx_select);
    let motion: Vec<MotionContext> = Vec::new();
    let (tile, done) = write_key_tile(&plan, &motion, sbs, TileRect::whole(mi_cols, mi_rows));
    match done {
        Err(e) => Err(e),
        Ok(_) => Ok(Trace { q_ctx: q_ctx_of(base_q_idx), ops: tile.ops }),
    }
}

/// Writes a key frame of one tile, one entry per superblock in raster order.
pub fn sb_coeff_key_frame_tile(
    mi_cols: u32,
    mi_rows: u32,
    base_q_idx: u8,
    superblocks: &[Superblock],
) -> (r: Result<Trace, TileError>)
    requires
        mi_cols <= layout::MAX_MI,
        mi_rows <= layout::MAX_MI,
        key_frame::are_key_sbs(
            spec_plain(mi_cols, mi_rows, false),
            key_frame::sb_views(superblocks@),
        ),
    ensures
        is_key_trace(
            mi_cols,
            mi_rows,
            base_q_idx,
            key_frame::sb_views(superblocks@),
            false,
            r,
        ),
{
    sb_coeff_key_frame_tile_tx(mi_cols, mi_rows, base_q_idx, superblocks, false)
}

/// Writes a key frame of one tile in which each block may choose a smaller
/// transform, where `tx_select` says so.
pub fn sb_coeff_key_frame_tile_tx(
    mi_cols: u32,
    mi_rows: u32,
    base_q_idx: u8,
    superblocks: &[Superblock],
    tx_select: bool,
) -> (r: Result<Trace, TileError>)
    requires
        mi_cols <= layout::MAX_MI,
        mi_rows <= layout::MAX_MI,
        key_frame::are_key_sbs(
            spec_plain(mi_cols, mi_rows, tx_select),
            key_frame::sb_views(superblocks@),
        ),
    ensures
        is_key_trace(
            mi_cols,
            mi_rows,
            base_q_idx,
            key_frame::sb_views(superblocks@),
            tx_select,
            r,
        ),
{
    let sbs: Vec<SbRef> = borrow_sbs(superblocks);
    trace_of(mi_cols, mi_rows, base_q_idx, &sbs, tx_select)
}

/// The quadrants inside the frame of the superblock at a row and column, among
/// its first `i`, each one of a frame's 32x32 blocks.
pub open spec fn split_quads(
    blocks: Seq<BlockCoeffs>,
    mi_cols: u32,
    mi_rows: u32,
    sb_r: int,
    sb_c: int,
    i: int,
) -> Seq<Quadrant>
    decreases i,
{
    if i <= 0 {
        Seq::empty()
    } else {
        let before = split_quads(blocks, mi_cols, mi_rows, sb_r, sb_c, i - 1);
        let r = children::child_r(2 * sb_r, 1, i - 1);
        let c = children::child_c(2 * sb_c, 1, i - 1);
        let cols = layout::ceil_div(mi_cols as int, 8);
        if r < layout::ceil_div(mi_rows as int, 8) && c < cols {
            before.push(Quadrant::Whole(blocks[r * cols + c]))
        } else {
            before
        }
    }
}

/// The superblocks of a frame whose every superblock is split into 32x32
/// blocks.
pub open spec fn split_sbs(blocks: Seq<BlockCoeffs>, mi_cols: u32, mi_rows: u32) -> Seq<SbView> {
    let across = layout::superblocks(mi_cols as int);
    Seq::new(
        (layout::superblocks(mi_rows as int) * across) as nat,
        |i: int|
            SbView::Split(split_quads(blocks, mi_cols, mi_rows, i / across, i % across, 4)),
    )
}

/// The quadrants of one superblock of a frame of 32x32 blocks, borrowed.
fn borrow_quads<'a>(
    blocks: &'a [BlockCoeffs],
    mi_cols: u32,
    mi_rows: u32,
    sb_r: u32,
    sb_c: u32,
) -> (qs: Vec<QuadRef<'a>>)
    requires
        mi_cols <= layout::MAX_MI,
        mi_rows <= layout::MAX_MI,
        sb_r < layout::superblocks(mi_rows as int),
        sb_c < layout::superblocks(mi_cols as int),
        blocks@.len() == layout::ceil_div(mi_cols as int, 8) * layout::ceil_div(
            mi_rows as int,
            8,
        ),
    ensures
        key_frame::quad_refs(qs@) == split_quads(
            blocks@,
            mi_cols,
            mi_rows,
            sb_r as int,
            sb_c as int,
            4,
        ),
{
    let (cols, rows): (u32, u32) = block_grid(mi_cols, mi_rows);
    let mut qs: Vec<QuadRef<'a>> = Vec::new();
    let mut i: u32 = 0;
    proof {
        assert(key_frame::quad_refs(qs@) =~= Seq::<Quadrant>::empty());
    }
    while i < 4
        invariant
            i <= 4,
            cols == layout::ceil_div(mi_cols as int, 8),
            rows == layout::ceil_div(mi_rows as int, 8),
            mi_cols <= layout::MAX_MI,
            mi_rows <= layout::MAX_MI,
            sb_r < layout::superblocks(mi_rows as int),
            sb_c < layout::superblocks(mi_cols as int),
            blocks@.len() == cols * rows,
            key_frame::quad_refs(qs@) == split_quads(
                blocks@,
                mi_cols,
                mi_rows,
                sb_r as int,
                sb_c as int,
                i as int,
            ),
        decreases 4 - i,
    {
        let (r, c): (u32, u32) = child_at((sb_r * 2, sb_c * 2), 1, i);
        if r < rows && c < cols {
            proof {
                lemma_cell(r as int, c as int, rows as int, cols as int);
                assert(blocks@.len() == blocks.len());
            }
            let at: usize = r as usize * cols as usize + c as usize;
            let ghost before = key_frame::quad_refs(qs@);
            qs.push(QuadRef::Whole(&blocks[at]));
            proof {
                assert(key_frame::quad_refs(qs@) =~= before.push(
                    Quadrant::Whole(blocks@[at as int]),
                ));
            }
        }
        i += 1;
    }
    qs
}

/// Whether a trace is that of a key frame of 32x32 blocks, given in raster
/// order: refused for the frame's size or the number of blocks, or that of its
/// split superblocks.
pub open spec fn is_split_trace(
    mi_cols: u32,
    mi_rows: u32,
    base_q_idx: u8,
    blocks: Seq<BlockCoeffs>,
    r: Result<Trace, TileError>,
) -> bool {
    let held = blocks.len() == layout::ceil_div(mi_cols as int, 8) * layout::ceil_div(
        mi_rows as int,
        8,
    );
    &&& (mi_cols == 0 || mi_rows == 0) ==> r == Err::<Trace, TileError>(TileError::NoGrid)
    &&& mi_cols > 0 && mi_rows > 0 && !held ==> r == Err::<Trace, TileError>(
        TileError::BlockCount,
    )
    &&& mi_cols > 0 && mi_rows > 0 && held ==> is_key_trace(
        mi_cols,
        mi_rows,
        base_q_idx,
        split_sbs(blocks, mi_cols, mi_rows),
        false,
        r,
    )
}

/// Writes a key frame of one tile in which every superblock is split into
/// 32x32 blocks, given in raster order.
#[verifier::rlimit(100)]
pub fn split_coeff_key_frame_tile(
    mi_cols: u32,
    mi_rows: u32,
    base_q_idx: u8,
    blocks: &[BlockCoeffs],
) -> (r: Result<Trace, TileError>)
    requires
        mi_cols <= layout::MAX_MI,
        mi_rows <= layout::MAX_MI,
        key_frame::are_key_blocks(spec_plain(mi_cols, mi_rows, false), blocks@),
    ensures
        is_split_trace(mi_cols, mi_rows, base_q_idx, blocks@, r),
{
    if let Err(e) = check_blocks(mi_cols, mi_rows) {
        return Err(e);
    }
    let (cols, rows): (u32, u32) = block_grid(mi_cols, mi_rows);
    proof {
        assert(0 <= cols * rows <= 0x2000_0000 * 0x2000_0000) by (nonlinear_arith)
            requires
                cols <= 0x2000_0000,
                rows <= 0x2000_0000,
        ;
    }
    if blocks.len() as u64 != cols as u64 * rows as u64 {
        return Err(TileError::BlockCount);
    }
    let (sb_cols, sb_rows): (u32, u32) = superblock_grid(mi_cols, mi_rows);
    let ghost all = split_sbs(blocks@, mi_cols, mi_rows);
    let ghost plan = spec_plain(mi_cols, mi_rows, false);
    let mut sbs: Vec<SbRef> = Vec::new();
    let mut r: u32 = 0;
    while r < sb_rows
        invariant
            r <= sb_rows,
            mi_cols <= layout::MAX_MI,
            mi_rows <= layout::MAX_MI,
            sb_cols == layout::superblocks(mi_cols as int),
            sb_rows == layout::superblocks(mi_rows as int),
            blocks@.len() == layout::ceil_div(mi_cols as int, 8) * layout::ceil_div(
                mi_rows as int,
                8,
            ),
            all == split_sbs(blocks@, mi_cols, mi_rows),
            sbs@.len() == r * sb_cols,
            forall|k: int| 0 <= k < sbs@.len() ==> (#[trigger] sbs@[k])@ == all[k],
        decreases sb_rows - r,
    {
        let mut c: u32 = 0;
        while c < sb_cols
            invariant
                c <= sb_cols,
                r < sb_rows,
                mi_cols <= layout::MAX_MI,
                mi_rows <= layout::MAX_MI,
                sb_cols == layout::superblocks(mi_cols as int),
                sb_rows == layout::superblocks(mi_rows as int),
                blocks@.len() == layout::ceil_div(mi_cols as int, 8) * layout::ceil_div(
                    mi_rows as int,
                    8,
                ),
                all == split_sbs(blocks@, mi_cols, mi_rows),
                sbs@.len() == r * sb_cols + c,
                forall|k: int| 0 <= k < sbs@.len() ==> (#[trigger] sbs@[k])@ == all[k],
            decreases sb_cols - c,
        {
            let ghost at = r * sb_cols + c;
            proof {
                lemma_cell(r as int, c as int, sb_rows as int, sb_cols as int);
                assert(sb_cols * sb_rows == sb_rows * sb_cols) by (nonlinear_arith);
                vstd::arithmetic::div_mod::lemma_fundamental_div_mod_converse(
                    at,
                    sb_cols as int,
                    r as int,
                    c as int,
                );
            }
            sbs.push(SbRef::Split(borrow_quads(blocks, mi_cols, mi_rows, r, c)));
            proof {
                assert(sbs@[at]@ == all[at]);
            }
            c += 1;
        }
        proof {
            assert((r + 1) * sb_cols == r * sb_cols + sb_cols) by (nonlinear_arith);
        }
        r += 1;
    }
    proof {
        assert(key_frame::sb_refs(sbs@) =~= all);
        assert forall|i: int| 0 <= i < all.len() implies key_frame::is_key_sb(
            plan,
            #[trigger] all[i],
            16 * (i / sb_cols as int),
            16 * (i % sb_cols as int),
        ) by {
            lemma_split_is_key(blocks@, mi_cols, mi_rows, i);
        }
    }
    trace_of(mi_cols, mi_rows, base_q_idx, &sbs, false)
}

/// Whether two writers came to the same end: the same symbols over the same
/// tables, or the same error.
pub open spec fn same_end(r: Result<Trace, TileError>, s: Result<Trace, TileError>) -> bool {
    match (r, s) {
        (Ok(a), Ok(b)) => a.q_ctx == b.q_ctx && a.ops@ == b.ops@,
        (Err(a), Err(b)) => a == b,
        _ => false,
    }
}

/// Whether each superblock of a frame is split into the frame's 32x32 blocks.
pub open spec fn are_split(
    sbs: Seq<Superblock>,
    blocks: Seq<BlockCoeffs>,
    mi_cols: u32,
    mi_rows: u32,
) -> bool {
    let across = layout::superblocks(mi_cols as int);
    &&& sbs.len() == layout::superblocks(mi_rows as int) * across
    &&& forall|i: int|
        0 <= i < sbs.len() ==> (#[trigger] sbs[i] matches Superblock::Split(quads) && quads@
            == split_quads(blocks, mi_cols, mi_rows, i / across, i % across, 4))
}

/// The writer of 32x32 blocks and the writer of superblocks agree: on a frame
/// whose every superblock is split into the same blocks, what
/// `split_coeff_key_frame_tile` returns is what `sb_coeff_key_frame_tile` does.
pub proof fn splitting_every_superblock_is_writing_its_blocks(
    mi_cols: u32,
    mi_rows: u32,
    base_q_idx: u8,
    blocks: Seq<BlockCoeffs>,
    sbs: Seq<Superblock>,
    r: Result<Trace, TileError>,
    s: Result<Trace, TileError>,
)
    requires
        are_split(sbs, blocks, mi_cols, mi_rows),
        is_split_trace(mi_cols, mi_rows, base_q_idx, blocks, r),
        is_key_trace(mi_cols, mi_rows, base_q_idx, key_frame::sb_views(sbs), false, s),
        blocks.len() == layout::ceil_div(mi_cols as int, 8) * layout::ceil_div(
            mi_rows as int,
            8,
        ),
    ensures
        same_end(r, s),
{
    if mi_cols > 0 && mi_rows > 0 {
        let views = key_frame::sb_views(sbs);
        let all = split_sbs(blocks, mi_cols, mi_rows);
        assert forall|i: int| 0 <= i < views.len() implies views[i] == all[i] by {
            assert(views[i] == key_frame::sb_view(sbs[i]));
        }
        assert(views =~= all);
    } else {
        reveal(key_frame::key_tile);
    }
}

/// A quadrant of a split superblock is the frame's block at its place.
proof fn lemma_split_quads(
    blocks: Seq<BlockCoeffs>,
    mi_cols: u32,
    mi_rows: u32,
    sb_r: int,
    sb_c: int,
    i: int,
)
    requires
        0 <= i <= 4,
    ensures
        ({
            let plan = spec_plain(mi_cols, mi_rows, false);
            let quads = split_quads(blocks, mi_cols, mi_rows, sb_r, sb_c, i);
            &&& quads.len() == children::inside_before(plan, 16 * sb_r, 16 * sb_c, 8, i)
            &&& forall|k: int|
                0 <= k < i && #[trigger] children::is_inside(plan, 16 * sb_r, 16 * sb_c, 8, k)
                    ==> {
                    let r = children::child_r(2 * sb_r, 1, k);
                    let c = children::child_c(2 * sb_c, 1, k);
                    let cols = layout::ceil_div(mi_cols as int, 8);
                    let at = children::inside_before(plan, 16 * sb_r, 16 * sb_c, 8, k);
                    &&& r < layout::ceil_div(mi_rows as int, 8)
                    &&& c < cols
                    &&& 0 <= at < quads.len()
                    &&& quads[at] == Quadrant::Whole(blocks[r * cols + c])
                }
        }),
    decreases i,
{
    if i > 0 {
        let plan = spec_plain(mi_cols, mi_rows, false);
        lemma_split_quads(blocks, mi_cols, mi_rows, sb_r, sb_c, i - 1);
        children::lemma_inside_before(plan, 16 * sb_r, 16 * sb_c, 8, i - 1);
    }
}

proof fn lemma_split_is_key(blocks: Seq<BlockCoeffs>, mi_cols: u32, mi_rows: u32, i: int)
    requires
        mi_cols > 0,
        mi_rows > 0,
        blocks.len() == layout::ceil_div(mi_cols as int, 8) * layout::ceil_div(
            mi_rows as int,
            8,
        ),
        key_frame::are_key_blocks(spec_plain(mi_cols, mi_rows, false), blocks),
        0 <= i < split_sbs(blocks, mi_cols, mi_rows).len(),
    ensures
        ({
            let across = layout::superblocks(mi_cols as int);
            key_frame::is_key_sb(
                spec_plain(mi_cols, mi_rows, false),
                split_sbs(blocks, mi_cols, mi_rows)[i],
                16 * (i / across),
                16 * (i % across),
            )
        }),
{
    let plan = spec_plain(mi_cols, mi_rows, false);
    let across = layout::superblocks(mi_cols as int);
    let cols = layout::ceil_div(mi_cols as int, 8);
    let rows = layout::ceil_div(mi_rows as int, 8);
    let sb_r = i / across;
    let sb_c = i % across;
    let quads = split_quads(blocks, mi_cols, mi_rows, sb_r, sb_c, 4);
    assert(sb_r >= 0) by (nonlinear_arith)
        requires
            i >= 0,
            across > 0,
            sb_r == i / across,
    ;
    lemma_split_quads(blocks, mi_cols, mi_rows, sb_r, sb_c, 4);
    assert forall|k: int|
        0 <= k < 4 && #[trigger] children::is_inside(
            plan,
            16 * sb_r,
            16 * sb_c,
            8,
            k,
        ) implies key_frame::is_key_quad(
        plan,
        quads[children::inside_before(plan, 16 * sb_r, 16 * sb_c, 8, k)],
        children::child_r(16 * sb_r, 8, k),
        children::child_c(16 * sb_c, 8, k),
    ) by {
        let r = children::child_r(2 * sb_r, 1, k);
        let c = children::child_c(2 * sb_c, 1, k);
        lemma_cell(r, c, rows, cols);
        vstd::arithmetic::div_mod::lemma_fundamental_div_mod_converse(r * cols + c, cols, r, c);
        assert(key_frame::is_key_quad(
            plan,
            Quadrant::Whole(blocks[r * cols + c]),
            8 * r,
            8 * c,
        ));
    }
}

} // verus!
