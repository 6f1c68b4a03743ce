//! What a decoder reads back of a whole tile of a key frame.
use crate::tile::blocks::{BlockCoeffs, Quadrant};
use crate::tile::children;
use crate::tile::intra;
use crate::tile::intra_read_back;
use crate::tile::key_block;
use crate::tile::key_frame;
use crate::tile::key_frame::SbView;
use crate::tile::key_read_back;
use crate::tile::layout;
use crate::tile::layout::SbStep;
use crate::tile::motion::MotionContext;
use crate::tile::neighbours;
use crate::tile::ops;
use crate::tile::ops::{Cdf, Op};
use crate::tile::palette_bands;
use crate::tile::plans;
use crate::tile::plans::FramePlan;
use crate::tile::read_back;
use crate::tile::state;
use crate::tile::state::{Step, TileView};
use crate::tile::tile_read_back;
use crate::tile::tiles::TileRect;
use vstd::prelude::*;

verus! {

/// One block of a key frame as it is written: the tile it is written to, where,
/// and the luma modes beside it.
pub struct Visit {
    /// The tile, up to the block's partition.
    pub t: TileView,
    /// The block.
    pub block: BlockCoeffs,
    /// Its first unit row and column.
    pub mi: (int, int),
    /// Its side.
    pub side: int,
    /// The luma modes above it and to its left.
    pub modes: (int, int),
}

/// What writing a block comes to.
pub open spec fn visited(plan: FramePlan, motion: Seq<MotionContext>, v: Visit) -> Step {
    key_block::key_block(
        plan,
        motion,
        v.t,
        v.block,
        v.mi.0,
        v.mi.1,
        v.side,
        v.modes.0,
        v.modes.1,
    )
}

/// The visit of a whole block.
pub open spec fn whole_visit(
    t: TileView,
    block: BlockCoeffs,
    mi: (int, int),
    side: int,
    table: Cdf,
) -> Visit {
    Visit {
        t: TileView { ops: t.ops.push(ops::symbol(0, table)), ..t },
        block,
        mi,
        side,
        modes: (
            t.bands.above_mode[mi.1 / 4] as int,
            t.bands.left_mode[mi.0 / 4] as int,
        ),
    }
}

/// The visits of the first `i` leaves of a 16x16 block.
pub open spec fn leaf_visits(
    plan: FramePlan,
    motion: Seq<MotionContext>,
    t: TileView,
    leaves: Seq<BlockCoeffs>,
    mi: (int, int),
    i: int,
) -> Seq<Visit>
    decreases i,
{
    if i <= 0 {
        Seq::empty()
    } else {
        let seen = leaf_visits(plan, motion, t, leaves, mi, i - 1);
        if !children::is_inside(plan, mi.0, mi.1, 2, i - 1) {
            seen
        } else {
            seen.push(leaf_visit(plan, motion, t, leaves, mi, i - 1))
        }
    }
}

/// The visit of leaf `i`.
pub open spec fn leaf_visit(
    plan: FramePlan,
    motion: Seq<MotionContext>,
    t: TileView,
    leaves: Seq<BlockCoeffs>,
    mi: (int, int),
    i: int,
) -> Visit {
    let before = key_frame::key_leaves(plan, motion, t, leaves, mi.0, mi.1, i);
    let b = before.step.tile.bands;
    let r = children::child_r(mi.0, 2, i);
    let c = children::child_c(mi.1, 2, i);
    let ctx = neighbours::spec_partition_ctx(b, r, c, 8);
    Visit {
        t: TileView {
            ops: before.step.tile.ops.push(ops::symbol(0, Cdf::PartitionW8(ctx as usize))),
            ..before.step.tile
        },
        block: leaves[children::inside_before(plan, mi.0, mi.1, 2, i)],
        mi: (r, c),
        side: 8,
        modes: (
            key_frame::leaf_above(b, before.last, r, c),
            key_frame::leaf_left(b, before.last, r, c),
        ),
    }
}

/// The visits of one 16x16 block: itself where it lies inside the frame, else
/// its leaves.
pub open spec fn sub_visits(
    plan: FramePlan,
    motion: Seq<MotionContext>,
    t: TileView,
    block: BlockCoeffs,
    mi: (int, int),
) -> Seq<Visit> {
    let cols = key_frame::has_cols(plan, mi.1, 4);
    let rows = key_frame::has_rows(plan, mi.0, 4);
    let table = Cdf::PartitionW16(
        neighbours::spec_partition_ctx(t.bands, mi.0, mi.1, 16) as usize,
    );
    if cols && rows {
        seq![whole_visit(t, block, mi, 16, table)]
    } else {
        match block.eight {
            None => Seq::empty(),
            Some(leaves) => leaf_visits(
                plan,
                motion,
                state::said(t, plans::split_ops(table, cols, rows)),
                leaves@,
                mi,
                4,
            ),
        }
    }
}

/// The visits of the first `i` quarters of a split 32x32 block.
pub open spec fn subs_visits(
    plan: FramePlan,
    motion: Seq<MotionContext>,
    t: TileView,
    blocks: Seq<BlockCoeffs>,
    mi: (int, int),
    i: int,
) -> Seq<Visit>
    decreases i,
{
    if i <= 0 {
        Seq::empty()
    } else {
        let seen = subs_visits(plan, motion, t, blocks, mi, i - 1);
        if !children::is_inside(plan, mi.0, mi.1, 4, i - 1) {
            seen
        } else {
            seen + sub_visits(
                plan,
                motion,
                key_frame::key_subs(plan, motion, t, blocks, mi.0, mi.1, i - 1).tile,
                blocks[children::inside_before(plan, mi.0, mi.1, 4, i - 1)],
                (children::child_r(mi.0, 4, i - 1), children::child_c(mi.1, 4, i - 1)),
            )
        }
    }
}

/// The visits of one 32x32 quadrant.
pub open spec fn quad_visits(
    plan: FramePlan,
    motion: Seq<MotionContext>,
    t: TileView,
    quad: Quadrant,
    mi: (int, int),
) -> Seq<Visit> {
    let cols = key_frame::has_cols(plan, mi.1, 8);
    let rows = key_frame::has_rows(plan, mi.0, 8);
    let table = Cdf::PartitionW32(
        neighbours::spec_partition_ctx(t.bands, mi.0, mi.1, 32) as usize,
    );
    match quad {
        Quadrant::Whole(block) => seq![whole_visit(t, block, mi, 32, table)],
        Quadrant::Split(blocks) => subs_visits(
            plan,
            motion,
            state::said(t, plans::split_ops(table, cols, rows)),
            blocks@,
            mi,
            4,
        ),
        _ => Seq::empty(),
    }
}

/// The visits of the first `i` quadrants of a split superblock.
pub open spec fn quads_visits(
    plan: FramePlan,
    motion: Seq<MotionContext>,
    t: TileView,
    quads: Seq<Quadrant>,
    mi: (int, int),
    i: int,
) -> Seq<Visit>
    decreases i,
{
    if i <= 0 {
        Seq::empty()
    } else {
        let seen = quads_visits(plan, motion, t, quads, mi, i - 1);
        if !children::is_inside(plan, mi.0, mi.1, 8, i - 1) {
            seen
        } else {
            seen + quad_visits(
                plan,
                motion,
                key_frame::key_quads(plan, motion, t, quads, mi.0, mi.1, i - 1).tile,
                quads[children::inside_before(plan, mi.0, mi.1, 8, i - 1)],
                (children::child_r(mi.0, 8, i - 1), children::child_c(mi.1, 8, i - 1)),
            )
        }
    }
}

/// The visits of one superblock.
pub open spec fn sb_visits(
    plan: FramePlan,
    motion: Seq<MotionContext>,
    t: TileView,
    sb: SbView,
    mi: (int, int),
) -> Seq<Visit> {
    let cols = key_frame::has_cols(plan, mi.1, 16);
    let rows = key_frame::has_rows(plan, mi.0, 16);
    let table = Cdf::PartitionW64(
        neighbours::spec_partition_ctx(t.bands, mi.0, mi.1, 64) as usize,
    );
    match sb {
        SbView::Whole(block) => seq![whole_visit(t, block, mi, 64, table)],
        SbView::Split(quads) => quads_visits(
            plan,
            motion,
            state::said(t, plans::split_ops(table, cols, rows)),
            quads,
            mi,
            4,
        ),
    }
}

/// The visits of the first `count` superblocks of a tile.
pub open spec fn sbs_visits(
    plan: FramePlan,
    motion: Seq<MotionContext>,
    t: TileView,
    sbs: Seq<SbView>,
    order: Seq<SbStep>,
    count: int,
) -> Seq<Visit>
    decreases count,
{
    if count <= 0 {
        Seq::empty()
    } else {
        let s = order[count - 1];
        sbs_visits(plan, motion, t, sbs, order, count - 1) + sb_visits(
            plan,
            motion,
            key_frame::sb_start(
                plan,
                key_frame::key_sbs(plan, motion, t, sbs, order, count - 1).tile,
                s,
            ),
            sbs[s.0 * layout::superblocks(plan.mi_cols as int) + s.1],
            (16 * s.0, 16 * s.1),
        )
    }
}

/// The blocks of a tile of a key frame in the order they are written.
pub open spec fn key_visits(
    plan: FramePlan,
    motion: Seq<MotionContext>,
    sbs: Seq<SbView>,
    rect: TileRect,
) -> Seq<Visit> {
    let order = key_frame::tile_order(plan, rect);
    sbs_visits(
        plan,
        motion,
        key_frame::blank_tile(plan, rect),
        sbs,
        order,
        order.len() as int,
    )
}

/// Whether a decoder can tell a block where it is written.
pub open spec fn is_visit_told(plan: FramePlan, motion: Seq<MotionContext>, v: Visit) -> bool {
    &&& key_read_back::is_key_told(plan, motion, v.t, v.block, v.mi, v.side)
    &&& intra_read_back::is_settled(v.block)
}

/// Whether a decoder can tell each of several blocks.
pub open spec fn are_visits_told(
    plan: FramePlan,
    motion: Seq<MotionContext>,
    vs: Seq<Visit>,
) -> bool {
    forall|k: int| 0 <= k < vs.len() ==> is_visit_told(plan, motion, #[trigger] vs[k])
}

/// Whether two blocks are the same to a decoder, at the same place and in the
/// same state of the tile.
pub open spec fn same_visit(plan: FramePlan, v: Visit, w: Visit) -> bool {
    &&& v.mi == w.mi
    &&& v.side == w.side
    &&& v.modes == w.modes
    &&& state::same_state(v.t, w.t)
    &&& key_read_back::same_key_block(plan, v.t, v.block, w.block, v.mi, v.side)
}

/// Whether two tiles hold the same blocks, one by one.
pub open spec fn same_visits(plan: FramePlan, vs: Seq<Visit>, ws: Seq<Visit>) -> bool {
    &&& vs.len() == ws.len()
    &&& forall|k: int| 0 <= k < vs.len() ==> same_visit(plan, #[trigger] vs[k], ws[k])
}

/// Writing a block adds to a tile, keeps its frame, and does the same to two
/// that look alike.
proof fn lemma_visit_moves(
    plan: FramePlan,
    motion: Seq<MotionContext>,
    v: Visit,
    t: TileView,
)
    requires
        intra::is_block_side(v.side),
        0 <= v.mi.0 < v.t.bands.mi_rows,
        0 <= v.mi.1 < v.t.bands.mi_cols,
        key_block::is_key_block(plan, v.block, v.side),
        tile_read_back::is_ready(plan, v.t.bands),
        visited(plan, motion, v).fault is None,
        tile_read_back::look_alike(v.t, t),
    ensures
        v.t.ops.is_prefix_of(visited(plan, motion, v).tile.ops),
        tile_read_back::is_ready(plan, visited(plan, motion, v).tile.bands),
        tile_read_back::look_alike(
            visited(plan, motion, v).tile,
            visited(plan, motion, (Visit { t, ..v })).tile,
        ),
        visited(plan, motion, (Visit { t, ..v })).fault is None,
{
    key_read_back::blocks_do_the_same_to_like_tiles(
        plan,
        motion,
        v.t,
        t,
        v.block,
        v.mi,
        v.side,
        v.modes,
    );
    key_read_back::key_blocks_keep_palettes_in_order(
        plan,
        motion,
        v.t,
        v.block,
        v.mi,
        v.side,
        v.modes,
    );
}

/// A block reads back where it is written, from tiles that look alike.
proof fn lemma_visit_told(
    plan: FramePlan,
    motion: Seq<MotionContext>,
    v: Visit,
    w: Visit,
    x: Seq<Op>,
    y: Seq<Op>,
)
    requires
        v.mi == w.mi,
        v.side == w.side,
        v.modes == w.modes,
        key_block::is_place(plan, v.t.bands, v.mi.0, v.mi.1, v.side),
        v.mi.0 < plan.mi_rows,
        v.mi.1 < plan.mi_cols,
        tile_read_back::is_ready(plan, v.t.bands),
        tile_read_back::look_alike(v.t, w.t),
        is_visit_told(plan, motion, v),
        is_visit_told(plan, motion, w),
        visited(plan, motion, v).fault is None,
        visited(plan, motion, w).fault is None,
        read_back::coded(visited(plan, motion, v).tile.ops) + x == read_back::coded(
            visited(plan, motion, w).tile.ops,
        ) + y,
    ensures
        same_visit(plan, v, w),
        x == y,
        tile_read_back::look_alike(visited(plan, motion, v).tile, visited(plan, motion, w).tile),
        tile_read_back::is_ready(plan, visited(plan, motion, v).tile.bands),
{
    lemma_visit_moves(plan, motion, v, w.t);
    palette_bands::lemma_caches(w.t.bands, v.mi);
    let moved = Visit { t: w.t, ..v };
    key_read_back::key_blocks_read_back(
        plan,
        motion,
        w.t,
        v.block,
        w.block,
        v.mi,
        v.side,
        v.modes,
        x,
        y,
    );
    if v.block.dv is None {
        intra_read_back::settled_palettes_are_the_same(
            plan,
            w.t.bands,
            v.block,
            w.block,
            v.side,
            v.side < 64,
        );
    }
    assert(state::same_state(visited(plan, motion, v).tile, visited(plan, motion, moved).tile));
}

/// Blocks that can be told one by one can be told in parts.
proof fn lemma_told_parts(
    plan: FramePlan,
    motion: Seq<MotionContext>,
    p: Seq<Visit>,
    q: Seq<Visit>,
)
    requires
        are_visits_told(plan, motion, p + q),
    ensures
        are_visits_told(plan, motion, p),
        are_visits_told(plan, motion, q),
{
    assert forall|k: int| 0 <= k < p.len() implies is_visit_told(plan, motion, #[trigger] p[k]) by {
        assert((p + q)[k] == p[k]);
    }
    assert forall|k: int| 0 <= k < q.len() implies is_visit_told(plan, motion, #[trigger] q[k]) by {
        assert((p + q)[p.len() + k] == q[k]);
    }
}

/// Blocks that are the same in two parts are the same.
proof fn lemma_same_sum(
    plan: FramePlan,
    p: Seq<Visit>,
    q: Seq<Visit>,
    r: Seq<Visit>,
    s: Seq<Visit>,
)
    requires
        same_visits(plan, p, r),
        same_visits(plan, q, s),
    ensures
        same_visits(plan, p + q, r + s),
{
    assert forall|k: int| 0 <= k < (p + q).len() implies same_visit(
        plan,
        #[trigger] (p + q)[k],
        (r + s)[k],
    ) by {
        if k < p.len() {
            assert(same_visit(plan, p[k], r[k]));
        } else {
            assert(same_visit(plan, q[k - p.len()], s[k - p.len()]));
        }
    }
}

/// A whole block adds to a tile, and keeps its frame.
proof fn lemma_whole_adds(
    plan: FramePlan,
    motion: Seq<MotionContext>,
    t: TileView,
    block: BlockCoeffs,
    mi: (int, int),
    side: int,
    table: Cdf,
)
    requires
        tile_read_back::is_block_at(plan, t.bands, mi, side),
        is_visit_told(plan, motion, whole_visit(t, block, mi, side, table)),
        key_frame::key_whole(plan, motion, t, block, mi.0, mi.1, side, table).fault is None,
    ensures
        ({
            let done = key_frame::key_whole(plan, motion, t, block, mi.0, mi.1, side, table).tile;
            &&& t.ops.is_prefix_of(done.ops)
            &&& tile_read_back::is_ready(plan, done.bands)
        }),
{
    let v = whole_visit(t, block, mi, side, table);
    lemma_visit_moves(plan, motion, v, v.t);
    assert(v.t.ops =~= t.ops + seq![ops::symbol(0, table)]);
    tile_read_back::lemma_prefix_of_sum(t.ops, seq![ops::symbol(0, table)]);
    tile_read_back::lemma_prefix_trans(t.ops, v.t.ops, visited(plan, motion, v).tile.ops);
}

/// A whole block reads back.
proof fn lemma_whole_told(
    plan: FramePlan,
    motion: Seq<MotionContext>,
    s: TileView,
    t: TileView,
    a: BlockCoeffs,
    b: BlockCoeffs,
    mi: (int, int),
    side: int,
    table: Cdf,
    x: Seq<Op>,
    y: Seq<Op>,
)
    requires
        tile_read_back::look_alike(s, t),
        tile_read_back::is_block_at(plan, s.bands, mi, side),
        is_visit_told(plan, motion, whole_visit(s, a, mi, side, table)),
        is_visit_told(plan, motion, whole_visit(t, b, mi, side, table)),
        key_frame::key_whole(plan, motion, s, a, mi.0, mi.1, side, table).fault is None,
        key_frame::key_whole(plan, motion, t, b, mi.0, mi.1, side, table).fault is None,
        read_back::coded(
            key_frame::key_whole(plan, motion, s, a, mi.0, mi.1, side, table).tile.ops,
        ) + x == read_back::coded(
            key_frame::key_whole(plan, motion, t, b, mi.0, mi.1, side, table).tile.ops,
        ) + y,
    ensures
        same_visits(
            plan,
            seq![whole_visit(s, a, mi, side, table)],
            seq![whole_visit(t, b, mi, side, table)],
        ),
        x == y,
        tile_read_back::look_alike(
            key_frame::key_whole(plan, motion, s, a, mi.0, mi.1, side, table).tile,
            key_frame::key_whole(plan, motion, t, b, mi.0, mi.1, side, table).tile,
        ),
        tile_read_back::is_ready(
            plan,
            key_frame::key_whole(plan, motion, s, a, mi.0, mi.1, side, table).tile.bands,
        ),
{
    let v = whole_visit(s, a, mi, side, table);
    let w = whole_visit(t, b, mi, side, table);
    tile_read_back::lemma_pushed_alike(s, t, ops::symbol(0, table));
    lemma_visit_told(plan, motion, v, w, x, y);
}

/// The leaves of a 16x16 block add to a tile, and keep its frame.
proof fn lemma_leaves_add(
    plan: FramePlan,
    motion: Seq<MotionContext>,
    t: TileView,
    leaves: Seq<BlockCoeffs>,
    mi: (int, int),
    i: int,
)
    requires
        0 <= i <= 4,
        tile_read_back::is_ready(plan, t.bands),
        0 <= mi.0 < plan.mi_rows,
        0 <= mi.1 < plan.mi_cols,
        mi.0 % 4 == 0,
        mi.1 % 4 == 0,
        key_frame::key_leaves(plan, motion, t, leaves, mi.0, mi.1, i).step.fault is None,
        are_visits_told(plan, motion, leaf_visits(plan, motion, t, leaves, mi, i)),
    ensures
        t.ops.is_prefix_of(
            key_frame::key_leaves(plan, motion, t, leaves, mi.0, mi.1, i).step.tile.ops,
        ),
        tile_read_back::is_ready(
            plan,
            key_frame::key_leaves(plan, motion, t, leaves, mi.0, mi.1, i).step.tile.bands,
        ),
        i > 0 && children::is_inside(plan, mi.0, mi.1, 2, i - 1) ==> {
            let before = key_frame::key_leaves(plan, motion, t, leaves, mi.0, mi.1, i - 1);
            &&& before.step.fault is None
            &&& before.step.tile.ops.is_prefix_of(
                key_frame::key_leaves(plan, motion, t, leaves, mi.0, mi.1, i).step.tile.ops,
            )
            &&& tile_read_back::is_block_at(
                plan,
                before.step.tile.bands,
                (children::child_r(mi.0, 2, i - 1), children::child_c(mi.1, 2, i - 1)),
                8,
            )
        },
    decreases i,
{
    if i > 0 {
        let seen = leaf_visits(plan, motion, t, leaves, mi, i - 1);
        let before = key_frame::key_leaves(plan, motion, t, leaves, mi.0, mi.1, i - 1);
        if children::is_inside(plan, mi.0, mi.1, 2, i - 1) {
            let v = leaf_visit(plan, motion, t, leaves, mi, i - 1);
            assert(seen.push(v) =~= seen + seq![v]);
            lemma_told_parts(plan, motion, seen, seq![v]);
            lemma_leaves_add(plan, motion, t, leaves, mi, i - 1);
            assert(is_visit_told(plan, motion, seq![v][0]));
            lemma_visit_moves(plan, motion, v, v.t);
            let symbol = seq![v.t.ops.last()];
            assert(v.t.ops =~= before.step.tile.ops + symbol);
            tile_read_back::lemma_prefix_of_sum(before.step.tile.ops, symbol);
            tile_read_back::lemma_prefix_trans(
                before.step.tile.ops,
                v.t.ops,
                visited(plan, motion, v).tile.ops,
            );
            tile_read_back::lemma_prefix_trans(
                t.ops,
                before.step.tile.ops,
                visited(plan, motion, v).tile.ops,
            );
        } else {
            lemma_leaves_add(plan, motion, t, leaves, mi, i - 1);
        }
    } else {
        assert(t.ops.subrange(0, t.ops.len() as int) =~= t.ops);
    }
}

/// The leaves of a 16x16 block read back.
#[verifier::rlimit(60)]
proof fn lemma_leaves_told(
    plan: FramePlan,
    motion: Seq<MotionContext>,
    s: TileView,
    t: TileView,
    a: Seq<BlockCoeffs>,
    b: Seq<BlockCoeffs>,
    mi: (int, int),
    i: int,
    x: Seq<Op>,
    y: Seq<Op>,
)
    requires
        0 <= i <= 4,
        tile_read_back::look_alike(s, t),
        tile_read_back::is_ready(plan, s.bands),
        0 <= mi.0 < plan.mi_rows,
        0 <= mi.1 < plan.mi_cols,
        mi.0 % 4 == 0,
        mi.1 % 4 == 0,
        key_frame::key_leaves(plan, motion, s, a, mi.0, mi.1, i).step.fault is None,
        key_frame::key_leaves(plan, motion, t, b, mi.0, mi.1, i).step.fault is None,
        are_visits_told(plan, motion, leaf_visits(plan, motion, s, a, mi, i)),
        are_visits_told(plan, motion, leaf_visits(plan, motion, t, b, mi, i)),
        read_back::coded(
            key_frame::key_leaves(plan, motion, s, a, mi.0, mi.1, i).step.tile.ops,
        ) + x == read_back::coded(
            key_frame::key_leaves(plan, motion, t, b, mi.0, mi.1, i).step.tile.ops,
        ) + y,
    ensures
        same_visits(
            plan,
            leaf_visits(plan, motion, s, a, mi, i),
            leaf_visits(plan, motion, t, b, mi, i),
        ),
        x == y,
        tile_read_back::look_alike(
            key_frame::key_leaves(plan, motion, s, a, mi.0, mi.1, i).step.tile,
            key_frame::key_leaves(plan, motion, t, b, mi.0, mi.1, i).step.tile,
        ),
        key_frame::key_leaves(plan, motion, s, a, mi.0, mi.1, i).last == key_frame::key_leaves(
            plan,
            motion,
            t,
            b,
            mi.0,
            mi.1,
            i,
        ).last,
    decreases i,
{
    let ea = key_frame::key_leaves(plan, motion, s, a, mi.0, mi.1, i).step.tile;
    let eb = key_frame::key_leaves(plan, motion, t, b, mi.0, mi.1, i).step.tile;
    if i <= 0 {
        read_back::lemma_parts(read_back::coded(s.ops), x, read_back::coded(t.ops), y);
    } else {
        lemma_leaves_add(plan, motion, s, a, mi, i);
        lemma_leaves_add(plan, motion, t, b, mi, i);
        let ba = key_frame::key_leaves(plan, motion, s, a, mi.0, mi.1, i - 1);
        let bb = key_frame::key_leaves(plan, motion, t, b, mi.0, mi.1, i - 1);
        let sa = leaf_visits(plan, motion, s, a, mi, i - 1);
        let sb = leaf_visits(plan, motion, t, b, mi, i - 1);
        if children::is_inside(plan, mi.0, mi.1, 2, i - 1) {
            let v = leaf_visit(plan, motion, s, a, mi, i - 1);
            let w = leaf_visit(plan, motion, t, b, mi, i - 1);
            assert(sa.push(v) =~= sa + seq![v]);
            assert(sb.push(w) =~= sb + seq![w]);
            lemma_told_parts(plan, motion, sa, seq![v]);
            lemma_told_parts(plan, motion, sb, seq![w]);
            let ra = tile_read_back::lemma_rest(ba.step.tile.ops, ea.ops);
            let rb = tile_read_back::lemma_rest(bb.step.tile.ops, eb.ops);
            tile_read_back::lemma_regrouped(ba.step.tile, ea, ra, x);
            tile_read_back::lemma_regrouped(bb.step.tile, eb, rb, y);
            lemma_leaves_told(plan, motion, s, t, a, b, mi, i - 1, ra + x, rb + y);
            tile_read_back::lemma_pushed_alike(ba.step.tile, bb.step.tile, v.t.ops.last());
            assert(v.t.ops.last() == w.t.ops.last());
            assert(is_visit_told(plan, motion, seq![v][0]));
            assert(is_visit_told(plan, motion, seq![w][0]));
            lemma_visit_told(plan, motion, v, w, x, y);
            lemma_same_sum(plan, sa, seq![v], sb, seq![w]);
        } else {
            lemma_leaves_told(plan, motion, s, t, a, b, mi, i - 1, x, y);
        }
    }
}

/// A 16x16 block adds to a tile, and keeps its frame.
proof fn lemma_sub_adds(
    plan: FramePlan,
    motion: Seq<MotionContext>,
    t: TileView,
    block: BlockCoeffs,
    mi: (int, int),
)
    requires
        tile_read_back::is_ready(plan, t.bands),
        tile_read_back::is_square_at(plan, mi, 4),
        key_frame::key_sub(plan, motion, t, block, mi.0, mi.1).fault is None,
        are_visits_told(plan, motion, sub_visits(plan, motion, t, block, mi)),
    ensures
        t.ops.is_prefix_of(key_frame::key_sub(plan, motion, t, block, mi.0, mi.1).tile.ops),
        tile_read_back::is_ready(
            plan,
            key_frame::key_sub(plan, motion, t, block, mi.0, mi.1).tile.bands,
        ),
{
    reveal(key_frame::key_sub);
    let cols = key_frame::has_cols(plan, mi.1, 4);
    let rows = key_frame::has_rows(plan, mi.0, 4);
    let table = Cdf::PartitionW16(
        neighbours::spec_partition_ctx(t.bands, mi.0, mi.1, 16) as usize,
    );
    if cols && rows {
        let v = whole_visit(t, block, mi, 16, table);
        assert(is_visit_told(plan, motion, sub_visits(plan, motion, t, block, mi)[0]));
        lemma_whole_adds(plan, motion, t, block, mi, 16, table);
    } else {
        let own = plans::split_ops(table, cols, rows);
        let split = state::said(t, own);
        let leaves = (block.eight->0)@;
        lemma_leaves_add(plan, motion, split, leaves, mi, 4);
        tile_read_back::lemma_prefix_of_sum(t.ops, own);
        tile_read_back::lemma_prefix_trans(
            t.ops,
            split.ops,
            key_frame::key_leaves(plan, motion, split, leaves, mi.0, mi.1, 4).step.tile.ops,
        );
        let done = key_frame::key_leaves(plan, motion, split, leaves, mi.0, mi.1, 4);
        if done.last is Some {
            palette_bands::lemma_mode(
                done.step.tile.bands,
                (mi.0 / 4, mi.1 / 4),
                1,
                (done.last->0).mode,
            );
        }
    }
}

/// A 16x16 block reads back.
#[verifier::rlimit(60)]
proof fn lemma_sub_told(
    plan: FramePlan,
    motion: Seq<MotionContext>,
    s: TileView,
    t: TileView,
    a: BlockCoeffs,
    b: BlockCoeffs,
    mi: (int, int),
    x: Seq<Op>,
    y: Seq<Op>,
)
    requires
        tile_read_back::look_alike(s, t),
        tile_read_back::is_ready(plan, s.bands),
        tile_read_back::is_square_at(plan, mi, 4),
        key_frame::key_sub(plan, motion, s, a, mi.0, mi.1).fault is None,
        key_frame::key_sub(plan, motion, t, b, mi.0, mi.1).fault is None,
        are_visits_told(plan, motion, sub_visits(plan, motion, s, a, mi)),
        are_visits_told(plan, motion, sub_visits(plan, motion, t, b, mi)),
        read_back::coded(key_frame::key_sub(plan, motion, s, a, mi.0, mi.1).tile.ops) + x
            == read_back::coded(key_frame::key_sub(plan, motion, t, b, mi.0, mi.1).tile.ops) + y,
    ensures
        same_visits(
            plan,
            sub_visits(plan, motion, s, a, mi),
            sub_visits(plan, motion, t, b, mi),
        ),
        x == y,
        tile_read_back::look_alike(
            key_frame::key_sub(plan, motion, s, a, mi.0, mi.1).tile,
            key_frame::key_sub(plan, motion, t, b, mi.0, mi.1).tile,
        ),
{
    reveal(key_frame::key_sub);
    let cols = key_frame::has_cols(plan, mi.1, 4);
    let rows = key_frame::has_rows(plan, mi.0, 4);
    let table = Cdf::PartitionW16(
        neighbours::spec_partition_ctx(s.bands, mi.0, mi.1, 16) as usize,
    );
    if cols && rows {
        assert(is_visit_told(plan, motion, sub_visits(plan, motion, s, a, mi)[0]));
        assert(is_visit_told(plan, motion, sub_visits(plan, motion, t, b, mi)[0]));
        lemma_whole_told(plan, motion, s, t, a, b, mi, 16, table, x, y);
    } else {
        let own = plans::split_ops(table, cols, rows);
        tile_read_back::lemma_said_alike(s, t, own);
        lemma_leaves_told(
            plan,
            motion,
            state::said(s, own),
            state::said(t, own),
            (a.eight->0)@,
            (b.eight->0)@,
            mi,
            4,
            x,
            y,
        );
    }
}

/// The quarters of a split 32x32 block add to a tile, and keep its frame.
proof fn lemma_subs_add(
    plan: FramePlan,
    motion: Seq<MotionContext>,
    t: TileView,
    blocks: Seq<BlockCoeffs>,
    mi: (int, int),
    i: int,
)
    requires
        0 <= i <= 4,
        tile_read_back::is_ready(plan, t.bands),
        tile_read_back::is_square_at(plan, mi, 8),
        key_frame::key_subs(plan, motion, t, blocks, mi.0, mi.1, i).fault is None,
        are_visits_told(plan, motion, subs_visits(plan, motion, t, blocks, mi, i)),
    ensures
        t.ops.is_prefix_of(
            key_frame::key_subs(plan, motion, t, blocks, mi.0, mi.1, i).tile.ops,
        ),
        tile_read_back::is_ready(
            plan,
            key_frame::key_subs(plan, motion, t, blocks, mi.0, mi.1, i).tile.bands,
        ),
        i > 0 && children::is_inside(plan, mi.0, mi.1, 4, i - 1) ==> {
            let before = key_frame::key_subs(plan, motion, t, blocks, mi.0, mi.1, i - 1);
            &&& before.fault is None
            &&& tile_read_back::is_ready(plan, before.tile.bands)
            &&& before.tile.ops.is_prefix_of(
                key_frame::key_subs(plan, motion, t, blocks, mi.0, mi.1, i).tile.ops,
            )
        },
    decreases i,
{
    if i > 0 {
        let before = key_frame::key_subs(plan, motion, t, blocks, mi.0, mi.1, i - 1);
        if children::is_inside(plan, mi.0, mi.1, 4, i - 1) {
            let block = blocks[children::inside_before(plan, mi.0, mi.1, 4, i - 1)];
            let at = (children::child_r(mi.0, 4, i - 1), children::child_c(mi.1, 4, i - 1));
            lemma_told_parts(
                plan,
                motion,
                subs_visits(plan, motion, t, blocks, mi, i - 1),
                sub_visits(plan, motion, before.tile, block, at),
            );
            lemma_subs_add(plan, motion, t, blocks, mi, i - 1);
            lemma_sub_adds(plan, motion, before.tile, block, at);
            tile_read_back::lemma_prefix_trans(
                t.ops,
                before.tile.ops,
                key_frame::key_subs(plan, motion, t, blocks, mi.0, mi.1, i).tile.ops,
            );
        } else {
            lemma_subs_add(plan, motion, t, blocks, mi, i - 1);
        }
    } else {
        assert(t.ops.subrange(0, t.ops.len() as int) =~= t.ops);
    }
}

/// The quarters of a split 32x32 block read back.
#[verifier::rlimit(60)]
proof fn lemma_subs_told(
    plan: FramePlan,
    motion: Seq<MotionContext>,
    s: TileView,
    t: TileView,
    a: Seq<BlockCoeffs>,
    b: Seq<BlockCoeffs>,
    mi: (int, int),
    i: int,
    x: Seq<Op>,
    y: Seq<Op>,
)
    requires
        0 <= i <= 4,
        tile_read_back::look_alike(s, t),
        tile_read_back::is_ready(plan, s.bands),
        tile_read_back::is_square_at(plan, mi, 8),
        key_frame::key_subs(plan, motion, s, a, mi.0, mi.1, i).fault is None,
        key_frame::key_subs(plan, motion, t, b, mi.0, mi.1, i).fault is None,
        are_visits_told(plan, motion, subs_visits(plan, motion, s, a, mi, i)),
        are_visits_told(plan, motion, subs_visits(plan, motion, t, b, mi, i)),
        read_back::coded(
            key_frame::key_subs(plan, motion, s, a, mi.0, mi.1, i).tile.ops,
        ) + x == read_back::coded(
            key_frame::key_subs(plan, motion, t, b, mi.0, mi.1, i).tile.ops,
        ) + y,
    ensures
        same_visits(
            plan,
            subs_visits(plan, motion, s, a, mi, i),
            subs_visits(plan, motion, t, b, mi, i),
        ),
        x == y,
        tile_read_back::look_alike(
            key_frame::key_subs(plan, motion, s, a, mi.0, mi.1, i).tile,
            key_frame::key_subs(plan, motion, t, b, mi.0, mi.1, i).tile,
        ),
    decreases i,
{
    let ea = key_frame::key_subs(plan, motion, s, a, mi.0, mi.1, i).tile;
    let eb = key_frame::key_subs(plan, motion, t, b, mi.0, mi.1, i).tile;
    if i <= 0 {
        read_back::lemma_parts(read_back::coded(s.ops), x, read_back::coded(t.ops), y);
    } else {
        lemma_subs_add(plan, motion, s, a, mi, i);
        lemma_subs_add(plan, motion, t, b, mi, i);
        if children::is_inside(plan, mi.0, mi.1, 4, i - 1) {
            let ba = key_frame::key_subs(plan, motion, s, a, mi.0, mi.1, i - 1).tile;
            let bb = key_frame::key_subs(plan, motion, t, b, mi.0, mi.1, i - 1).tile;
            let sa = subs_visits(plan, motion, s, a, mi, i - 1);
            let sb = subs_visits(plan, motion, t, b, mi, i - 1);
            let n = children::inside_before(plan, mi.0, mi.1, 4, i - 1);
            let at = (children::child_r(mi.0, 4, i - 1), children::child_c(mi.1, 4, i - 1));
            let va = sub_visits(plan, motion, ba, a[n], at);
            let vb = sub_visits(plan, motion, bb, b[n], at);
            lemma_told_parts(plan, motion, sa, va);
            lemma_told_parts(plan, motion, sb, vb);
            let ra = tile_read_back::lemma_rest(ba.ops, ea.ops);
            let rb = tile_read_back::lemma_rest(bb.ops, eb.ops);
            tile_read_back::lemma_regrouped(ba, ea, ra, x);
            tile_read_back::lemma_regrouped(bb, eb, rb, y);
            lemma_subs_told(plan, motion, s, t, a, b, mi, i - 1, ra + x, rb + y);
            lemma_sub_told(plan, motion, ba, bb, a[n], b[n], at, x, y);
            lemma_same_sum(plan, sa, va, sb, vb);
        } else {
            lemma_subs_told(plan, motion, s, t, a, b, mi, i - 1, x, y);
        }
    }
}

/// A 32x32 quadrant adds to a tile, and keeps its frame.
proof fn lemma_quad_adds(
    plan: FramePlan,
    motion: Seq<MotionContext>,
    t: TileView,
    quad: Quadrant,
    mi: (int, int),
)
    requires
        tile_read_back::is_ready(plan, t.bands),
        tile_read_back::is_square_at(plan, mi, 8),
        key_frame::key_quad(plan, motion, t, quad, mi.0, mi.1).fault is None,
        are_visits_told(plan, motion, quad_visits(plan, motion, t, quad, mi)),
    ensures
        t.ops.is_prefix_of(key_frame::key_quad(plan, motion, t, quad, mi.0, mi.1).tile.ops),
        tile_read_back::is_ready(
            plan,
            key_frame::key_quad(plan, motion, t, quad, mi.0, mi.1).tile.bands,
        ),
{
    reveal(key_frame::key_quad);
    let cols = key_frame::has_cols(plan, mi.1, 8);
    let rows = key_frame::has_rows(plan, mi.0, 8);
    let table = Cdf::PartitionW32(
        neighbours::spec_partition_ctx(t.bands, mi.0, mi.1, 32) as usize,
    );
    match quad {
        Quadrant::Whole(block) => {
            assert(is_visit_told(plan, motion, quad_visits(plan, motion, t, quad, mi)[0]));
            lemma_whole_adds(plan, motion, t, block, mi, 32, table);
        },
        Quadrant::Split(blocks) => {
            let own = plans::split_ops(table, cols, rows);
            let split = state::said(t, own);
            lemma_subs_add(plan, motion, split, blocks@, mi, 4);
            tile_read_back::lemma_prefix_of_sum(t.ops, own);
            tile_read_back::lemma_prefix_trans(
                t.ops,
                split.ops,
                key_frame::key_subs(plan, motion, split, blocks@, mi.0, mi.1, 4).tile.ops,
            );
        },
        _ => {},
    }
}

/// A 32x32 quadrant that lies inside the frame starts with its partition.
proof fn lemma_quad_starts(
    plan: FramePlan,
    motion: Seq<MotionContext>,
    t: TileView,
    quad: Quadrant,
    mi: (int, int),
)
    requires
        tile_read_back::is_ready(plan, t.bands),
        tile_read_back::is_square_at(plan, mi, 8),
        key_frame::has_cols(plan, mi.1, 8),
        key_frame::has_rows(plan, mi.0, 8),
        key_frame::key_quad(plan, motion, t, quad, mi.0, mi.1).fault is None,
        are_visits_told(plan, motion, quad_visits(plan, motion, t, quad, mi)),
    ensures
        quad is Whole || quad is Split,
        t.ops.push(
            ops::symbol(
                if quad is Whole {
                    0
                } else {
                    3
                },
                Cdf::PartitionW32(
                    neighbours::spec_partition_ctx(t.bands, mi.0, mi.1, 32) as usize,
                ),
            ),
        ).is_prefix_of(key_frame::key_quad(plan, motion, t, quad, mi.0, mi.1).tile.ops),
{
    reveal(key_frame::key_quad);
    let table = Cdf::PartitionW32(
        neighbours::spec_partition_ctx(t.bands, mi.0, mi.1, 32) as usize,
    );
    match quad {
        Quadrant::Whole(block) => {
            let v = whole_visit(t, block, mi, 32, table);
            assert(is_visit_told(plan, motion, quad_visits(plan, motion, t, quad, mi)[0]));
            lemma_visit_moves(plan, motion, v, v.t);
        },
        Quadrant::Split(blocks) => {
            let own = plans::split_ops(table, true, true);
            lemma_subs_add(plan, motion, state::said(t, own), blocks@, mi, 4);
            assert(t.ops + own =~= t.ops.push(ops::symbol(3, table)));
        },
        _ => {},
    }
}

/// A 32x32 quadrant reads back.
#[verifier::rlimit(60)]
proof fn lemma_quad_told(
    plan: FramePlan,
    motion: Seq<MotionContext>,
    s: TileView,
    t: TileView,
    a: Quadrant,
    b: Quadrant,
    mi: (int, int),
    x: Seq<Op>,
    y: Seq<Op>,
)
    requires
        tile_read_back::look_alike(s, t),
        tile_read_back::is_ready(plan, s.bands),
        tile_read_back::is_square_at(plan, mi, 8),
        key_frame::key_quad(plan, motion, s, a, mi.0, mi.1).fault is None,
        key_frame::key_quad(plan, motion, t, b, mi.0, mi.1).fault is None,
        are_visits_told(plan, motion, quad_visits(plan, motion, s, a, mi)),
        are_visits_told(plan, motion, quad_visits(plan, motion, t, b, mi)),
        read_back::coded(key_frame::key_quad(plan, motion, s, a, mi.0, mi.1).tile.ops) + x
            == read_back::coded(key_frame::key_quad(plan, motion, t, b, mi.0, mi.1).tile.ops) + y,
    ensures
        same_visits(
            plan,
            quad_visits(plan, motion, s, a, mi),
            quad_visits(plan, motion, t, b, mi),
        ),
        x == y,
        tile_read_back::look_alike(
            key_frame::key_quad(plan, motion, s, a, mi.0, mi.1).tile,
            key_frame::key_quad(plan, motion, t, b, mi.0, mi.1).tile,
        ),
{
    let cols = key_frame::has_cols(plan, mi.1, 8);
    let rows = key_frame::has_rows(plan, mi.0, 8);
    let table = Cdf::PartitionW32(
        neighbours::spec_partition_ctx(s.bands, mi.0, mi.1, 32) as usize,
    );
    if cols && rows {
        lemma_quad_starts(plan, motion, s, a, mi);
        lemma_quad_starts(plan, motion, t, b, mi);
        tile_read_back::lemma_partition_told(
            s,
            t,
            (
                key_frame::key_quad(plan, motion, s, a, mi.0, mi.1).tile.ops,
                key_frame::key_quad(plan, motion, t, b, mi.0, mi.1).tile.ops,
            ),
            table,
            (
                if a is Whole {
                    0
                } else {
                    3
                },
                if b is Whole {
                    0
                } else {
                    3
                },
            ),
            x,
            y,
        );
    }
    reveal(key_frame::key_quad);
    match (a, b) {
        (Quadrant::Whole(u), Quadrant::Whole(v)) => {
            assert(is_visit_told(plan, motion, quad_visits(plan, motion, s, a, mi)[0]));
            assert(is_visit_told(plan, motion, quad_visits(plan, motion, t, b, mi)[0]));
            lemma_whole_told(plan, motion, s, t, u, v, mi, 32, table, x, y);
        },
        (Quadrant::Split(u), Quadrant::Split(v)) => {
            let own = plans::split_ops(table, cols, rows);
            tile_read_back::lemma_said_alike(s, t, own);
            lemma_subs_told(
                plan,
                motion,
                state::said(s, own),
                state::said(t, own),
                u@,
                v@,
                mi,
                4,
                x,
                y,
            );
        },
        _ => {},
    }
}

/// The quadrants of a split superblock add to a tile, and keep its frame.
proof fn lemma_quads_add(
    plan: FramePlan,
    motion: Seq<MotionContext>,
    t: TileView,
    quads: Seq<Quadrant>,
    mi: (int, int),
    i: int,
)
    requires
        0 <= i <= 4,
        tile_read_back::is_ready(plan, t.bands),
        tile_read_back::is_square_at(plan, mi, 16),
        key_frame::key_quads(plan, motion, t, quads, mi.0, mi.1, i).fault is None,
        are_visits_told(plan, motion, quads_visits(plan, motion, t, quads, mi, i)),
    ensures
        t.ops.is_prefix_of(
            key_frame::key_quads(plan, motion, t, quads, mi.0, mi.1, i).tile.ops,
        ),
        tile_read_back::is_ready(
            plan,
            key_frame::key_quads(plan, motion, t, quads, mi.0, mi.1, i).tile.bands,
        ),
        i > 0 && children::is_inside(plan, mi.0, mi.1, 8, i - 1) ==> {
            let before = key_frame::key_quads(plan, motion, t, quads, mi.0, mi.1, i - 1);
            &&& before.fault is None
            &&& tile_read_back::is_ready(plan, before.tile.bands)
            &&& before.tile.ops.is_prefix_of(
                key_frame::key_quads(plan, motion, t, quads, mi.0, mi.1, i).tile.ops,
            )
        },
    decreases i,
{
    if i > 0 {
        let before = key_frame::key_quads(plan, motion, t, quads, mi.0, mi.1, i - 1);
        if children::is_inside(plan, mi.0, mi.1, 8, i - 1) {
            let quad = quads[children::inside_before(plan, mi.0, mi.1, 8, i - 1)];
            let at = (children::child_r(mi.0, 8, i - 1), children::child_c(mi.1, 8, i - 1));
            lemma_told_parts(
                plan,
                motion,
                quads_visits(plan, motion, t, quads, mi, i - 1),
                quad_visits(plan, motion, before.tile, quad, at),
            );
            lemma_quads_add(plan, motion, t, quads, mi, i - 1);
            lemma_quad_adds(plan, motion, before.tile, quad, at);
            tile_read_back::lemma_prefix_trans(
                t.ops,
                before.tile.ops,
                key_frame::key_quads(plan, motion, t, quads, mi.0, mi.1, i).tile.ops,
            );
        } else {
            lemma_quads_add(plan, motion, t, quads, mi, i - 1);
        }
    } else {
        assert(t.ops.subrange(0, t.ops.len() as int) =~= t.ops);
    }
}

/// The quadrants of a split superblock read back.
#[verifier::rlimit(60)]
proof fn lemma_quads_told(
    plan: FramePlan,
    motion: Seq<MotionContext>,
    s: TileView,
    t: TileView,
    a: Seq<Quadrant>,
    b: Seq<Quadrant>,
    mi: (int, int),
    i: int,
    x: Seq<Op>,
    y: Seq<Op>,
)
    requires
        0 <= i <= 4,
        tile_read_back::look_alike(s, t),
        tile_read_back::is_ready(plan, s.bands),
        tile_read_back::is_square_at(plan, mi, 16),
        key_frame::key_quads(plan, motion, s, a, mi.0, mi.1, i).fault is None,
        key_frame::key_quads(plan, motion, t, b, mi.0, mi.1, i).fault is None,
        are_visits_told(plan, motion, quads_visits(plan, motion, s, a, mi, i)),
        are_visits_told(plan, motion, quads_visits(plan, motion, t, b, mi, i)),
        read_back::coded(
            key_frame::key_quads(plan, motion, s, a, mi.0, mi.1, i).tile.ops,
        ) + x == read_back::coded(
            key_frame::key_quads(plan, motion, t, b, mi.0, mi.1, i).tile.ops,
        ) + y,
    ensures
        same_visits(
            plan,
            quads_visits(plan, motion, s, a, mi, i),
            quads_visits(plan, motion, t, b, mi, i),
        ),
        x == y,
        tile_read_back::look_alike(
            key_frame::key_quads(plan, motion, s, a, mi.0, mi.1, i).tile,
            key_frame::key_quads(plan, motion, t, b, mi.0, mi.1, i).tile,
        ),
    decreases i,
{
    let ea = key_frame::key_quads(plan, motion, s, a, mi.0, mi.1, i).tile;
    let eb = key_frame::key_quads(plan, motion, t, b, mi.0, mi.1, i).tile;
    if i <= 0 {
        read_back::lemma_parts(read_back::coded(s.ops), x, read_back::coded(t.ops), y);
    } else {
        lemma_quads_add(plan, motion, s, a, mi, i);
        lemma_quads_add(plan, motion, t, b, mi, i);
        if children::is_inside(plan, mi.0, mi.1, 8, i - 1) {
            let ba = key_frame::key_quads(plan, motion, s, a, mi.0, mi.1, i - 1).tile;
            let bb = key_frame::key_quads(plan, motion, t, b, mi.0, mi.1, i - 1).tile;
            let sa = quads_visits(plan, motion, s, a, mi, i - 1);
            let sb = quads_visits(plan, motion, t, b, mi, i - 1);
            let n = children::inside_before(plan, mi.0, mi.1, 8, i - 1);
            let at = (children::child_r(mi.0, 8, i - 1), children::child_c(mi.1, 8, i - 1));
            let va = quad_visits(plan, motion, ba, a[n], at);
            let vb = quad_visits(plan, motion, bb, b[n], at);
            lemma_told_parts(plan, motion, sa, va);
            lemma_told_parts(plan, motion, sb, vb);
            let ra = tile_read_back::lemma_rest(ba.ops, ea.ops);
            let rb = tile_read_back::lemma_rest(bb.ops, eb.ops);
            tile_read_back::lemma_regrouped(ba, ea, ra, x);
            tile_read_back::lemma_regrouped(bb, eb, rb, y);
            lemma_quads_told(plan, motion, s, t, a, b, mi, i - 1, ra + x, rb + y);
            lemma_quad_told(plan, motion, ba, bb, a[n], b[n], at, x, y);
            lemma_same_sum(plan, sa, va, sb, vb);
        } else {
            lemma_quads_told(plan, motion, s, t, a, b, mi, i - 1, x, y);
        }
    }
}

/// A superblock adds to a tile, starting with its partition where it lies
/// inside the frame, and keeps its frame.
proof fn lemma_sb_adds(
    plan: FramePlan,
    motion: Seq<MotionContext>,
    t: TileView,
    sb: SbView,
    mi: (int, int),
)
    requires
        tile_read_back::is_ready(plan, t.bands),
        tile_read_back::is_square_at(plan, mi, 16),
        key_frame::key_sb(plan, motion, t, sb, mi.0, mi.1).fault is None,
        are_visits_told(plan, motion, sb_visits(plan, motion, t, sb, mi)),
    ensures
        t.ops.is_prefix_of(key_frame::key_sb(plan, motion, t, sb, mi.0, mi.1).tile.ops),
        tile_read_back::is_ready(plan, key_frame::key_sb(plan, motion, t, sb, mi.0, mi.1).tile.bands),
        key_frame::has_cols(plan, mi.1, 16) && key_frame::has_rows(plan, mi.0, 16) ==> t.ops.push(
            ops::symbol(
                if sb is Whole {
                    0
                } else {
                    3
                },
                Cdf::PartitionW64(
                    neighbours::spec_partition_ctx(t.bands, mi.0, mi.1, 64) as usize,
                ),
            ),
        ).is_prefix_of(key_frame::key_sb(plan, motion, t, sb, mi.0, mi.1).tile.ops),
{
    reveal(key_frame::key_sb);
    let cols = key_frame::has_cols(plan, mi.1, 16);
    let rows = key_frame::has_rows(plan, mi.0, 16);
    let table = Cdf::PartitionW64(
        neighbours::spec_partition_ctx(t.bands, mi.0, mi.1, 64) as usize,
    );
    match sb {
        SbView::Whole(block) => {
            let v = whole_visit(t, block, mi, 64, table);
            assert(is_visit_told(plan, motion, sb_visits(plan, motion, t, sb, mi)[0]));
            lemma_whole_adds(plan, motion, t, block, mi, 64, table);
            lemma_visit_moves(plan, motion, v, v.t);
        },
        SbView::Split(quads) => {
            let own = plans::split_ops(table, cols, rows);
            let split = state::said(t, own);
            lemma_quads_add(plan, motion, split, quads, mi, 4);
            tile_read_back::lemma_prefix_of_sum(t.ops, own);
            tile_read_back::lemma_prefix_trans(
                t.ops,
                split.ops,
                key_frame::key_quads(plan, motion, split, quads, mi.0, mi.1, 4).tile.ops,
            );
            if cols && rows {
                assert(t.ops + own =~= t.ops.push(ops::symbol(3, table)));
            }
        },
    }
}

/// A superblock reads back.
#[verifier::rlimit(60)]
proof fn lemma_sb_told(
    plan: FramePlan,
    motion: Seq<MotionContext>,
    s: TileView,
    t: TileView,
    a: SbView,
    b: SbView,
    mi: (int, int),
    x: Seq<Op>,
    y: Seq<Op>,
)
    requires
        tile_read_back::look_alike(s, t),
        tile_read_back::is_ready(plan, s.bands),
        tile_read_back::is_square_at(plan, mi, 16),
        key_frame::key_sb(plan, motion, s, a, mi.0, mi.1).fault is None,
        key_frame::key_sb(plan, motion, t, b, mi.0, mi.1).fault is None,
        are_visits_told(plan, motion, sb_visits(plan, motion, s, a, mi)),
        are_visits_told(plan, motion, sb_visits(plan, motion, t, b, mi)),
        read_back::coded(key_frame::key_sb(plan, motion, s, a, mi.0, mi.1).tile.ops) + x
            == read_back::coded(key_frame::key_sb(plan, motion, t, b, mi.0, mi.1).tile.ops) + y,
    ensures
        same_visits(
            plan,
            sb_visits(plan, motion, s, a, mi),
            sb_visits(plan, motion, t, b, mi),
        ),
        x == y,
        tile_read_back::look_alike(
            key_frame::key_sb(plan, motion, s, a, mi.0, mi.1).tile,
            key_frame::key_sb(plan, motion, t, b, mi.0, mi.1).tile,
        ),
{
    let cols = key_frame::has_cols(plan, mi.1, 16);
    let rows = key_frame::has_rows(plan, mi.0, 16);
    let table = Cdf::PartitionW64(
        neighbours::spec_partition_ctx(s.bands, mi.0, mi.1, 64) as usize,
    );
    if cols && rows {
        lemma_sb_adds(plan, motion, s, a, mi);
        lemma_sb_adds(plan, motion, t, b, mi);
        tile_read_back::lemma_partition_told(
            s,
            t,
            (
                key_frame::key_sb(plan, motion, s, a, mi.0, mi.1).tile.ops,
                key_frame::key_sb(plan, motion, t, b, mi.0, mi.1).tile.ops,
            ),
            table,
            (
                if a is Whole {
                    0
                } else {
                    3
                },
                if b is Whole {
                    0
                } else {
                    3
                },
            ),
            x,
            y,
        );
    }
    reveal(key_frame::key_sb);
    match (a, b) {
        (SbView::Whole(u), SbView::Whole(v)) => {
            assert(is_visit_told(plan, motion, sb_visits(plan, motion, s, a, mi)[0]));
            assert(is_visit_told(plan, motion, sb_visits(plan, motion, t, b, mi)[0]));
            lemma_whole_told(plan, motion, s, t, u, v, mi, 64, table, x, y);
        },
        (SbView::Split(u), SbView::Split(v)) => {
            let own = plans::split_ops(table, cols, rows);
            tile_read_back::lemma_said_alike(s, t, own);
            lemma_quads_told(
                plan,
                motion,
                state::said(s, own),
                state::said(t, own),
                u,
                v,
                mi,
                4,
                x,
                y,
            );
        },
        _ => {},
    }
}

/// The superblocks of a tile add to it, and keep its frame.
proof fn lemma_sbs_add(
    plan: FramePlan,
    motion: Seq<MotionContext>,
    t: TileView,
    sbs: Seq<SbView>,
    order: Seq<SbStep>,
    count: int,
)
    requires
        0 <= count <= order.len(),
        tile_read_back::is_order(plan, order),
        tile_read_back::is_ready(plan, t.bands),
        key_frame::key_sbs(plan, motion, t, sbs, order, count).fault is None,
        are_visits_told(plan, motion, sbs_visits(plan, motion, t, sbs, order, count)),
    ensures
        tile_read_back::is_ready(
            plan,
            key_frame::key_sbs(plan, motion, t, sbs, order, count).tile.bands,
        ),
        count > 0 ==> {
            let before = key_frame::key_sbs(plan, motion, t, sbs, order, count - 1);
            &&& before.fault is None
            &&& tile_read_back::is_ready(plan, before.tile.bands)
            &&& before.tile.ops.is_prefix_of(
                key_frame::key_sbs(plan, motion, t, sbs, order, count).tile.ops,
            )
        },
    decreases count,
{
    if count > 0 {
        let before = key_frame::key_sbs(plan, motion, t, sbs, order, count - 1).tile;
        let step = order[count - 1];
        let start = key_frame::sb_start(plan, before, step);
        let sb = sbs[step.0 * layout::superblocks(plan.mi_cols as int) + step.1];
        let at = (16 * step.0, 16 * step.1);
        lemma_told_parts(
            plan,
            motion,
            sbs_visits(plan, motion, t, sbs, order, count - 1),
            sb_visits(plan, motion, start, sb, at),
        );
        lemma_sbs_add(plan, motion, t, sbs, order, count - 1);
        tile_read_back::lemma_start(plan, before, before, step);
        lemma_sb_adds(plan, motion, start, sb, at);
        tile_read_back::lemma_prefix_trans(
            before.ops,
            start.ops,
            key_frame::key_sb(plan, motion, start, sb, at.0, at.1).tile.ops,
        );
    }
}

/// The superblocks of a tile read back.
#[verifier::rlimit(60)]
proof fn lemma_sbs_told(
    plan: FramePlan,
    motion: Seq<MotionContext>,
    t: TileView,
    a: Seq<SbView>,
    b: Seq<SbView>,
    order: Seq<SbStep>,
    count: int,
    x: Seq<Op>,
    y: Seq<Op>,
)
    requires
        0 <= count <= order.len(),
        tile_read_back::is_order(plan, order),
        tile_read_back::is_ready(plan, t.bands),
        key_frame::key_sbs(plan, motion, t, a, order, count).fault is None,
        key_frame::key_sbs(plan, motion, t, b, order, count).fault is None,
        are_visits_told(plan, motion, sbs_visits(plan, motion, t, a, order, count)),
        are_visits_told(plan, motion, sbs_visits(plan, motion, t, b, order, count)),
        read_back::coded(key_frame::key_sbs(plan, motion, t, a, order, count).tile.ops) + x
            == read_back::coded(key_frame::key_sbs(plan, motion, t, b, order, count).tile.ops)
            + y,
    ensures
        same_visits(
            plan,
            sbs_visits(plan, motion, t, a, order, count),
            sbs_visits(plan, motion, t, b, order, count),
        ),
        x == y,
        tile_read_back::look_alike(
            key_frame::key_sbs(plan, motion, t, a, order, count).tile,
            key_frame::key_sbs(plan, motion, t, b, order, count).tile,
        ),
    decreases count,
{
    if count <= 0 {
        read_back::lemma_parts(read_back::coded(t.ops), x, read_back::coded(t.ops), y);
    } else {
        let ea = key_frame::key_sbs(plan, motion, t, a, order, count).tile;
        let eb = key_frame::key_sbs(plan, motion, t, b, order, count).tile;
        let ba = key_frame::key_sbs(plan, motion, t, a, order, count - 1).tile;
        let bb = key_frame::key_sbs(plan, motion, t, b, order, count - 1).tile;
        lemma_sbs_add(plan, motion, t, a, order, count);
        lemma_sbs_add(plan, motion, t, b, order, count);
        let step = order[count - 1];
        let n = step.0 * layout::superblocks(plan.mi_cols as int) + step.1;
        let at = (16 * step.0, 16 * step.1);
        let sa = sbs_visits(plan, motion, t, a, order, count - 1);
        let sb = sbs_visits(plan, motion, t, b, order, count - 1);
        let ta = key_frame::sb_start(plan, ba, step);
        let tb = key_frame::sb_start(plan, bb, step);
        let va = sb_visits(plan, motion, ta, a[n], at);
        let vb = sb_visits(plan, motion, tb, b[n], at);
        lemma_told_parts(plan, motion, sa, va);
        lemma_told_parts(plan, motion, sb, vb);
        let ra = tile_read_back::lemma_rest(ba.ops, ea.ops);
        let rb = tile_read_back::lemma_rest(bb.ops, eb.ops);
        tile_read_back::lemma_regrouped(ba, ea, ra, x);
        tile_read_back::lemma_regrouped(bb, eb, rb, y);
        lemma_sbs_told(plan, motion, t, a, b, order, count - 1, ra + x, rb + y);
        tile_read_back::lemma_start(plan, ba, bb, step);
        lemma_sb_told(plan, motion, ta, tb, a[n], b[n], at, x, y);
        lemma_same_sum(plan, sa, va, sb, vb);
    }
}

/// A tile of a key frame reads back: of two that a decoder sees the same symbols
/// of, whatever follows them, the blocks are the same one by one, at the same
/// places, each with the same modes, palettes, vector and levels, and so is what
/// the tiles leave behind.
pub proof fn key_tiles_read_back(
    plan: FramePlan,
    motion: Seq<MotionContext>,
    a: Seq<SbView>,
    b: Seq<SbView>,
    rect: TileRect,
    x: Seq<Op>,
    y: Seq<Op>,
)
    requires
        key_frame::key_tile(plan, motion, a, rect).fault is None,
        key_frame::key_tile(plan, motion, b, rect).fault is None,
        are_visits_told(plan, motion, key_visits(plan, motion, a, rect)),
        are_visits_told(plan, motion, key_visits(plan, motion, b, rect)),
        read_back::coded(key_frame::key_tile(plan, motion, a, rect).tile.ops) + x
            == read_back::coded(key_frame::key_tile(plan, motion, b, rect).tile.ops) + y,
    ensures
        same_visits(
            plan,
            key_visits(plan, motion, a, rect),
            key_visits(plan, motion, b, rect),
        ),
        x == y,
        tile_read_back::look_alike(
            key_frame::key_tile(plan, motion, a, rect).tile,
            key_frame::key_tile(plan, motion, b, rect).tile,
        ),
{
    reveal(key_frame::key_tile);
    let order = key_frame::tile_order(plan, rect);
    let t = key_frame::blank_tile(plan, rect);
    tile_read_back::lemma_blank(plan, rect);
    tile_read_back::lemma_order(plan, rect);
    lemma_sbs_told(plan, motion, t, a, b, order, order.len() as int, x, y);
}

} // verus!
