//! What a decoder reads back of a whole tile of an inter frame.
use crate::tile::blocks::{BlockCoeffs, Quadrant};
use crate::tile::children;
use crate::tile::inter_block;
use crate::tile::inter_frame;
use crate::tile::inter_read_back;
use crate::tile::intra_read_back;
use crate::tile::key_frame;
use crate::tile::layout::SbStep;
use crate::tile::motion::MotionContext;
use crate::tile::neighbours;
use crate::tile::ops;
use crate::tile::ops::{Cdf, Op};
use crate::tile::palette_bands;
use crate::tile::plans;
use crate::tile::plans::FramePlan;
use crate::tile::read_back;
use crate::tile::state;
use crate::tile::state::{Step, TileView};
use crate::tile::tile_read_back;
use crate::tile::tiles::TileRect;
use vstd::prelude::*;

verus! {

/// One block of an inter frame as it is written: the tile it is written to, and
/// where.
pub struct Visit {
    /// The tile, up to the block's partition.
    pub t: TileView,
    /// The block.
    pub block: BlockCoeffs,
    /// Its first unit row and column.
    pub mi: (int, int),
    /// Its side.
    pub side: int,
}

/// What writing a block comes to.
pub open spec fn visited(plan: FramePlan, motion: Seq<MotionContext>, v: Visit) -> Step {
    inter_block::inter_block(plan, motion, v.t, v.block, v.mi.0, v.mi.1, v.side)
}

/// The visit of a whole block.
pub open spec fn whole_visit(
    t: TileView,
    block: BlockCoeffs,
    mi: (int, int),
    side: int,
    table: Cdf,
) -> Visit {
    Visit {
        t: TileView { ops: t.ops.push(ops::symbol(0, table)), ..t },
        block,
        mi,
        side,
    }
}

/// The visit of a leaf.
pub open spec fn leaf_visit(t: TileView, leaf: BlockCoeffs, mi: (int, int)) -> Visit {
    whole_visit(
        t,
        leaf,
        mi,
        8,
        Cdf::PartitionW8(neighbours::spec_partition_ctx(t.bands, mi.0, mi.1, 8) as usize),
    )
}

/// The visits of the first `i` leaves of a 16x16 block.
pub open spec fn leaf_visits(
    plan: FramePlan,
    motion: Seq<MotionContext>,
    t: TileView,
    leaves: Seq<BlockCoeffs>,
    mi: (int, int),
    i: int,
) -> Seq<Visit>
    decreases i,
{
    if i <= 0 {
        Seq::empty()
    } else {
        let seen = leaf_visits(plan, motion, t, leaves, mi, i - 1);
        if !children::is_inside(plan, mi.0, mi.1, 2, i - 1) {
            seen
        } else {
            seen + seq![
                leaf_visit(
                    inter_frame::inter_leaves(
                        plan,
                        motion,
                        t,
                        leaves,
                        mi.0,
                        mi.1,
                        i - 1,
                    ).tile,
                    leaves[children::inside_before(plan, mi.0, mi.1, 2, i - 1)],
                    (children::child_r(mi.0, 2, i - 1), children::child_c(mi.1, 2, i - 1)),
                ),
            ]
        }
    }
}

/// The visits of one 16x16 block: its leaves where it has them, else itself.
pub open spec fn sub_visits(
    plan: FramePlan,
    motion: Seq<MotionContext>,
    t: TileView,
    block: BlockCoeffs,
    mi: (int, int),
) -> Seq<Visit> {
    let cols = key_frame::has_cols(plan, mi.1, 4);
    let rows = key_frame::has_rows(plan, mi.0, 4);
    let table = Cdf::PartitionW16(
        neighbours::spec_partition_ctx(t.bands, mi.0, mi.1, 16) as usize,
    );
    match block.eight {
        None => seq![whole_visit(t, block, mi, 16, table)],
        Some(leaves) => leaf_visits(
            plan,
            motion,
            state::said(t, plans::split_ops(table, cols, rows)),
            leaves@,
            mi,
            4,
        ),
    }
}

/// The visits of the first `i` quarters of a split 32x32 block.
pub open spec fn subs_visits(
    plan: FramePlan,
    motion: Seq<MotionContext>,
    t: TileView,
    blocks: Seq<BlockCoeffs>,
    mi: (int, int),
    i: int,
) -> Seq<Visit>
    decreases i,
{
    if i <= 0 {
        Seq::empty()
    } else {
        let seen = subs_visits(plan, motion, t, blocks, mi, i - 1);
        if !children::is_inside(plan, mi.0, mi.1, 4, i - 1) {
            seen
        } else {
            seen + sub_visits(
                plan,
                motion,
                inter_frame::inter_subs(plan, motion, t, blocks, mi.0, mi.1, i - 1).tile,
                blocks[children::inside_before(plan, mi.0, mi.1, 4, i - 1)],
                (children::child_r(mi.0, 4, i - 1), children::child_c(mi.1, 4, i - 1)),
            )
        }
    }
}

/// The visits of one 32x32 quadrant.
pub open spec fn quad_visits(
    plan: FramePlan,
    motion: Seq<MotionContext>,
    t: TileView,
    quad: Quadrant,
    mi: (int, int),
) -> Seq<Visit> {
    let cols = key_frame::has_cols(plan, mi.1, 8);
    let rows = key_frame::has_rows(plan, mi.0, 8);
    let table = Cdf::PartitionW32(
        neighbours::spec_partition_ctx(t.bands, mi.0, mi.1, 32) as usize,
    );
    match quad {
        Quadrant::Whole(block) => seq![whole_visit(t, block, mi, 32, table)],
        Quadrant::Split(blocks) => subs_visits(
            plan,
            motion,
            state::said(t, plans::split_ops(table, cols, rows)),
            blocks@,
            mi,
            4,
        ),
        _ => Seq::empty(),
    }
}

/// The visits of the first `i` quadrants of a split superblock.
pub open spec fn quads_visits(
    plan: FramePlan,
    motion: Seq<MotionContext>,
    t: TileView,
    quads: Seq<Quadrant>,
    mi: (int, int),
    i: int,
) -> Seq<Visit>
    decreases i,
{
    if i <= 0 {
        Seq::empty()
    } else {
        let seen = quads_visits(plan, motion, t, quads, mi, i - 1);
        let at = (children::child_r(mi.0, 8, i - 1), children::child_c(mi.1, 8, i - 1));
        if !children::is_inside(plan, mi.0, mi.1, 8, i - 1) {
            seen
        } else {
            seen + quad_visits(
                plan,
                motion,
                inter_frame::inter_quads(plan, motion, t, quads, mi.0, mi.1, i - 1).tile,
                inter_frame::quad_at(plan, quads, at.0, at.1),
                at,
            )
        }
    }
}

/// The visits of one superblock.
pub open spec fn sb_visits(
    plan: FramePlan,
    motion: Seq<MotionContext>,
    t: TileView,
    quads: Seq<Quadrant>,
    mi: (int, int),
) -> Seq<Visit> {
    let cols = key_frame::has_cols(plan, mi.1, 16);
    let rows = key_frame::has_rows(plan, mi.0, 16);
    let table = Cdf::PartitionW64(
        neighbours::spec_partition_ctx(t.bands, mi.0, mi.1, 64) as usize,
    );
    match inter_frame::quad_at(plan, quads, mi.0, mi.1) {
        Quadrant::Whole64(block) => seq![whole_visit(t, block, mi, 64, table)],
        _ => quads_visits(
            plan,
            motion,
            state::said(t, plans::split_ops(table, cols, rows)),
            quads,
            mi,
            4,
        ),
    }
}

/// The visits of the first `count` superblocks of a tile.
pub open spec fn sbs_visits(
    plan: FramePlan,
    motion: Seq<MotionContext>,
    t: TileView,
    quads: Seq<Quadrant>,
    order: Seq<SbStep>,
    count: int,
) -> Seq<Visit>
    decreases count,
{
    if count <= 0 {
        Seq::empty()
    } else {
        let s = order[count - 1];
        sbs_visits(plan, motion, t, quads, order, count - 1) + sb_visits(
            plan,
            motion,
            key_frame::sb_start(
                plan,
                inter_frame::inter_sbs(plan, motion, t, quads, order, count - 1).tile,
                s,
            ),
            quads,
            (16 * s.0, 16 * s.1),
        )
    }
}

/// The blocks of a tile of an inter frame in the order they are written.
pub open spec fn inter_visits(
    plan: FramePlan,
    motion: Seq<MotionContext>,
    quads: Seq<Quadrant>,
    rect: TileRect,
) -> Seq<Visit> {
    let order = key_frame::tile_order(plan, rect);
    sbs_visits(
        plan,
        motion,
        key_frame::blank_tile(plan, rect),
        quads,
        order,
        order.len() as int,
    )
}

/// Whether a decoder can tell a block where it is written.
pub open spec fn is_visit_told(plan: FramePlan, motion: Seq<MotionContext>, v: Visit) -> bool {
    &&& inter_read_back::is_inter_told(plan, motion, v.t, v.block, v.mi, v.side)
    &&& intra_read_back::is_settled(v.block)
}

/// Whether a decoder can tell each of several blocks.
pub open spec fn are_visits_told(
    plan: FramePlan,
    motion: Seq<MotionContext>,
    vs: Seq<Visit>,
) -> bool {
    forall|k: int| 0 <= k < vs.len() ==> is_visit_told(plan, motion, #[trigger] vs[k])
}

/// Whether two blocks are the same to a decoder, at the same place and in the
/// same state of the tile.
pub open spec fn same_visit(
    plan: FramePlan,
    motion: Seq<MotionContext>,
    v: Visit,
    w: Visit,
) -> bool {
    &&& v.mi == w.mi
    &&& v.side == w.side
    &&& state::same_state(v.t, w.t)
    &&& inter_read_back::same_inter_block(plan, motion, v.t, v.block, w.block, v.mi, v.side)
}

/// Whether two tiles hold the same blocks, one by one.
pub open spec fn same_visits(
    plan: FramePlan,
    motion: Seq<MotionContext>,
    vs: Seq<Visit>,
    ws: Seq<Visit>,
) -> bool {
    &&& vs.len() == ws.len()
    &&& forall|k: int| 0 <= k < vs.len() ==> same_visit(plan, motion, #[trigger] vs[k], ws[k])
}

/// Writing a block adds to a tile, leaves it ready, and does the same to two
/// that look alike.
proof fn lemma_visit_moves(
    plan: FramePlan,
    motion: Seq<MotionContext>,
    v: Visit,
    t: TileView,
)
    requires
        tile_read_back::is_block_at(plan, v.t.bands, v.mi, v.side),
        is_visit_told(plan, motion, v),
        visited(plan, motion, v).fault is None,
        tile_read_back::look_alike(v.t, t),
    ensures
        v.t.ops.is_prefix_of(visited(plan, motion, v).tile.ops),
        tile_read_back::is_ready(plan, visited(plan, motion, v).tile.bands),
        tile_read_back::look_alike(
            visited(plan, motion, v).tile,
            visited(plan, motion, (Visit { t, ..v })).tile,
        ),
        visited(plan, motion, (Visit { t, ..v })).fault is None,
{
    inter_read_back::blocks_do_the_same_to_like_tiles(
        plan,
        motion,
        v.t,
        t,
        v.block,
        v.mi,
        v.side,
    );
}

/// A block reads back where it is written, from tiles that look alike.
proof fn lemma_visit_told(
    plan: FramePlan,
    motion: Seq<MotionContext>,
    v: Visit,
    w: Visit,
    x: Seq<Op>,
    y: Seq<Op>,
)
    requires
        v.mi == w.mi,
        v.side == w.side,
        tile_read_back::is_block_at(plan, v.t.bands, v.mi, v.side),
        tile_read_back::look_alike(v.t, w.t),
        is_visit_told(plan, motion, v),
        is_visit_told(plan, motion, w),
        visited(plan, motion, v).fault is None,
        visited(plan, motion, w).fault is None,
        read_back::coded(visited(plan, motion, v).tile.ops) + x == read_back::coded(
            visited(plan, motion, w).tile.ops,
        ) + y,
    ensures
        same_visit(plan, motion, v, w),
        x == y,
        tile_read_back::look_alike(
            visited(plan, motion, v).tile,
            visited(plan, motion, w).tile,
        ),
        tile_read_back::is_ready(plan, visited(plan, motion, v).tile.bands),
{
    lemma_visit_moves(plan, motion, v, w.t);
    palette_bands::lemma_caches(w.t.bands, v.mi);
    let moved = Visit { t: w.t, ..v };
    assert(is_visit_told(plan, motion, moved));
    inter_read_back::inter_blocks_read_back(
        plan,
        motion,
        w.t,
        v.block,
        w.block,
        v.mi,
        v.side,
        x,
        y,
    );
    if v.block.inter is None {
        intra_read_back::settled_palettes_are_the_same(
            plan,
            w.t.bands,
            v.block,
            w.block,
            v.side,
            true,
        );
    }
    assert(state::same_state(visited(plan, motion, v).tile, visited(plan, motion, moved).tile));
}

/// Blocks that can be told one by one can be told in parts.
proof fn lemma_told_parts(
    plan: FramePlan,
    motion: Seq<MotionContext>,
    p: Seq<Visit>,
    q: Seq<Visit>,
)
    requires
        are_visits_told(plan, motion, p + q),
    ensures
        are_visits_told(plan, motion, p),
        are_visits_told(plan, motion, q),
{
    assert forall|k: int| 0 <= k < p.len() implies is_visit_told(plan, motion, #[trigger] p[k]) by {
        assert((p + q)[k] == p[k]);
    }
    assert forall|k: int| 0 <= k < q.len() implies is_visit_told(plan, motion, #[trigger] q[k]) by {
        assert((p + q)[p.len() + k] == q[k]);
    }
}

/// Blocks that are the same in two parts are the same.
proof fn lemma_same_sum(
    plan: FramePlan,
    motion: Seq<MotionContext>,
    p: Seq<Visit>,
    q: Seq<Visit>,
    r: Seq<Visit>,
    s: Seq<Visit>,
)
    requires
        same_visits(plan, motion, p, r),
        same_visits(plan, motion, q, s),
    ensures
        same_visits(plan, motion, p + q, r + s),
{
    assert forall|k: int| 0 <= k < (p + q).len() implies same_visit(
        plan,
        motion,
        #[trigger] (p + q)[k],
        (r + s)[k],
    ) by {
        if k < p.len() {
            assert(same_visit(plan, motion, p[k], r[k]));
        } else {
            assert(same_visit(plan, motion, q[k - p.len()], s[k - p.len()]));
        }
    }
}

/// A whole block adds to a tile, starting with its partition, and leaves it
/// ready.
proof fn lemma_whole_adds(
    plan: FramePlan,
    motion: Seq<MotionContext>,
    t: TileView,
    block: BlockCoeffs,
    mi: (int, int),
    side: int,
    table: Cdf,
)
    requires
        tile_read_back::is_block_at(plan, t.bands, mi, side),
        is_visit_told(plan, motion, whole_visit(t, block, mi, side, table)),
        inter_frame::inter_whole(plan, motion, t, block, mi.0, mi.1, side, table).fault is None,
    ensures
        ({
            let done = inter_frame::inter_whole(
                plan,
                motion,
                t,
                block,
                mi.0,
                mi.1,
                side,
                table,
            ).tile;
            &&& t.ops.is_prefix_of(done.ops)
            &&& t.ops.push(ops::symbol(0, table)).is_prefix_of(done.ops)
            &&& tile_read_back::is_ready(plan, done.bands)
        }),
{
    let v = whole_visit(t, block, mi, side, table);
    lemma_visit_moves(plan, motion, v, v.t);
    assert(v.t.ops =~= t.ops + seq![ops::symbol(0, table)]);
    tile_read_back::lemma_prefix_of_sum(t.ops, seq![ops::symbol(0, table)]);
    tile_read_back::lemma_prefix_trans(t.ops, v.t.ops, visited(plan, motion, v).tile.ops);
}

/// A whole block reads back.
proof fn lemma_whole_told(
    plan: FramePlan,
    motion: Seq<MotionContext>,
    s: TileView,
    t: TileView,
    a: BlockCoeffs,
    b: BlockCoeffs,
    mi: (int, int),
    side: int,
    table: Cdf,
    x: Seq<Op>,
    y: Seq<Op>,
)
    requires
        tile_read_back::look_alike(s, t),
        tile_read_back::is_block_at(plan, s.bands, mi, side),
        is_visit_told(plan, motion, whole_visit(s, a, mi, side, table)),
        is_visit_told(plan, motion, whole_visit(t, b, mi, side, table)),
        inter_frame::inter_whole(plan, motion, s, a, mi.0, mi.1, side, table).fault is None,
        inter_frame::inter_whole(plan, motion, t, b, mi.0, mi.1, side, table).fault is None,
        read_back::coded(
            inter_frame::inter_whole(plan, motion, s, a, mi.0, mi.1, side, table).tile.ops,
        ) + x == read_back::coded(
            inter_frame::inter_whole(plan, motion, t, b, mi.0, mi.1, side, table).tile.ops,
        ) + y,
    ensures
        same_visits(
            plan,
            motion,
            seq![whole_visit(s, a, mi, side, table)],
            seq![whole_visit(t, b, mi, side, table)],
        ),
        x == y,
        tile_read_back::look_alike(
            inter_frame::inter_whole(plan, motion, s, a, mi.0, mi.1, side, table).tile,
            inter_frame::inter_whole(plan, motion, t, b, mi.0, mi.1, side, table).tile,
        ),
{
    let v = whole_visit(s, a, mi, side, table);
    let w = whole_visit(t, b, mi, side, table);
    tile_read_back::lemma_pushed_alike(s, t, ops::symbol(0, table));
    lemma_visit_told(plan, motion, v, w, x, y);
}

/// A leaf adds to a tile, and leaves it ready.
proof fn lemma_leaf_adds(
    plan: FramePlan,
    motion: Seq<MotionContext>,
    t: TileView,
    leaf: BlockCoeffs,
    mi: (int, int),
)
    requires
        tile_read_back::is_ready(plan, t.bands),
        tile_read_back::is_square_at(plan, mi, 2),
        inter_leaf(plan, motion, t, leaf, mi).fault is None,
        are_visits_told(plan, motion, seq![leaf_visit(t, leaf, mi)]),
    ensures
        t.ops.is_prefix_of(inter_leaf(plan, motion, t, leaf, mi).tile.ops),
        tile_read_back::is_ready(plan, inter_leaf(plan, motion, t, leaf, mi).tile.bands),
{
    let table = Cdf::PartitionW8(
        neighbours::spec_partition_ctx(t.bands, mi.0, mi.1, 8) as usize,
    );
    assert(is_visit_told(plan, motion, seq![leaf_visit(t, leaf, mi)][0]));
    lemma_whole_adds(plan, motion, t, leaf, mi, 8, table);
}

/// A leaf with its partition.
spec fn inter_leaf(
    plan: FramePlan,
    motion: Seq<MotionContext>,
    t: TileView,
    leaf: BlockCoeffs,
    mi: (int, int),
) -> Step {
    inter_frame::inter_whole(
        plan,
        motion,
        t,
        leaf,
        mi.0,
        mi.1,
        8,
        Cdf::PartitionW8(neighbours::spec_partition_ctx(t.bands, mi.0, mi.1, 8) as usize),
    )
}

/// A leaf reads back.
proof fn lemma_leaf_told(
    plan: FramePlan,
    motion: Seq<MotionContext>,
    s: TileView,
    t: TileView,
    a: BlockCoeffs,
    b: BlockCoeffs,
    mi: (int, int),
    x: Seq<Op>,
    y: Seq<Op>,
)
    requires
        tile_read_back::look_alike(s, t),
        tile_read_back::is_ready(plan, s.bands),
        tile_read_back::is_square_at(plan, mi, 2),
        inter_leaf(plan, motion, s, a, mi).fault is None,
        inter_leaf(plan, motion, t, b, mi).fault is None,
        are_visits_told(plan, motion, seq![leaf_visit(s, a, mi)]),
        are_visits_told(plan, motion, seq![leaf_visit(t, b, mi)]),
        read_back::coded(inter_leaf(plan, motion, s, a, mi).tile.ops) + x == read_back::coded(
            inter_leaf(plan, motion, t, b, mi).tile.ops,
        ) + y,
    ensures
        same_visits(
            plan,
            motion,
            seq![leaf_visit(s, a, mi)],
            seq![leaf_visit(t, b, mi)],
        ),
        x == y,
        tile_read_back::look_alike(
            inter_leaf(plan, motion, s, a, mi).tile,
            inter_leaf(plan, motion, t, b, mi).tile,
        ),
{
    let table = Cdf::PartitionW8(
        neighbours::spec_partition_ctx(s.bands, mi.0, mi.1, 8) as usize,
    );
    assert(is_visit_told(plan, motion, seq![leaf_visit(s, a, mi)][0]));
    assert(is_visit_told(plan, motion, seq![leaf_visit(t, b, mi)][0]));
    lemma_whole_told(plan, motion, s, t, a, b, mi, 8, table, x, y);
}

/// The leaves of a 16x16 block add to a tile, and leave it ready.
proof fn lemma_leaves_add(
    plan: FramePlan,
    motion: Seq<MotionContext>,
    t: TileView,
    leaves: Seq<BlockCoeffs>,
    mi: (int, int),
    i: int,
)
    requires
        0 <= i <= 4,
        tile_read_back::is_ready(plan, t.bands),
        tile_read_back::is_square_at(plan, mi, 4),
        inter_frame::inter_leaves(plan, motion, t, leaves, mi.0, mi.1, i).fault is None,
        are_visits_told(plan, motion, leaf_visits(plan, motion, t, leaves, mi, i)),
    ensures
        t.ops.is_prefix_of(
            inter_frame::inter_leaves(plan, motion, t, leaves, mi.0, mi.1, i).tile.ops,
        ),
        tile_read_back::is_ready(
            plan,
            inter_frame::inter_leaves(plan, motion, t, leaves, mi.0, mi.1, i).tile.bands,
        ),
        i > 0 && children::is_inside(plan, mi.0, mi.1, 2, i - 1) ==> {
            let before = inter_frame::inter_leaves(plan, motion, t, leaves, mi.0, mi.1, i - 1);
            &&& before.fault is None
            &&& tile_read_back::is_ready(plan, before.tile.bands)
            &&& before.tile.ops.is_prefix_of(
                inter_frame::inter_leaves(plan, motion, t, leaves, mi.0, mi.1, i).tile.ops,
            )
        },
    decreases i,
{
    if i > 0 {
        let before = inter_frame::inter_leaves(plan, motion, t, leaves, mi.0, mi.1, i - 1);
        if children::is_inside(plan, mi.0, mi.1, 2, i - 1) {
            let at = (
                children::child_r(mi.0, 2, i - 1),
                children::child_c(mi.1, 2, i - 1),
            );
            let leaf = leaves[children::inside_before(plan, mi.0, mi.1, 2, i - 1)];
            lemma_told_parts(
                plan,
                motion,
                leaf_visits(plan, motion, t, leaves, mi, i - 1),
                seq![leaf_visit(before.tile, leaf, at)],
            );
            lemma_leaves_add(plan, motion, t, leaves, mi, i - 1);
            lemma_leaf_adds(plan, motion, before.tile, leaf, at);
            tile_read_back::lemma_prefix_trans(
                t.ops,
                before.tile.ops,
                inter_frame::inter_leaves(plan, motion, t, leaves, mi.0, mi.1, i).tile.ops,
            );
        } else {
            lemma_leaves_add(plan, motion, t, leaves, mi, i - 1);
        }
    } else {
        assert(t.ops.subrange(0, t.ops.len() as int) =~= t.ops);
    }
}

/// The leaves of a 16x16 block read back.
#[verifier::rlimit(60)]
proof fn lemma_leaves_told(
    plan: FramePlan,
    motion: Seq<MotionContext>,
    s: TileView,
    t: TileView,
    a: Seq<BlockCoeffs>,
    b: Seq<BlockCoeffs>,
    mi: (int, int),
    i: int,
    x: Seq<Op>,
    y: Seq<Op>,
)
    requires
        0 <= i <= 4,
        tile_read_back::look_alike(s, t),
        tile_read_back::is_ready(plan, s.bands),
        tile_read_back::is_square_at(plan, mi, 4),
        inter_frame::inter_leaves(plan, motion, s, a, mi.0, mi.1, i).fault is None,
        inter_frame::inter_leaves(plan, motion, t, b, mi.0, mi.1, i).fault is None,
        are_visits_told(plan, motion, leaf_visits(plan, motion, s, a, mi, i)),
        are_visits_told(plan, motion, leaf_visits(plan, motion, t, b, mi, i)),
        read_back::coded(
            inter_frame::inter_leaves(plan, motion, s, a, mi.0, mi.1, i).tile.ops,
        ) + x == read_back::coded(
            inter_frame::inter_leaves(plan, motion, t, b, mi.0, mi.1, i).tile.ops,
        ) + y,
    ensures
        same_visits(
            plan,
            motion,
            leaf_visits(plan, motion, s, a, mi, i),
            leaf_visits(plan, motion, t, b, mi, i),
        ),
        x == y,
        tile_read_back::look_alike(
            inter_frame::inter_leaves(plan, motion, s, a, mi.0, mi.1, i).tile,
            inter_frame::inter_leaves(plan, motion, t, b, mi.0, mi.1, i).tile,
        ),
    decreases i,
{
    let ea = inter_frame::inter_leaves(plan, motion, s, a, mi.0, mi.1, i).tile;
    let eb = inter_frame::inter_leaves(plan, motion, t, b, mi.0, mi.1, i).tile;
    if i <= 0 {
        read_back::lemma_parts(read_back::coded(s.ops), x, read_back::coded(t.ops), y);
    } else {
        lemma_leaves_add(plan, motion, s, a, mi, i);
        lemma_leaves_add(plan, motion, t, b, mi, i);
        if children::is_inside(plan, mi.0, mi.1, 2, i - 1) {
            let ba = inter_frame::inter_leaves(plan, motion, s, a, mi.0, mi.1, i - 1).tile;
            let bb = inter_frame::inter_leaves(plan, motion, t, b, mi.0, mi.1, i - 1).tile;
            let sa = leaf_visits(plan, motion, s, a, mi, i - 1);
            let sb = leaf_visits(plan, motion, t, b, mi, i - 1);
            let at = (
                children::child_r(mi.0, 2, i - 1),
                children::child_c(mi.1, 2, i - 1),
            );
            let ia = a[children::inside_before(plan, mi.0, mi.1, 2, i - 1)];
            let ib = b[children::inside_before(plan, mi.0, mi.1, 2, i - 1)];
            let va = seq![leaf_visit(ba, ia, at)];
            let vb = seq![leaf_visit(bb, ib, at)];
            lemma_told_parts(plan, motion, sa, va);
            lemma_told_parts(plan, motion, sb, vb);
            let ra = tile_read_back::lemma_rest(ba.ops, ea.ops);
            let rb = tile_read_back::lemma_rest(bb.ops, eb.ops);
            tile_read_back::lemma_regrouped(ba, ea, ra, x);
            tile_read_back::lemma_regrouped(bb, eb, rb, y);
            lemma_leaves_told(plan, motion, s, t, a, b, mi, i - 1, ra + x, rb + y);
            lemma_leaf_told(plan, motion, ba, bb, ia, ib, at, x, y);
            lemma_same_sum(plan, motion, sa, va, sb, vb);
        } else {
            lemma_leaves_told(plan, motion, s, t, a, b, mi, i - 1, x, y);
        }
    }
}

/// A 16x16 block adds to a tile, starting with its partition where it lies inside
/// the frame, and leaves it ready.
proof fn lemma_sub_adds(
    plan: FramePlan,
    motion: Seq<MotionContext>,
    t: TileView,
    item: BlockCoeffs,
    mi: (int, int),
)
    requires
        tile_read_back::is_ready(plan, t.bands),
        tile_read_back::is_square_at(plan, mi, 4),
        inter_frame::inter_sub(plan, motion, t, item, mi.0, mi.1).fault is None,
        are_visits_told(plan, motion, sub_visits(plan, motion, t, item, mi)),
    ensures
        t.ops.is_prefix_of(inter_frame::inter_sub(plan, motion, t, item, mi.0, mi.1).tile.ops),
        tile_read_back::is_ready(
            plan,
            inter_frame::inter_sub(plan, motion, t, item, mi.0, mi.1).tile.bands,
        ),
        key_frame::has_cols(plan, mi.1, 4) && key_frame::has_rows(plan, mi.0, 4) ==> t.ops.push(
            ops::symbol(
                if item.eight is None {
                    0
                } else {
                    3
                },
                Cdf::PartitionW16(
                    neighbours::spec_partition_ctx(t.bands, mi.0, mi.1, 16) as usize,
                ),
            ),
        ).is_prefix_of(inter_frame::inter_sub(plan, motion, t, item, mi.0, mi.1).tile.ops),
{
    reveal(inter_frame::inter_sub);
    let cols = key_frame::has_cols(plan, mi.1, 4);
    let rows = key_frame::has_rows(plan, mi.0, 4);
    let table = Cdf::PartitionW16(
        neighbours::spec_partition_ctx(t.bands, mi.0, mi.1, 16) as usize,
    );
    let own = plans::split_ops(table, cols, rows);
    let split = state::said(t, own);
    tile_read_back::lemma_prefix_of_sum(t.ops, own);
    if cols && rows {
        assert(t.ops + own =~= t.ops.push(ops::symbol(3, table)));
    }
    match item.eight {
        None => {
            assert(is_visit_told(plan, motion, sub_visits(plan, motion, t, item, mi)[0]));
            lemma_whole_adds(plan, motion, t, item, mi, 16, table);
        },
        Some(leaves) => {
            lemma_leaves_add(plan, motion, split, leaves@, mi, 4);
            tile_read_back::lemma_prefix_trans(
                t.ops,
                split.ops,
                inter_frame::inter_leaves(plan, motion, split, leaves@, mi.0, mi.1, 4).tile.ops,
            );
        },
    }
}

/// The partition of a 16x16 block reads back.
proof fn lemma_sub_kind(
    plan: FramePlan,
    motion: Seq<MotionContext>,
    s: TileView,
    t: TileView,
    a: BlockCoeffs,
    b: BlockCoeffs,
    mi: (int, int),
    x: Seq<Op>,
    y: Seq<Op>,
)
    requires
        tile_read_back::look_alike(s, t),
        tile_read_back::is_ready(plan, s.bands),
        tile_read_back::is_square_at(plan, mi, 4),
        inter_frame::inter_sub(plan, motion, s, a, mi.0, mi.1).fault is None,
        inter_frame::inter_sub(plan, motion, t, b, mi.0, mi.1).fault is None,
        are_visits_told(plan, motion, sub_visits(plan, motion, s, a, mi)),
        are_visits_told(plan, motion, sub_visits(plan, motion, t, b, mi)),
        read_back::coded(inter_frame::inter_sub(plan, motion, s, a, mi.0, mi.1).tile.ops) + x
            == read_back::coded(inter_frame::inter_sub(plan, motion, t, b, mi.0, mi.1).tile.ops) + y,
        key_frame::has_cols(plan, mi.1, 4),
        key_frame::has_rows(plan, mi.0, 4),
    ensures
        (a.eight is None) == (b.eight is None),
{
    let table = Cdf::PartitionW16(
        neighbours::spec_partition_ctx(s.bands, mi.0, mi.1, 16) as usize,
    );
    lemma_sub_adds(plan, motion, s, a, mi);
    lemma_sub_adds(plan, motion, t, b, mi);
    tile_read_back::lemma_partition_told(
        s,
        t,
        (
            inter_frame::inter_sub(plan, motion, s, a, mi.0, mi.1).tile.ops,
            inter_frame::inter_sub(plan, motion, t, b, mi.0, mi.1).tile.ops,
        ),
        table,
        (
            if a.eight is None {
                0
            } else {
                3
            },
            if b.eight is None {
                0
            } else {
                3
            },
        ),
        x,
        y,
    );
}

/// A 16x16 block reads back.
#[verifier::rlimit(60)]
proof fn lemma_sub_told(
    plan: FramePlan,
    motion: Seq<MotionContext>,
    s: TileView,
    t: TileView,
    a: BlockCoeffs,
    b: BlockCoeffs,
    mi: (int, int),
    x: Seq<Op>,
    y: Seq<Op>,
)
    requires
        tile_read_back::look_alike(s, t),
        tile_read_back::is_ready(plan, s.bands),
        tile_read_back::is_square_at(plan, mi, 4),
        inter_frame::inter_sub(plan, motion, s, a, mi.0, mi.1).fault is None,
        inter_frame::inter_sub(plan, motion, t, b, mi.0, mi.1).fault is None,
        are_visits_told(plan, motion, sub_visits(plan, motion, s, a, mi)),
        are_visits_told(plan, motion, sub_visits(plan, motion, t, b, mi)),
        read_back::coded(inter_frame::inter_sub(plan, motion, s, a, mi.0, mi.1).tile.ops) + x
            == read_back::coded(inter_frame::inter_sub(plan, motion, t, b, mi.0, mi.1).tile.ops) + y,
    ensures
        same_visits(
            plan,
            motion,
            sub_visits(plan, motion, s, a, mi),
            sub_visits(plan, motion, t, b, mi),
        ),
        x == y,
        tile_read_back::look_alike(
            inter_frame::inter_sub(plan, motion, s, a, mi.0, mi.1).tile,
            inter_frame::inter_sub(plan, motion, t, b, mi.0, mi.1).tile,
        ),
{
    let cols = key_frame::has_cols(plan, mi.1, 4);
    let rows = key_frame::has_rows(plan, mi.0, 4);
    let table = Cdf::PartitionW16(
        neighbours::spec_partition_ctx(s.bands, mi.0, mi.1, 16) as usize,
    );
    let own = plans::split_ops(table, cols, rows);
    if cols && rows {
        lemma_sub_kind(plan, motion, s, t, a, b, mi, x, y);
    }
    reveal(inter_frame::inter_sub);
    tile_read_back::lemma_said_alike(s, t, own);
    match (a.eight, b.eight) {
        (None, None) => {
            assert(is_visit_told(plan, motion, sub_visits(plan, motion, s, a, mi)[0]));
            assert(is_visit_told(plan, motion, sub_visits(plan, motion, t, b, mi)[0]));
            lemma_whole_told(plan, motion, s, t, a, b, mi, 16, table, x, y);
        },
        (Some(u), Some(v)) => {
            lemma_leaves_told(
                plan,
                motion,
                state::said(s, own),
                state::said(t, own),
                u@,
                v@,
                mi,
                4,
                x,
                y,
            );
        },
        _ => {},
    }
}

/// The quarters of a split 32x32 block add to a tile, and leave it ready.
proof fn lemma_subs_add(
    plan: FramePlan,
    motion: Seq<MotionContext>,
    t: TileView,
    blocks: Seq<BlockCoeffs>,
    mi: (int, int),
    i: int,
)
    requires
        0 <= i <= 4,
        tile_read_back::is_ready(plan, t.bands),
        tile_read_back::is_square_at(plan, mi, 8),
        inter_frame::inter_subs(plan, motion, t, blocks, mi.0, mi.1, i).fault is None,
        are_visits_told(plan, motion, subs_visits(plan, motion, t, blocks, mi, i)),
    ensures
        t.ops.is_prefix_of(
            inter_frame::inter_subs(plan, motion, t, blocks, mi.0, mi.1, i).tile.ops,
        ),
        tile_read_back::is_ready(
            plan,
            inter_frame::inter_subs(plan, motion, t, blocks, mi.0, mi.1, i).tile.bands,
        ),
        i > 0 && children::is_inside(plan, mi.0, mi.1, 4, i - 1) ==> {
            let before = inter_frame::inter_subs(plan, motion, t, blocks, mi.0, mi.1, i - 1);
            &&& before.fault is None
            &&& tile_read_back::is_ready(plan, before.tile.bands)
            &&& before.tile.ops.is_prefix_of(
                inter_frame::inter_subs(plan, motion, t, blocks, mi.0, mi.1, i).tile.ops,
            )
        },
    decreases i,
{
    if i > 0 {
        let before = inter_frame::inter_subs(plan, motion, t, blocks, mi.0, mi.1, i - 1);
        if children::is_inside(plan, mi.0, mi.1, 4, i - 1) {
            let at = (
                children::child_r(mi.0, 4, i - 1),
                children::child_c(mi.1, 4, i - 1),
            );
            let block = blocks[children::inside_before(plan, mi.0, mi.1, 4, i - 1)];
            lemma_told_parts(
                plan,
                motion,
                subs_visits(plan, motion, t, blocks, mi, i - 1),
                sub_visits(plan, motion, before.tile, block, at),
            );
            lemma_subs_add(plan, motion, t, blocks, mi, i - 1);
            lemma_sub_adds(plan, motion, before.tile, block, at);
            tile_read_back::lemma_prefix_trans(
                t.ops,
                before.tile.ops,
                inter_frame::inter_subs(plan, motion, t, blocks, mi.0, mi.1, i).tile.ops,
            );
        } else {
            lemma_subs_add(plan, motion, t, blocks, mi, i - 1);
        }
    } else {
        assert(t.ops.subrange(0, t.ops.len() as int) =~= t.ops);
    }
}

/// The quarters of a split 32x32 block read back.
#[verifier::rlimit(60)]
proof fn lemma_subs_told(
    plan: FramePlan,
    motion: Seq<MotionContext>,
    s: TileView,
    t: TileView,
    a: Seq<BlockCoeffs>,
    b: Seq<BlockCoeffs>,
    mi: (int, int),
    i: int,
    x: Seq<Op>,
    y: Seq<Op>,
)
    requires
        0 <= i <= 4,
        tile_read_back::look_alike(s, t),
        tile_read_back::is_ready(plan, s.bands),
        tile_read_back::is_square_at(plan, mi, 8),
        inter_frame::inter_subs(plan, motion, s, a, mi.0, mi.1, i).fault is None,
        inter_frame::inter_subs(plan, motion, t, b, mi.0, mi.1, i).fault is None,
        are_visits_told(plan, motion, subs_visits(plan, motion, s, a, mi, i)),
        are_visits_told(plan, motion, subs_visits(plan, motion, t, b, mi, i)),
        read_back::coded(
            inter_frame::inter_subs(plan, motion, s, a, mi.0, mi.1, i).tile.ops,
        ) + x == read_back::coded(
            inter_frame::inter_subs(plan, motion, t, b, mi.0, mi.1, i).tile.ops,
        ) + y,
    ensures
        same_visits(
            plan,
            motion,
            subs_visits(plan, motion, s, a, mi, i),
            subs_visits(plan, motion, t, b, mi, i),
        ),
        x == y,
        tile_read_back::look_alike(
            inter_frame::inter_subs(plan, motion, s, a, mi.0, mi.1, i).tile,
            inter_frame::inter_subs(plan, motion, t, b, mi.0, mi.1, i).tile,
        ),
    decreases i,
{
    let ea = inter_frame::inter_subs(plan, motion, s, a, mi.0, mi.1, i).tile;
    let eb = inter_frame::inter_subs(plan, motion, t, b, mi.0, mi.1, i).tile;
    if i <= 0 {
        read_back::lemma_parts(read_back::coded(s.ops), x, read_back::coded(t.ops), y);
    } else {
        lemma_subs_add(plan, motion, s, a, mi, i);
        lemma_subs_add(plan, motion, t, b, mi, i);
        if children::is_inside(plan, mi.0, mi.1, 4, i - 1) {
            let ba = inter_frame::inter_subs(plan, motion, s, a, mi.0, mi.1, i - 1).tile;
            let bb = inter_frame::inter_subs(plan, motion, t, b, mi.0, mi.1, i - 1).tile;
            let sa = subs_visits(plan, motion, s, a, mi, i - 1);
            let sb = subs_visits(plan, motion, t, b, mi, i - 1);
            let at = (
                children::child_r(mi.0, 4, i - 1),
                children::child_c(mi.1, 4, i - 1),
            );
            let ia = a[children::inside_before(plan, mi.0, mi.1, 4, i - 1)];
            let ib = b[children::inside_before(plan, mi.0, mi.1, 4, i - 1)];
            let va = sub_visits(plan, motion, ba, ia, at);
            let vb = sub_visits(plan, motion, bb, ib, at);
            lemma_told_parts(plan, motion, sa, va);
            lemma_told_parts(plan, motion, sb, vb);
            let ra = tile_read_back::lemma_rest(ba.ops, ea.ops);
            let rb = tile_read_back::lemma_rest(bb.ops, eb.ops);
            tile_read_back::lemma_regrouped(ba, ea, ra, x);
            tile_read_back::lemma_regrouped(bb, eb, rb, y);
            lemma_subs_told(plan, motion, s, t, a, b, mi, i - 1, ra + x, rb + y);
            lemma_sub_told(plan, motion, ba, bb, ia, ib, at, x, y);
            lemma_same_sum(plan, motion, sa, va, sb, vb);
        } else {
            lemma_subs_told(plan, motion, s, t, a, b, mi, i - 1, x, y);
        }
    }
}

/// A 32x32 quadrant adds to a tile, starting with its partition where it lies inside
/// the frame, and leaves it ready.
proof fn lemma_quad_adds(
    plan: FramePlan,
    motion: Seq<MotionContext>,
    t: TileView,
    item: Quadrant,
    mi: (int, int),
)
    requires
        tile_read_back::is_ready(plan, t.bands),
        tile_read_back::is_square_at(plan, mi, 8),
        inter_frame::inter_quad(plan, motion, t, item, mi.0, mi.1).fault is None,
        are_visits_told(plan, motion, quad_visits(plan, motion, t, item, mi)),
    ensures
        t.ops.is_prefix_of(inter_frame::inter_quad(plan, motion, t, item, mi.0, mi.1).tile.ops),
        tile_read_back::is_ready(
            plan,
            inter_frame::inter_quad(plan, motion, t, item, mi.0, mi.1).tile.bands,
        ),
        key_frame::has_cols(plan, mi.1, 8) && key_frame::has_rows(plan, mi.0, 8) ==> t.ops.push(
            ops::symbol(
                if item is Whole {
                    0
                } else {
                    3
                },
                Cdf::PartitionW32(
                    neighbours::spec_partition_ctx(t.bands, mi.0, mi.1, 32) as usize,
                ),
            ),
        ).is_prefix_of(inter_frame::inter_quad(plan, motion, t, item, mi.0, mi.1).tile.ops),
{
    reveal(inter_frame::inter_quad);
    let cols = key_frame::has_cols(plan, mi.1, 8);
    let rows = key_frame::has_rows(plan, mi.0, 8);
    let table = Cdf::PartitionW32(
        neighbours::spec_partition_ctx(t.bands, mi.0, mi.1, 32) as usize,
    );
    let own = plans::split_ops(table, cols, rows);
    let split = state::said(t, own);
    tile_read_back::lemma_prefix_of_sum(t.ops, own);
    if cols && rows {
        assert(t.ops + own =~= t.ops.push(ops::symbol(3, table)));
    }
    match item {
        Quadrant::Whole(block) => {
            assert(is_visit_told(plan, motion, quad_visits(plan, motion, t, item, mi)[0]));
            lemma_whole_adds(plan, motion, t, block, mi, 32, table);
        },
        Quadrant::Split(blocks) => {
            lemma_subs_add(plan, motion, split, blocks@, mi, 4);
            tile_read_back::lemma_prefix_trans(
                t.ops,
                split.ops,
                inter_frame::inter_subs(plan, motion, split, blocks@, mi.0, mi.1, 4).tile.ops,
            );
        },
        _ => {},
    }
}

/// The partition of a 32x32 quadrant reads back.
proof fn lemma_quad_kind(
    plan: FramePlan,
    motion: Seq<MotionContext>,
    s: TileView,
    t: TileView,
    a: Quadrant,
    b: Quadrant,
    mi: (int, int),
    x: Seq<Op>,
    y: Seq<Op>,
)
    requires
        tile_read_back::look_alike(s, t),
        tile_read_back::is_ready(plan, s.bands),
        tile_read_back::is_square_at(plan, mi, 8),
        inter_frame::inter_quad(plan, motion, s, a, mi.0, mi.1).fault is None,
        inter_frame::inter_quad(plan, motion, t, b, mi.0, mi.1).fault is None,
        are_visits_told(plan, motion, quad_visits(plan, motion, s, a, mi)),
        are_visits_told(plan, motion, quad_visits(plan, motion, t, b, mi)),
        read_back::coded(inter_frame::inter_quad(plan, motion, s, a, mi.0, mi.1).tile.ops) + x
            == read_back::coded(inter_frame::inter_quad(plan, motion, t, b, mi.0, mi.1).tile.ops) + y,
        key_frame::has_cols(plan, mi.1, 8),
        key_frame::has_rows(plan, mi.0, 8),
    ensures
        (a is Whole) == (b is Whole),
{
    let table = Cdf::PartitionW32(
        neighbours::spec_partition_ctx(s.bands, mi.0, mi.1, 32) as usize,
    );
    lemma_quad_adds(plan, motion, s, a, mi);
    lemma_quad_adds(plan, motion, t, b, mi);
    tile_read_back::lemma_partition_told(
        s,
        t,
        (
            inter_frame::inter_quad(plan, motion, s, a, mi.0, mi.1).tile.ops,
            inter_frame::inter_quad(plan, motion, t, b, mi.0, mi.1).tile.ops,
        ),
        table,
        (
            if a is Whole {
                0
            } else {
                3
            },
            if b is Whole {
                0
            } else {
                3
            },
        ),
        x,
        y,
    );
}

/// A 32x32 quadrant reads back.
#[verifier::rlimit(60)]
proof fn lemma_quad_told(
    plan: FramePlan,
    motion: Seq<MotionContext>,
    s: TileView,
    t: TileView,
    a: Quadrant,
    b: Quadrant,
    mi: (int, int),
    x: Seq<Op>,
    y: Seq<Op>,
)
    requires
        tile_read_back::look_alike(s, t),
        tile_read_back::is_ready(plan, s.bands),
        tile_read_back::is_square_at(plan, mi, 8),
        inter_frame::inter_quad(plan, motion, s, a, mi.0, mi.1).fault is None,
        inter_frame::inter_quad(plan, motion, t, b, mi.0, mi.1).fault is None,
        are_visits_told(plan, motion, quad_visits(plan, motion, s, a, mi)),
        are_visits_told(plan, motion, quad_visits(plan, motion, t, b, mi)),
        read_back::coded(inter_frame::inter_quad(plan, motion, s, a, mi.0, mi.1).tile.ops) + x
            == read_back::coded(inter_frame::inter_quad(plan, motion, t, b, mi.0, mi.1).tile.ops) + y,
    ensures
        same_visits(
            plan,
            motion,
            quad_visits(plan, motion, s, a, mi),
            quad_visits(plan, motion, t, b, mi),
        ),
        x == y,
        tile_read_back::look_alike(
            inter_frame::inter_quad(plan, motion, s, a, mi.0, mi.1).tile,
            inter_frame::inter_quad(plan, motion, t, b, mi.0, mi.1).tile,
        ),
{
    let cols = key_frame::has_cols(plan, mi.1, 8);
    let rows = key_frame::has_rows(plan, mi.0, 8);
    let table = Cdf::PartitionW32(
        neighbours::spec_partition_ctx(s.bands, mi.0, mi.1, 32) as usize,
    );
    let own = plans::split_ops(table, cols, rows);
    if cols && rows {
        lemma_quad_kind(plan, motion, s, t, a, b, mi, x, y);
    }
    reveal(inter_frame::inter_quad);
    tile_read_back::lemma_said_alike(s, t, own);
    match (a, b) {
        (Quadrant::Whole(u), Quadrant::Whole(v)) => {
            assert(is_visit_told(plan, motion, quad_visits(plan, motion, s, a, mi)[0]));
            assert(is_visit_told(plan, motion, quad_visits(plan, motion, t, b, mi)[0]));
            lemma_whole_told(plan, motion, s, t, u, v, mi, 32, table, x, y);
        },
        (Quadrant::Split(u), Quadrant::Split(v)) => {
            lemma_subs_told(
                plan,
                motion,
                state::said(s, own),
                state::said(t, own),
                u@,
                v@,
                mi,
                4,
                x,
                y,
            );
        },
        _ => {},
    }
}

/// The quadrants of a split superblock add to a tile, and leave it ready.
proof fn lemma_quads_add(
    plan: FramePlan,
    motion: Seq<MotionContext>,
    t: TileView,
    quads: Seq<Quadrant>,
    mi: (int, int),
    i: int,
)
    requires
        0 <= i <= 4,
        tile_read_back::is_ready(plan, t.bands),
        tile_read_back::is_square_at(plan, mi, 16),
        inter_frame::inter_quads(plan, motion, t, quads, mi.0, mi.1, i).fault is None,
        are_visits_told(plan, motion, quads_visits(plan, motion, t, quads, mi, i)),
    ensures
        t.ops.is_prefix_of(
            inter_frame::inter_quads(plan, motion, t, quads, mi.0, mi.1, i).tile.ops,
        ),
        tile_read_back::is_ready(
            plan,
            inter_frame::inter_quads(plan, motion, t, quads, mi.0, mi.1, i).tile.bands,
        ),
        i > 0 && children::is_inside(plan, mi.0, mi.1, 8, i - 1) ==> {
            let before = inter_frame::inter_quads(plan, motion, t, quads, mi.0, mi.1, i - 1);
            &&& before.fault is None
            &&& tile_read_back::is_ready(plan, before.tile.bands)
            &&& before.tile.ops.is_prefix_of(
                inter_frame::inter_quads(plan, motion, t, quads, mi.0, mi.1, i).tile.ops,
            )
        },
    decreases i,
{
    if i > 0 {
        let before = inter_frame::inter_quads(plan, motion, t, quads, mi.0, mi.1, i - 1);
        if children::is_inside(plan, mi.0, mi.1, 8, i - 1) {
            let at = (
                children::child_r(mi.0, 8, i - 1),
                children::child_c(mi.1, 8, i - 1),
            );
            let quad = inter_frame::quad_at(plan, quads, at.0, at.1);
            lemma_told_parts(
                plan,
                motion,
                quads_visits(plan, motion, t, quads, mi, i - 1),
                quad_visits(plan, motion, before.tile, quad, at),
            );
            lemma_quads_add(plan, motion, t, quads, mi, i - 1);
            lemma_quad_adds(plan, motion, before.tile, quad, at);
            tile_read_back::lemma_prefix_trans(
                t.ops,
                before.tile.ops,
                inter_frame::inter_quads(plan, motion, t, quads, mi.0, mi.1, i).tile.ops,
            );
        } else {
            lemma_quads_add(plan, motion, t, quads, mi, i - 1);
        }
    } else {
        assert(t.ops.subrange(0, t.ops.len() as int) =~= t.ops);
    }
}

/// The quadrants of a split superblock read back.
#[verifier::rlimit(60)]
proof fn lemma_quads_told(
    plan: FramePlan,
    motion: Seq<MotionContext>,
    s: TileView,
    t: TileView,
    a: Seq<Quadrant>,
    b: Seq<Quadrant>,
    mi: (int, int),
    i: int,
    x: Seq<Op>,
    y: Seq<Op>,
)
    requires
        0 <= i <= 4,
        tile_read_back::look_alike(s, t),
        tile_read_back::is_ready(plan, s.bands),
        tile_read_back::is_square_at(plan, mi, 16),
        inter_frame::inter_quads(plan, motion, s, a, mi.0, mi.1, i).fault is None,
        inter_frame::inter_quads(plan, motion, t, b, mi.0, mi.1, i).fault is None,
        are_visits_told(plan, motion, quads_visits(plan, motion, s, a, mi, i)),
        are_visits_told(plan, motion, quads_visits(plan, motion, t, b, mi, i)),
        read_back::coded(
            inter_frame::inter_quads(plan, motion, s, a, mi.0, mi.1, i).tile.ops,
        ) + x == read_back::coded(
            inter_frame::inter_quads(plan, motion, t, b, mi.0, mi.1, i).tile.ops,
        ) + y,
    ensures
        same_visits(
            plan,
            motion,
            quads_visits(plan, motion, s, a, mi, i),
            quads_visits(plan, motion, t, b, mi, i),
        ),
        x == y,
        tile_read_back::look_alike(
            inter_frame::inter_quads(plan, motion, s, a, mi.0, mi.1, i).tile,
            inter_frame::inter_quads(plan, motion, t, b, mi.0, mi.1, i).tile,
        ),
    decreases i,
{
    let ea = inter_frame::inter_quads(plan, motion, s, a, mi.0, mi.1, i).tile;
    let eb = inter_frame::inter_quads(plan, motion, t, b, mi.0, mi.1, i).tile;
    if i <= 0 {
        read_back::lemma_parts(read_back::coded(s.ops), x, read_back::coded(t.ops), y);
    } else {
        lemma_quads_add(plan, motion, s, a, mi, i);
        lemma_quads_add(plan, motion, t, b, mi, i);
        if children::is_inside(plan, mi.0, mi.1, 8, i - 1) {
            let ba = inter_frame::inter_quads(plan, motion, s, a, mi.0, mi.1, i - 1).tile;
            let bb = inter_frame::inter_quads(plan, motion, t, b, mi.0, mi.1, i - 1).tile;
            let sa = quads_visits(plan, motion, s, a, mi, i - 1);
            let sb = quads_visits(plan, motion, t, b, mi, i - 1);
            let at = (
                children::child_r(mi.0, 8, i - 1),
                children::child_c(mi.1, 8, i - 1),
            );
            let ia = inter_frame::quad_at(plan, a, at.0, at.1);
            let ib = inter_frame::quad_at(plan, b, at.0, at.1);
            let va = quad_visits(plan, motion, ba, ia, at);
            let vb = quad_visits(plan, motion, bb, ib, at);
            lemma_told_parts(plan, motion, sa, va);
            lemma_told_parts(plan, motion, sb, vb);
            let ra = tile_read_back::lemma_rest(ba.ops, ea.ops);
            let rb = tile_read_back::lemma_rest(bb.ops, eb.ops);
            tile_read_back::lemma_regrouped(ba, ea, ra, x);
            tile_read_back::lemma_regrouped(bb, eb, rb, y);
            lemma_quads_told(plan, motion, s, t, a, b, mi, i - 1, ra + x, rb + y);
            lemma_quad_told(plan, motion, ba, bb, ia, ib, at, x, y);
            lemma_same_sum(plan, motion, sa, va, sb, vb);
        } else {
            lemma_quads_told(plan, motion, s, t, a, b, mi, i - 1, x, y);
        }
    }
}

/// A superblock adds to a tile, starting with its partition where it lies inside
/// the frame, and leaves it ready.
proof fn lemma_sb_adds(
    plan: FramePlan,
    motion: Seq<MotionContext>,
    t: TileView,
    item: Seq<Quadrant>,
    mi: (int, int),
)
    requires
        tile_read_back::is_ready(plan, t.bands),
        tile_read_back::is_square_at(plan, mi, 16),
        inter_frame::inter_sb(plan, motion, t, item, mi.0, mi.1).fault is None,
        are_visits_told(plan, motion, sb_visits(plan, motion, t, item, mi)),
    ensures
        t.ops.is_prefix_of(inter_frame::inter_sb(plan, motion, t, item, mi.0, mi.1).tile.ops),
        tile_read_back::is_ready(
            plan,
            inter_frame::inter_sb(plan, motion, t, item, mi.0, mi.1).tile.bands,
        ),
        key_frame::has_cols(plan, mi.1, 16) && key_frame::has_rows(plan, mi.0, 16) ==> t.ops.push(
            ops::symbol(
                if inter_frame::quad_at(plan, item, mi.0, mi.1) is Whole64 {
                    0
                } else {
                    3
                },
                Cdf::PartitionW64(
                    neighbours::spec_partition_ctx(t.bands, mi.0, mi.1, 64) as usize,
                ),
            ),
        ).is_prefix_of(inter_frame::inter_sb(plan, motion, t, item, mi.0, mi.1).tile.ops),
{
    reveal(inter_frame::inter_sb);
    let cols = key_frame::has_cols(plan, mi.1, 16);
    let rows = key_frame::has_rows(plan, mi.0, 16);
    let table = Cdf::PartitionW64(
        neighbours::spec_partition_ctx(t.bands, mi.0, mi.1, 64) as usize,
    );
    let own = plans::split_ops(table, cols, rows);
    let split = state::said(t, own);
    tile_read_back::lemma_prefix_of_sum(t.ops, own);
    if cols && rows {
        assert(t.ops + own =~= t.ops.push(ops::symbol(3, table)));
    }
    match inter_frame::quad_at(plan, item, mi.0, mi.1) {
        Quadrant::Whole64(block) => {
            assert(is_visit_told(plan, motion, sb_visits(plan, motion, t, item, mi)[0]));
            lemma_whole_adds(plan, motion, t, block, mi, 64, table);
        },
        _ => {
            lemma_quads_add(plan, motion, split, item, mi, 4);
            tile_read_back::lemma_prefix_trans(
                t.ops,
                split.ops,
                inter_frame::inter_quads(plan, motion, split, item, mi.0, mi.1, 4).tile.ops,
            );
        },
    }
}

/// The partition of a superblock reads back.
proof fn lemma_sb_kind(
    plan: FramePlan,
    motion: Seq<MotionContext>,
    s: TileView,
    t: TileView,
    a: Seq<Quadrant>,
    b: Seq<Quadrant>,
    mi: (int, int),
    x: Seq<Op>,
    y: Seq<Op>,
)
    requires
        tile_read_back::look_alike(s, t),
        tile_read_back::is_ready(plan, s.bands),
        tile_read_back::is_square_at(plan, mi, 16),
        inter_frame::inter_sb(plan, motion, s, a, mi.0, mi.1).fault is None,
        inter_frame::inter_sb(plan, motion, t, b, mi.0, mi.1).fault is None,
        are_visits_told(plan, motion, sb_visits(plan, motion, s, a, mi)),
        are_visits_told(plan, motion, sb_visits(plan, motion, t, b, mi)),
        read_back::coded(inter_frame::inter_sb(plan, motion, s, a, mi.0, mi.1).tile.ops) + x
            == read_back::coded(inter_frame::inter_sb(plan, motion, t, b, mi.0, mi.1).tile.ops) + y,
        key_frame::has_cols(plan, mi.1, 16),
        key_frame::has_rows(plan, mi.0, 16),
    ensures
        (inter_frame::quad_at(plan, a, mi.0, mi.1) is Whole64) == (inter_frame::quad_at(plan, b, mi.0, mi.1) is Whole64),
{
    let table = Cdf::PartitionW64(
        neighbours::spec_partition_ctx(s.bands, mi.0, mi.1, 64) as usize,
    );
    lemma_sb_adds(plan, motion, s, a, mi);
    lemma_sb_adds(plan, motion, t, b, mi);
    tile_read_back::lemma_partition_told(
        s,
        t,
        (
            inter_frame::inter_sb(plan, motion, s, a, mi.0, mi.1).tile.ops,
            inter_frame::inter_sb(plan, motion, t, b, mi.0, mi.1).tile.ops,
        ),
        table,
        (
            if inter_frame::quad_at(plan, a, mi.0, mi.1) is Whole64 {
                0
            } else {
                3
            },
            if inter_frame::quad_at(plan, b, mi.0, mi.1) is Whole64 {
                0
            } else {
                3
            },
        ),
        x,
        y,
    );
}

/// A superblock reads back.
#[verifier::rlimit(60)]
proof fn lemma_sb_told(
    plan: FramePlan,
    motion: Seq<MotionContext>,
    s: TileView,
    t: TileView,
    a: Seq<Quadrant>,
    b: Seq<Quadrant>,
    mi: (int, int),
    x: Seq<Op>,
    y: Seq<Op>,
)
    requires
        tile_read_back::look_alike(s, t),
        tile_read_back::is_ready(plan, s.bands),
        tile_read_back::is_square_at(plan, mi, 16),
        inter_frame::inter_sb(plan, motion, s, a, mi.0, mi.1).fault is None,
        inter_frame::inter_sb(plan, motion, t, b, mi.0, mi.1).fault is None,
        are_visits_told(plan, motion, sb_visits(plan, motion, s, a, mi)),
        are_visits_told(plan, motion, sb_visits(plan, motion, t, b, mi)),
        read_back::coded(inter_frame::inter_sb(plan, motion, s, a, mi.0, mi.1).tile.ops) + x
            == read_back::coded(inter_frame::inter_sb(plan, motion, t, b, mi.0, mi.1).tile.ops) + y,
    ensures
        same_visits(
            plan,
            motion,
            sb_visits(plan, motion, s, a, mi),
            sb_visits(plan, motion, t, b, mi),
        ),
        x == y,
        tile_read_back::look_alike(
            inter_frame::inter_sb(plan, motion, s, a, mi.0, mi.1).tile,
            inter_frame::inter_sb(plan, motion, t, b, mi.0, mi.1).tile,
        ),
{
    let cols = key_frame::has_cols(plan, mi.1, 16);
    let rows = key_frame::has_rows(plan, mi.0, 16);
    let table = Cdf::PartitionW64(
        neighbours::spec_partition_ctx(s.bands, mi.0, mi.1, 64) as usize,
    );
    let own = plans::split_ops(table, cols, rows);
    if cols && rows {
        lemma_sb_kind(plan, motion, s, t, a, b, mi, x, y);
    }
    reveal(inter_frame::inter_sb);
    tile_read_back::lemma_said_alike(s, t, own);
    match (
        inter_frame::quad_at(plan, a, mi.0, mi.1),
        inter_frame::quad_at(plan, b, mi.0, mi.1),
    ) {
        (Quadrant::Whole64(u), Quadrant::Whole64(v)) => {
            assert(is_visit_told(plan, motion, sb_visits(plan, motion, s, a, mi)[0]));
            assert(is_visit_told(plan, motion, sb_visits(plan, motion, t, b, mi)[0]));
            lemma_whole_told(plan, motion, s, t, u, v, mi, 64, table, x, y);
        },
        (Quadrant::Whole64(_), _) => {},
        (_, Quadrant::Whole64(_)) => {},
        _ => {
            lemma_quads_told(
                plan,
                motion,
                state::said(s, own),
                state::said(t, own),
                a,
                b,
                mi,
                4,
                x,
                y,
            );
        },
    }
}

/// The superblocks of a tile add to it, and leave it ready.
proof fn lemma_sbs_add(
    plan: FramePlan,
    motion: Seq<MotionContext>,
    t: TileView,
    quads: Seq<Quadrant>,
    order: Seq<SbStep>,
    count: int,
)
    requires
        0 <= count <= order.len(),
        tile_read_back::is_order(plan, order),
        tile_read_back::is_ready(plan, t.bands),
        inter_frame::inter_sbs(plan, motion, t, quads, order, count).fault is None,
        are_visits_told(plan, motion, sbs_visits(plan, motion, t, quads, order, count)),
    ensures
        tile_read_back::is_ready(
            plan,
            inter_frame::inter_sbs(plan, motion, t, quads, order, count).tile.bands,
        ),
        count > 0 ==> {
            let before = inter_frame::inter_sbs(plan, motion, t, quads, order, count - 1);
            &&& before.fault is None
            &&& tile_read_back::is_ready(plan, before.tile.bands)
            &&& before.tile.ops.is_prefix_of(
                inter_frame::inter_sbs(plan, motion, t, quads, order, count).tile.ops,
            )
        },
    decreases count,
{
    if count > 0 {
        let before = inter_frame::inter_sbs(plan, motion, t, quads, order, count - 1).tile;
        let step = order[count - 1];
        let start = key_frame::sb_start(plan, before, step);
        let at = (16 * step.0, 16 * step.1);
        lemma_told_parts(
            plan,
            motion,
            sbs_visits(plan, motion, t, quads, order, count - 1),
            sb_visits(plan, motion, start, quads, at),
        );
        lemma_sbs_add(plan, motion, t, quads, order, count - 1);
        tile_read_back::lemma_start(plan, before, before, step);
        lemma_sb_adds(plan, motion, start, quads, at);
        tile_read_back::lemma_prefix_trans(
            before.ops,
            start.ops,
            inter_frame::inter_sb(plan, motion, start, quads, at.0, at.1).tile.ops,
        );
    }
}

/// The superblocks of a tile read back.
#[verifier::rlimit(60)]
proof fn lemma_sbs_told(
    plan: FramePlan,
    motion: Seq<MotionContext>,
    t: TileView,
    a: Seq<Quadrant>,
    b: Seq<Quadrant>,
    order: Seq<SbStep>,
    count: int,
    x: Seq<Op>,
    y: Seq<Op>,
)
    requires
        0 <= count <= order.len(),
        tile_read_back::is_order(plan, order),
        tile_read_back::is_ready(plan, t.bands),
        inter_frame::inter_sbs(plan, motion, t, a, order, count).fault is None,
        inter_frame::inter_sbs(plan, motion, t, b, order, count).fault is None,
        are_visits_told(plan, motion, sbs_visits(plan, motion, t, a, order, count)),
        are_visits_told(plan, motion, sbs_visits(plan, motion, t, b, order, count)),
        read_back::coded(inter_frame::inter_sbs(plan, motion, t, a, order, count).tile.ops) + x
            == read_back::coded(
            inter_frame::inter_sbs(plan, motion, t, b, order, count).tile.ops,
        ) + y,
    ensures
        same_visits(
            plan,
            motion,
            sbs_visits(plan, motion, t, a, order, count),
            sbs_visits(plan, motion, t, b, order, count),
        ),
        x == y,
        tile_read_back::look_alike(
            inter_frame::inter_sbs(plan, motion, t, a, order, count).tile,
            inter_frame::inter_sbs(plan, motion, t, b, order, count).tile,
        ),
    decreases count,
{
    if count <= 0 {
        read_back::lemma_parts(read_back::coded(t.ops), x, read_back::coded(t.ops), y);
    } else {
        let ea = inter_frame::inter_sbs(plan, motion, t, a, order, count).tile;
        let eb = inter_frame::inter_sbs(plan, motion, t, b, order, count).tile;
        let ba = inter_frame::inter_sbs(plan, motion, t, a, order, count - 1).tile;
        let bb = inter_frame::inter_sbs(plan, motion, t, b, order, count - 1).tile;
        lemma_sbs_add(plan, motion, t, a, order, count);
        lemma_sbs_add(plan, motion, t, b, order, count);
        let step = order[count - 1];
        let at = (16 * step.0, 16 * step.1);
        let sa = sbs_visits(plan, motion, t, a, order, count - 1);
        let sb = sbs_visits(plan, motion, t, b, order, count - 1);
        let ta = key_frame::sb_start(plan, ba, step);
        let tb = key_frame::sb_start(plan, bb, step);
        let va = sb_visits(plan, motion, ta, a, at);
        let vb = sb_visits(plan, motion, tb, b, at);
        lemma_told_parts(plan, motion, sa, va);
        lemma_told_parts(plan, motion, sb, vb);
        let ra = tile_read_back::lemma_rest(ba.ops, ea.ops);
        let rb = tile_read_back::lemma_rest(bb.ops, eb.ops);
        tile_read_back::lemma_regrouped(ba, ea, ra, x);
        tile_read_back::lemma_regrouped(bb, eb, rb, y);
        lemma_sbs_told(plan, motion, t, a, b, order, count - 1, ra + x, rb + y);
        tile_read_back::lemma_start(plan, ba, bb, step);
        lemma_sb_told(plan, motion, ta, tb, a, b, at, x, y);
        lemma_same_sum(plan, motion, sa, va, sb, vb);
    }
}

/// A tile of an inter frame reads back: of two that a decoder sees the same
/// symbols of, whatever follows them, the blocks are the same one by one, at the
/// same places, each skipped or not, with the same references, modes, vectors
/// and levels, and so is what the tiles leave behind.
pub proof fn inter_tiles_read_back(
    plan: FramePlan,
    motion: Seq<MotionContext>,
    a: Seq<Quadrant>,
    b: Seq<Quadrant>,
    rect: TileRect,
    x: Seq<Op>,
    y: Seq<Op>,
)
    requires
        inter_frame::inter_tile(plan, motion, a, rect).fault is None,
        inter_frame::inter_tile(plan, motion, b, rect).fault is None,
        are_visits_told(plan, motion, inter_visits(plan, motion, a, rect)),
        are_visits_told(plan, motion, inter_visits(plan, motion, b, rect)),
        read_back::coded(inter_frame::inter_tile(plan, motion, a, rect).tile.ops) + x
            == read_back::coded(inter_frame::inter_tile(plan, motion, b, rect).tile.ops) + y,
    ensures
        same_visits(
            plan,
            motion,
            inter_visits(plan, motion, a, rect),
            inter_visits(plan, motion, b, rect),
        ),
        x == y,
        tile_read_back::look_alike(
            inter_frame::inter_tile(plan, motion, a, rect).tile,
            inter_frame::inter_tile(plan, motion, b, rect).tile,
        ),
{
    reveal(inter_frame::inter_tile);
    let order = key_frame::tile_order(plan, rect);
    let t = key_frame::blank_tile(plan, rect);
    tile_read_back::lemma_blank(plan, rect);
    tile_read_back::lemma_order(plan, rect);
    lemma_sbs_told(plan, motion, t, a, b, order, order.len() as int, x, y);
}

} // verus!
