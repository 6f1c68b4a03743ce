//! What the read-back of whole tiles is made of: tiles that look the same to a
//! decoder, and what follows a part of one.
use crate::tile::key_block;
use crate::tile::key_frame;
use crate::tile::layout;
use crate::tile::layout::SbStep;
use crate::tile::neighbours;
use crate::tile::ops;
use crate::tile::ops::{Cdf, Op};
use crate::tile::palette_bands;
use crate::tile::plans;
use crate::tile::plans::FramePlan;
use crate::tile::read_back;
use crate::tile::state;
use crate::tile::state::TileView;
use crate::tile::tiles::TileRect;
use vstd::prelude::*;

verus! {

/// Whether bands are those of a frame, and the palettes in them ascend.
pub open spec fn is_ready(plan: FramePlan, b: neighbours::Bands) -> bool {
    key_frame::fits(plan, b) && palette_bands::are_ordered(b)
}

/// Whether two tiles look the same to a decoder.
pub open spec fn look_alike(s: TileView, t: TileView) -> bool {
    state::same_state(s, t) && read_back::coded(s.ops) == read_back::coded(t.ops)
}

/// What a decoder sees of a tile grows by what it sees of the new symbols.
pub proof fn lemma_seen(s: TileView, own: Seq<Op>)
    ensures
        read_back::coded(state::said(s, own).ops) == read_back::coded(s.ops) + read_back::coded(
            own,
        ),
{
    read_back::marks_are_not_coded(s.ops, own);
}

/// Tiles that look alike still do after the same symbols.
pub proof fn lemma_said_alike(s: TileView, t: TileView, own: Seq<Op>)
    requires
        look_alike(s, t),
    ensures
        look_alike(state::said(s, own), state::said(t, own)),
{
    lemma_seen(s, own);
    lemma_seen(t, own);
}

/// Tiles that look alike still do after one more symbol.
pub proof fn lemma_pushed_alike(s: TileView, t: TileView, op: Op)
    requires
        look_alike(s, t),
    ensures
        look_alike(
            TileView { ops: s.ops.push(op), ..s },
            TileView { ops: t.ops.push(op), ..t },
        ),
{
    lemma_said_alike(s, t, seq![op]);
    assert(s.ops + seq![op] =~= s.ops.push(op));
    assert(t.ops + seq![op] =~= t.ops.push(op));
}

/// What a decoder sees of a sequence starts with what it sees of its start.
pub proof fn lemma_rest(p: Seq<Op>, q: Seq<Op>) -> (rest: Seq<Op>)
    requires
        p.is_prefix_of(q),
    ensures
        read_back::coded(q) == read_back::coded(p) + rest,
{
    let own = q.subrange(p.len() as int, q.len() as int);
    assert(q =~= p + own);
    read_back::marks_are_not_coded(p, own);
    read_back::coded(own)
}

/// A start of a start is a start.
pub proof fn lemma_prefix_trans(p: Seq<Op>, q: Seq<Op>, r: Seq<Op>)
    requires
        p.is_prefix_of(q),
        q.is_prefix_of(r),
    ensures
        p.is_prefix_of(r),
{
    assert forall|i: int| 0 <= i < p.len() implies p[i] == r[i] by {
        assert(p[i] == q.subrange(0, p.len() as int)[i]);
        assert(q[i] == r.subrange(0, q.len() as int)[i]);
    }
    assert(p =~= r.subrange(0, p.len() as int));
}

/// A sequence is a start of what it grows into.
pub proof fn lemma_prefix_of_sum(p: Seq<Op>, own: Seq<Op>)
    ensures
        p.is_prefix_of(p + own),
{
    assert((p + own).subrange(0, p.len() as int) =~= p);
}

/// Whether a block starts in the frame, and lies in bands that are ready for it.
pub open spec fn is_block_at(
    plan: FramePlan,
    b: neighbours::Bands,
    mi: (int, int),
    side: int,
) -> bool {
    &&& is_ready(plan, b)
    &&& key_block::is_place(plan, b, mi.0, mi.1, side)
    &&& mi.0 < plan.mi_rows
    &&& mi.1 < plan.mi_cols
}

/// What follows a part of a tile, and what follows that.
pub proof fn lemma_regrouped(before: TileView, after: TileView, rest: Seq<Op>, x: Seq<Op>)
    requires
        read_back::coded(after.ops) == read_back::coded(before.ops) + rest,
    ensures
        read_back::coded(after.ops) + x == read_back::coded(before.ops) + (rest + x),
{
    assert((read_back::coded(before.ops) + rest) + x =~= read_back::coded(before.ops) + (rest
        + x));
}

/// Whether a square of `units` units starts in the frame, at a multiple of its
/// side.
pub open spec fn is_square_at(plan: FramePlan, mi: (int, int), units: int) -> bool {
    &&& 0 <= mi.0 < plan.mi_rows
    &&& 0 <= mi.1 < plan.mi_cols
    &&& mi.0 % units == 0
    &&& mi.1 % units == 0
}

/// The symbol after the start of a tile tells a whole block from a split one.
pub proof fn lemma_partition_told(
    s: TileView,
    t: TileView,
    ends: (Seq<Op>, Seq<Op>),
    table: Cdf,
    values: (int, int),
    x: Seq<Op>,
    y: Seq<Op>,
)
    requires
        look_alike(s, t),
        0 <= values.0 <= 3,
        0 <= values.1 <= 3,
        s.ops.push(ops::symbol(values.0, table)).is_prefix_of(ends.0),
        t.ops.push(ops::symbol(values.1, table)).is_prefix_of(ends.1),
        read_back::coded(ends.0) + x == read_back::coded(ends.1) + y,
    ensures
        values.0 == values.1,
{
    let n = read_back::coded(s.ops).len() as int;
    let p = s.ops.push(ops::symbol(values.0, table));
    let q = t.ops.push(ops::symbol(values.1, table));
    let ra = lemma_rest(p, ends.0);
    let rb = lemma_rest(q, ends.1);
    assert(p.drop_last() =~= s.ops);
    assert(q.drop_last() =~= t.ops);
    assert((read_back::coded(ends.0) + x)[n] == ops::symbol(values.0, table));
    assert((read_back::coded(ends.1) + y)[n] == ops::symbol(values.1, table));
}

/// What comes before a superblock's partition adds to a tile, keeps its frame,
/// and does the same to tiles that look alike.
pub proof fn lemma_start(plan: FramePlan, s: TileView, t: TileView, step: SbStep)
    requires
        look_alike(s, t),
        is_ready(plan, s.bands),
    ensures
        s.ops.is_prefix_of(key_frame::sb_start(plan, s, step).ops),
        is_ready(plan, key_frame::sb_start(plan, s, step).bands),
        look_alike(
            key_frame::sb_start(plan, s, step),
            key_frame::sb_start(plan, t, step),
        ),
{
    reveal(key_frame::sb_start);
    let cs = if step.2 {
        state::banded(s, neighbours::row_started(s.bands))
    } else {
        s
    };
    let ct = if step.2 {
        state::banded(t, neighbours::row_started(t.bands))
    } else {
        t
    };
    assert(look_alike(cs, ct));
    palette_bands::lemma_row_started(s.bands);
    let r = step.0 as int;
    let c = step.1 as int;
    let own = if plan.sb128 {
        if step.3 {
            plans::root_ops(plan, cs.bands, r, c)
        } else {
            Seq::empty()
        }
    } else {
        plans::lr_ops(plan.lr, 16 * r, 16 * c, 16)
    };
    lemma_said_alike(cs, ct, own);
    lemma_prefix_of_sum(s.ops, own);
    assert(s.ops + Seq::<Op>::empty() =~= s.ops);
    assert(t.ops + Seq::<Op>::empty() =~= t.ops);
}

/// Whether every superblock of an order starts in the frame.
pub open spec fn is_order(plan: FramePlan, order: Seq<SbStep>) -> bool {
    forall|k: int|
        0 <= k < order.len() ==> {
            let s = #[trigger] order[k];
            16 * s.0 < plan.mi_rows && 16 * s.1 < plan.mi_cols
        }
}

/// A tile that nothing is written of yet is ready.
pub proof fn lemma_blank(plan: FramePlan, rect: TileRect)
    ensures
        is_ready(plan, key_frame::blank_tile(plan, rect).bands),
{
    palette_bands::lemma_fresh(
        2 * layout::ceil_div(plan.mi_cols as int, 8),
        2 * layout::ceil_div(plan.mi_rows as int, 8),
        plan.mi_cols as int,
        plan.mi_rows as int,
        rect.mi_row0 as int,
        rect.mi_col0 as int,
    );
}

/// The superblocks of a tile start in its frame.
pub proof fn lemma_order(plan: FramePlan, rect: TileRect)
    ensures
        is_order(plan, key_frame::tile_order(plan, rect)),
{
    layout::every_written_cell_is_inside(
        rect.sb_row0 as int,
        key_frame::end_of(
            rect.sb_row1 as int,
            layout::superblocks(plan.mi_rows as int),
        ),
        rect.sb_col0 as int,
        key_frame::end_of(
            rect.sb_col1 as int,
            layout::superblocks(plan.mi_cols as int),
        ),
        plan.sb128,
    );
}

} // verus!
