//! What a whole block's symbols start with, and what it leaves behind.
use crate::tile::blocks::BlockCoeffs;
use crate::tile::inter_block;
use crate::tile::intra;
use crate::tile::intra::INTRA_MODE_CTX;
use crate::tile::key_block;
use crate::tile::motion;
use crate::tile::motion::MotionContext;
use crate::tile::neighbour_laws;
use crate::tile::neighbours;
use crate::tile::neighbours::{Bands, Cell};
use crate::tile::ops;
use crate::tile::ops::{Cdf, Op};
use crate::tile::plans::FramePlan;
use crate::tile::residual;
use crate::tile::residual::{LumaUnits, Written};
use crate::tile::state::TileView;
use crate::tile::syntax_laws;
use vstd::prelude::*;

verus! {

/// Whether a sequence goes on from another.
pub open spec fn goes_on(a: Seq<Op>, b: Seq<Op>) -> bool {
    &&& a.len() <= b.len()
    &&& forall|i: int| 0 <= i < a.len() ==> #[trigger] b[i] == a[i]
}

/// Whether a unit says the same of how its block is coded: its side, its skip flag
/// and how it is predicted.
pub open spec fn same_kind(c: Cell, d: Cell) -> bool {
    &&& c.side == d.side
    &&& c.skip == d.skip
    &&& c.inter == d.inter
    &&& c.ref0 == d.ref0
    &&& c.ref1 == d.ref1
}

/// Whether every unit of two pairs of bands does.
pub open spec fn same_kinds(a: Bands, b: Bands) -> bool {
    &&& a.above.len() == b.above.len()
    &&& a.left.len() == b.left.len()
    &&& forall|i: int| 0 <= i < a.above.len() ==> same_kind(a.above[i], #[trigger] b.above[i])
    &&& forall|i: int| 0 <= i < a.left.len() ==> same_kind(a.left[i], #[trigger] b.left[i])
}

proof fn lemma_row(plan: FramePlan, w: Written, l: LumaUnits, r: int, count: int)
    ensures
        goes_on(w.ops, residual::unit_row_written(plan, w, l, r, count).ops),
        same_kinds(w.bands, residual::unit_row_written(plan, w, l, r, count).bands),
    decreases count,
{
    if count > 0 {
        lemma_row(plan, w, l, r, count - 1);
        let before = residual::unit_row_written(plan, w, l, r, count - 1);
        let after = residual::unit_written(plan, before, l, r, count - 1);
        assert(goes_on(before.ops, after.ops));
        assert(same_kinds(before.bands, after.bands));
    }
}

proof fn lemma_rows(plan: FramePlan, w: Written, l: LumaUnits, count: int)
    ensures
        goes_on(w.ops, residual::unit_rows_written(plan, w, l, count).ops),
        same_kinds(w.bands, residual::unit_rows_written(plan, w, l, count).bands),
    decreases count,
{
    if count > 0 {
        lemma_rows(plan, w, l, count - 1);
        let before = residual::unit_rows_written(plan, w, l, count - 1);
        lemma_row(plan, before, l, count - 1, l.side / l.tx);
    }
}

proof fn lemma_luma(plan: FramePlan, w: Written, l: LumaUnits)
    ensures
        goes_on(w.ops, residual::luma_written(plan, w, l).ops),
        same_kinds(w.bands, residual::luma_written(plan, w, l).bands),
{
    reveal(residual::luma_written);
    lemma_rows(plan, w, l, l.side / l.tx);
}

proof fn lemma_syntax(
    plan: FramePlan,
    t: TileView,
    block: BlockCoeffs,
    mi_r: int,
    mi_c: int,
    side: int,
)
    ensures
        goes_on(t.ops, inter_block::syntax(plan, t, block, mi_r, mi_c, side).w.ops),
        same_kinds(t.bands, inter_block::syntax(plan, t, block, mi_r, mi_c, side).w.bands),
{
    reveal(residual::tx_inter_written);
}

/// What a block of an inter frame left in a unit of its own.
pub open spec fn tells_of(c: Cell, block: BlockCoeffs, side: int) -> bool {
    &&& c.side == side
    &&& c.skip == block.skip
    &&& c.inter <==> block.inter is Some
    &&& block.inter is None ==> c.ref0 == -1 && c.ref1 is None
    &&& block.inter matches Some(info) ==> c.ref0 == info.ref_frame && c.ref1 == info.ref1
}

proof fn lemma_left(
    plan: FramePlan,
    b: Bands,
    block: BlockCoeffs,
    mi_r: int,
    mi_c: int,
    side: int,
    states: neighbours::PlaneStates,
    luma: bool,
)
    requires
        side == 8 || side == 16 || side == 32 || side == 64,
    ensures
        ({
            let done = inter_block::left_behind(plan, b, block, mi_r, mi_c, side, states, luma);
            &&& done.above.len() == b.above.len() && done.left.len() == b.left.len()
            &&& forall|i: int|
                0 <= i < b.above.len() ==> if neighbour_laws::is_own(i, mi_c, side) {
                    tells_of(#[trigger] done.above[i], block, side)
                } else {
                    same_kind(b.above[i], done.above[i])
                }
            &&& forall|i: int|
                0 <= i < b.left.len() ==> if neighbour_laws::is_own(i, mi_r, side) {
                    tells_of(#[trigger] done.left[i], block, side)
                } else {
                    same_kind(b.left[i], done.left[i])
                }
        }),
{
    let moded = neighbours::after_mode(
        b,
        mi_r / 4,
        mi_c / 4,
        side / 16,
        inter_block::row_of(block),
    );
    let planes = neighbours::after_planes(moded, mi_r, mi_c, side, states, luma, plan.screen);
    lemma_planes(moded, mi_r, mi_c, side, states, luma, plan.screen);
}

proof fn lemma_planes(
    b: Bands,
    mi_r: int,
    mi_c: int,
    side: int,
    states: neighbours::PlaneStates,
    luma: bool,
    screen: bool,
)
    requires
        side == 8 || side == 16 || side == 32 || side == 64,
    ensures
        ({
            let done = neighbours::after_planes(b, mi_r, mi_c, side, states, luma, screen);
            &&& done.above.len() == b.above.len() && done.left.len() == b.left.len()
            &&& forall|i: int|
                0 <= i < b.above.len() ==> {
                    let c = #[trigger] done.above[i];
                    &&& neighbour_laws::is_own(i, mi_c, side) ==> same_kind(
                        Cell { side: side as usize, ..b.above[i] },
                        c,
                    )
                    &&& !neighbour_laws::is_own(i, mi_c, side) ==> same_kind(b.above[i], c)
                }
            &&& forall|i: int|
                0 <= i < b.left.len() ==> {
                    let c = #[trigger] done.left[i];
                    &&& neighbour_laws::is_own(i, mi_r, side) ==> same_kind(
                        Cell { side: side as usize, ..b.left[i] },
                        c,
                    )
                    &&& !neighbour_laws::is_own(i, mi_r, side) ==> same_kind(b.left[i], c)
                }
        }),
{
    let p = if screen {
        neighbours::after_palettes(b, mi_r, mi_c, side / 4)
    } else {
        b
    };
    assert(same_kinds(b, p));
}

proof fn lemma_residual(
    plan: FramePlan,
    t: TileView,
    block: BlockCoeffs,
    mi_r: int,
    mi_c: int,
    side: int,
)
    requires
        side == 8 || side == 16 || side == 32 || side == 64,
        inter_block::inter_residual(plan, t, block, mi_r, mi_c, side).fault is None,
    ensures
        ({
            let done = inter_block::inter_residual(plan, t, block, mi_r, mi_c, side).tile;
            let b = t.bands;
            &&& goes_on(t.ops, done.ops)
            &&& done.bands.above.len() == b.above.len() && done.bands.left.len() == b.left.len()
            &&& forall|i: int|
                0 <= i < b.above.len() ==> if neighbour_laws::is_own(i, mi_c, side) {
                    tells_of(#[trigger] done.bands.above[i], block, side)
                } else {
                    same_kind(b.above[i], done.bands.above[i])
                }
            &&& forall|i: int|
                0 <= i < b.left.len() ==> if neighbour_laws::is_own(i, mi_r, side) {
                    tells_of(#[trigger] done.bands.left[i], block, side)
                } else {
                    same_kind(b.left[i], done.bands.left[i])
                }
        }),
{
    reveal(inter_block::inter_residual);
    lemma_syntax(plan, t, block, mi_r, mi_c, side);
    let tw = inter_block::syntax(plan, t, block, mi_r, mi_c, side);
    if block.skip {
        lemma_left(plan, tw.w.bands, block, mi_r, mi_c, side, inter_block::quiet(), true);
    } else {
        reveal(inter_block::inter_planes);
        let split = inter_block::is_split(block, side, tw.tx);
        let (y, u, v) = key_block::block_levels(
            block,
            inter_block::levels_side(side, split),
            side / 2,
        )->Ok_0;
        let l = inter_block::inter_units(block, mi_r, mi_c, side, tw.tx, y);
        lemma_luma(plan, tw.w, l);
        let w = if split {
            residual::luma_written(plan, tw.w, l)
        } else {
            tw.w
        };
        lemma_left(
            plan,
            w.bands,
            block,
            mi_r,
            mi_c,
            side,
            neighbours::states_of(y, u, v),
            !split,
        );
    }
}

/// A block of an inter frame, however it is predicted, starts with its skip flag in the
/// table of how many of its two neighbours are skipped, and leaves its side, its skip
/// flag and its references in each of its own units, for the blocks below and to the
/// right of it to read; and no other unit says anything else than before.
pub proof fn inter_blocks_tell_what_they_are(
    plan: FramePlan,
    motion: Seq<MotionContext>,
    t: TileView,
    block: BlockCoeffs,
    mi_r: int,
    mi_c: int,
    side: int,
)
    requires
        side == 8 || side == 16 || side == 32 || side == 64,
        inter_block::inter_block(plan, motion, t, block, mi_r, mi_c, side).fault is None,
    ensures
        ({
            let done = inter_block::inter_block(plan, motion, t, block, mi_r, mi_c, side).tile;
            let (b, n) = (t.bands, t.ops.len() as int);
            &&& goes_on(t.ops, done.ops)
            &&& n < done.ops.len()
            &&& done.ops[n] == syntax_laws::told(
                block.skip,
                Cdf::Skip(syntax_laws::count2(b.above[mi_c].skip, b.left[mi_r].skip)),
            )
            &&& forall|i: int|
                0 <= i < b.above.len() ==> if neighbour_laws::is_own(i, mi_c, side) {
                    tells_of(#[trigger] done.bands.above[i], block, side)
                } else {
                    same_kind(b.above[i], done.bands.above[i])
                }
            &&& forall|i: int|
                0 <= i < b.left.len() ==> if neighbour_laws::is_own(i, mi_r, side) {
                    tells_of(#[trigger] done.bands.left[i], block, side)
                } else {
                    same_kind(b.left[i], done.bands.left[i])
                }
        }),
{
    reveal(inter_block::inter_block);
    syntax_laws::inter_flags_count_their_neighbours(plan, t, block, mi_r, mi_c, side);
    let flagged = inter_block::head(plan, t, block, mi_r, mi_c, side);
    assert(flagged.bands == t.bands) by {
        reveal(inter_block::head);
    }
    assert(flagged.ops.len() > t.ops.len()) by {
        reveal(inter_block::head);
    }
    assert(goes_on(t.ops, flagged.ops)) by {
        assert forall|i: int| 0 <= i < t.ops.len() implies #[trigger] flagged.ops[i] == t.ops[i] by {
            assert(flagged.ops.take(t.ops.len() as int)[i] == t.ops[i]);
        }
    }
    match block.inter {
        None => {
            let p = inter_block::intra_predicted(plan, flagged, block, mi_r, mi_c, side);
            reveal(inter_block::intra_predicted);
            assert(goes_on(flagged.ops, p.ops));
            assert(p.bands.above == t.bands.above && p.bands.left == t.bands.left);
            lemma_residual(plan, p, block, mi_r, mi_c, side);
        },
        Some(info) => {
            let p = inter_block::predicted(
                plan,
                motion,
                flagged,
                info,
                block.motion_mode,
                mi_r,
                mi_c,
                side,
            );
            reveal(inter_block::predicted);
            reveal(inter_block::single);
            reveal(inter_block::paired);
            assert(goes_on(flagged.ops, p.tile.ops));
            assert(p.tile.bands == t.bands);
            lemma_residual(plan, p.tile, block, mi_r, mi_c, side);
        },
    }
}

/// The block to the right of one, or below it, reads its skip flag: of two blocks
/// written one after the other without a fault, the second one's skip flag is coded by
/// the first one's where it lies along the first one's right or lower side, together
/// with the neighbour on its other side.
pub proof fn the_next_block_reads_the_skip_flag(
    plan: FramePlan,
    motion: Seq<MotionContext>,
    t: TileView,
    first: BlockCoeffs,
    second: BlockCoeffs,
    at: (int, int),
    next: (int, int),
    sides: (int, int),
)
    requires
        sides.0 == 8 || sides.0 == 16 || sides.0 == 32 || sides.0 == 64,
        sides.1 == 8 || sides.1 == 16 || sides.1 == 32 || sides.1 == 64,
        inter_block::inter_block(plan, motion, t, first, at.0, at.1, sides.0).fault is None,
        inter_block::inter_block(
            plan,
            motion,
            inter_block::inter_block(plan, motion, t, first, at.0, at.1, sides.0).tile,
            second,
            next.0,
            next.1,
            sides.1,
        ).fault is None,
        0 <= next.0 < t.bands.left.len(),
        0 <= next.1 < t.bands.above.len(),
    ensures
        ({
            let one = inter_block::inter_block(plan, motion, t, first, at.0, at.1, sides.0).tile;
            let two = inter_block::inter_block(
                plan,
                motion,
                one,
                second,
                next.0,
                next.1,
                sides.1,
            ).tile;
            let (above, left) = (t.bands.above[next.1].skip, t.bands.left[next.0].skip);
            let beside = at.0 <= next.0 && 4 * next.0 < 4 * at.0 + sides.0;
            let below = at.1 <= next.1 && 4 * next.1 < 4 * at.1 + sides.0;
            let flag = two.ops[one.ops.len() as int];
            &&& beside && !below ==> flag == syntax_laws::told(
                second.skip,
                Cdf::Skip(syntax_laws::count2(above, first.skip)),
            )
            &&& below && !beside ==> flag == syntax_laws::told(
                second.skip,
                Cdf::Skip(syntax_laws::count2(first.skip, left)),
            )
            &&& !beside && !below ==> flag == syntax_laws::told(
                second.skip,
                Cdf::Skip(syntax_laws::count2(above, left)),
            )
        }),
{
    inter_blocks_tell_what_they_are(plan, motion, t, first, at.0, at.1, sides.0);
    let one = inter_block::inter_block(plan, motion, t, first, at.0, at.1, sides.0).tile;
    inter_blocks_tell_what_they_are(plan, motion, one, second, next.0, next.1, sides.1);
    assert(one.bands.above[next.1].skip == if neighbour_laws::is_own(next.1, at.1, sides.0) {
        first.skip
    } else {
        t.bands.above[next.1].skip
    });
    assert(one.bands.left[next.0].skip == if neighbour_laws::is_own(next.0, at.0, sides.0) {
        first.skip
    } else {
        t.bands.left[next.0].skip
    });
}

/// A block of a key frame that is not copied, in a frame without indices or copies,
/// starts with a skip flag that is off, in the table of how many of its neighbours are
/// skipped, then its luma mode in the table of the classes of the modes above and to
/// the left. It leaves its side in each of its own units, and its mode in the 16x16
/// blocks it covers.
pub proof fn key_blocks_tell_what_they_are(
    plan: FramePlan,
    motion: Seq<MotionContext>,
    t: TileView,
    block: BlockCoeffs,
    mi_r: int,
    mi_c: int,
    side: int,
    modes: (int, int),
)
    requires
        side == 8 || side == 16 || side == 32 || side == 64,
        block.dv is None,
        plan.cdef is None,
        !plan.intrabc,
        key_block::key_block(
            plan,
            motion,
            t,
            block,
            mi_r,
            mi_c,
            side,
            modes.0,
            modes.1,
        ).fault is None,
    ensures
        ({
            let done = key_block::key_block(
                plan,
                motion,
                t,
                block,
                mi_r,
                mi_c,
                side,
                modes.0,
                modes.1,
            ).tile;
            let (b, n) = (t.bands, t.ops.len() as int);
            &&& goes_on(t.ops, done.ops)
            &&& n + 1 < done.ops.len()
            &&& done.ops[n] == syntax_laws::told(
                false,
                Cdf::Skip(syntax_laws::count2(b.above[mi_c].skip, b.left[mi_r].skip)),
            )
            &&& done.ops[n + 1] == ops::symbol(
                block.mode as int,
                Cdf::KfYMode(INTRA_MODE_CTX[modes.0], INTRA_MODE_CTX[modes.1]),
            )
            &&& forall|i: int|
                0 <= i < b.above.len() ==> if neighbour_laws::is_own(i, mi_c, side) {
                    (#[trigger] done.bands.above[i]).side == side
                } else {
                    same_kind(b.above[i], done.bands.above[i])
                }
            &&& forall|i: int|
                0 <= i < b.left.len() ==> if neighbour_laws::is_own(i, mi_r, side) {
                    (#[trigger] done.bands.left[i]).side == side
                } else {
                    same_kind(b.left[i], done.bands.left[i])
                }
            &&& forall|i: int|
                0 <= i < b.above_mode.len() ==> #[trigger] done.bands.above_mode[i] == if mi_c / 4
                    <= i < mi_c / 4 + side / 16 {
                    block.mode as usize
                } else {
                    b.above_mode[i]
                }
            &&& forall|i: int|
                0 <= i < b.left_mode.len() ==> #[trigger] done.bands.left_mode[i] == if mi_r / 4
                    <= i < mi_r / 4 + side / 16 {
                    block.mode as usize
                } else {
                    b.left_mode[i]
                }
        }),
{
    reveal(key_block::key_block);
    reveal(key_block::key_residual);
    reveal(residual::select_written);
    syntax_laws::key_flags_count_their_neighbours(
        plan,
        t,
        block,
        mi_r,
        mi_c,
        side,
        modes.0,
        modes.1,
    );
    let k = key_block::key_modes(plan, t, block, mi_r, mi_c, side, modes.0, modes.1);
    let n = t.ops.len() as int;
    assert(k.ops.len() >= n + 2 && k.bands.above == t.bands.above && k.bands.left == t.bands.left
        && k.bands.above_mode == t.bands.above_mode && k.bands.left_mode == t.bands.left_mode)
        by {
        reveal(key_block::key_modes);
    }
    assert(goes_on(t.ops, k.ops)) by {
        assert forall|i: int| 0 <= i < n implies #[trigger] k.ops[i] == t.ops[i] by {
            assert(k.ops.take(n)[i] == t.ops[i]);
        }
    }
    let (y, u, v) = key_block::block_levels(block, key_block::luma_side(side), side / 2)->Ok_0;
    let row = intra::spec_tx_row(block.mode as int, block.filter_intra) as usize;
    let depth = block.tx_depth as int;
    let l = key_block::key_units(block, mi_r, mi_c, side, row, y);
    let w0 = Written { ops: k.ops, bands: k.bands };
    let said = Written {
        ops: w0.ops.push(
            ops::symbol(
                depth,
                Cdf::TxSize(
                    residual::tx_category(l.side) as usize,
                    neighbours::spec_tx_size_ctx(w0.bands, l.mi_r, l.mi_c, l.side) as usize,
                ),
            ),
        ),
        ..w0
    };
    lemma_luma(plan, said, l);
    lemma_luma_modes(plan, said, l);
    let w = if plan.tx_select {
        residual::select_written(plan, w0, l, depth)
    } else {
        w0
    };
    assert(same_kinds(t.bands, w.bands));
    assert(goes_on(k.ops, w.ops));
    let moded = neighbours::after_mode(
        w.bands,
        mi_r / 4,
        mi_c / 4,
        side / 16,
        block.mode as usize,
    );
    let whole = !(plan.tx_select && residual::halved(side, depth) < side);
    lemma_planes(moded, mi_r, mi_c, side, neighbours::states_of(y, u, v), whole, plan.screen);
}

proof fn lemma_row_modes(plan: FramePlan, w: Written, l: LumaUnits, r: int, count: int)
    ensures
        residual::unit_row_written(plan, w, l, r, count).bands.above_mode == w.bands.above_mode,
        residual::unit_row_written(plan, w, l, r, count).bands.left_mode == w.bands.left_mode,
    decreases count,
{
    if count > 0 {
        lemma_row_modes(plan, w, l, r, count - 1);
    }
}

proof fn lemma_rows_modes(plan: FramePlan, w: Written, l: LumaUnits, count: int)
    ensures
        residual::unit_rows_written(plan, w, l, count).bands.above_mode == w.bands.above_mode,
        residual::unit_rows_written(plan, w, l, count).bands.left_mode == w.bands.left_mode,
    decreases count,
{
    if count > 0 {
        lemma_rows_modes(plan, w, l, count - 1);
        lemma_row_modes(
            plan,
            residual::unit_rows_written(plan, w, l, count - 1),
            l,
            count - 1,
            l.side / l.tx,
        );
    }
}

proof fn lemma_luma_modes(plan: FramePlan, w: Written, l: LumaUnits)
    ensures
        residual::luma_written(plan, w, l).bands.above_mode == w.bands.above_mode,
        residual::luma_written(plan, w, l).bands.left_mode == w.bands.left_mode,
{
    reveal(residual::luma_written);
    lemma_rows_modes(plan, w, l, l.side / l.tx);
}

/// A block of an inter frame that is written without a fault is recorded once: where it
/// lies, how large it is, and how it is predicted. One predicted from another frame asks for
/// the next candidates, and what it records is what they and its mode come to; an intra one
/// asks for none.
pub proof fn inter_blocks_are_recorded_once(
    plan: FramePlan,
    motion: Seq<MotionContext>,
    t: TileView,
    block: BlockCoeffs,
    mi_r: int,
    mi_c: int,
    side: int,
)
    requires
        side == 8 || side == 16 || side == 32 || side == 64,
        0 <= mi_r <= 0xffff_ffff,
        0 <= mi_c <= 0xffff_ffff,
        inter_block::inter_block(plan, motion, t, block, mi_r, mi_c, side).fault is None,
    ensures
        ({
            let done = inter_block::inter_block(plan, motion, t, block, mi_r, mi_c, side).tile;
            let r = done.records.last();
            &&& done.records == t.records.push(r)
            &&& r.mi_row == mi_r && r.mi_col == mi_c && 4 * r.size == side
            &&& r.is_inter <==> block.inter is Some
            &&& block.inter is None ==> r.ref_frame == -1 && !r.is_new_mv && done.asked == t.asked
            &&& block.inter matches Some(info) ==> {
                let m = motion[t.asked];
                &&& t.asked < motion.len()
                &&& done.asked == t.asked + 1
                &&& r.ref_frame == info.ref_frame && r.ref_frame1 == info.ref1
                &&& info.ref1 is None ==> r.mv == motion::inter_mode(info, m.single).mv
                    && r.is_new_mv == motion::inter_mode(info, m.single).is_new
                &&& info.ref1 is Some ==> (r.mv, r.mv1) == motion::pair_of(info, m.compound).mvs
                    && r.is_new_mv == motion::is_new_pair(info.mode)
            }
        }),
{
    reveal(inter_block::inter_block);
    reveal(inter_block::inter_residual);
    reveal(inter_block::inter_planes);
    let flagged = inter_block::head(plan, t, block, mi_r, mi_c, side);
    assert(flagged.records == t.records && flagged.asked == t.asked) by {
        reveal(inter_block::head);
    }
    match block.inter {
        None => {
            reveal(inter_block::intra_predicted);
        },
        Some(info) => {
            reveal(inter_block::predicted);
            reveal(inter_block::single);
            reveal(inter_block::paired);
        },
    }
}

} // verus!
