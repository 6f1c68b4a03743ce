//! What a decoder reads back of a whole block of an inter frame.
use crate::tile::blocks;
use crate::tile::blocks::{BlockCoeffs, InterInfo};
use crate::tile::inter_block;
use crate::tile::intra;
use crate::tile::intra_read_back;
use crate::tile::key_block;
use crate::tile::motion;
use crate::tile::motion::MotionContext;
use crate::tile::motion_read_back;
use crate::tile::neighbours;
use crate::tile::neighbours::{Bands, INTRA_MODES};
use crate::tile::ops;
use crate::tile::ops::{Cdf, Note, Op};
use crate::tile::palette_bands;
use crate::tile::plans;
use crate::tile::plans::FramePlan;
use crate::tile::read_back;
use crate::tile::refs;
use crate::tile::refs_read_back;
use crate::tile::residual_read_back;
use crate::tile::state;
use crate::tile::state::TileView;
use crate::tile::units_read_back;
use vstd::prelude::*;

verus! {

/// The symbols of a block's skip flag and what is written of the superblock
/// with its first.
spec fn skip_ops(
    plan: FramePlan,
    t: TileView,
    skip: bool,
    mi: (int, int),
    side: int,
) -> Seq<Op> {
    seq![
        ops::symbol(
            ops::flag(skip),
            Cdf::Skip(neighbours::spec_skip_ctx(t.bands, mi.0, mi.1) as usize),
        ),
    ] + plans::cdef_ops(plan.cdef, t.cdef_last, mi.0, mi.1, skip) + plans::delta_q_ops(
        plan.delta_q,
        t.cur_q,
        mi.0,
        mi.1,
        side == 64,
        skip,
    )
}

/// The symbol of whether a block is inter.
spec fn inter_flag(t: TileView, inter: bool, mi: (int, int)) -> Seq<Op> {
    let ctx = inter_block::spec_intra_inter_ctx(
        mi.0 > t.bands.row0,
        mi.1 > t.bands.col0,
        t.bands.above[mi.1].inter,
        t.bands.left[mi.0].inter,
    );
    seq![ops::symbol(ops::flag(inter), Cdf::IntraInter(ctx as usize))]
}

proof fn lemma_head(
    plan: FramePlan,
    t: TileView,
    block: BlockCoeffs,
    mi: (int, int),
    side: int,
)
    ensures
        ({
            let first = skip_ops(plan, t, block.skip, mi, side);
            let second = inter_flag(t, block.inter is Some, mi);
            let all = inter_block::head(plan, t, block, mi.0, mi.1, side);
            &&& all.ops == t.ops + (first + second)
            &&& read_back::coded(first) == first
            &&& read_back::coded(second) == second
            &&& all.bands == t.bands
            &&& all.records == t.records
            &&& all.asked == t.asked
        }),
{
    reveal(inter_block::head);
    let first = skip_ops(plan, t, block.skip, mi, side);
    let second = inter_flag(t, block.inter is Some, mi);
    assert(inter_block::head(plan, t, block, mi.0, mi.1, side).ops =~= t.ops + (first + second));
    read_back::lemma_unmarked(first);
    read_back::lemma_unmarked(second);
}

/// A block's flags read back, and with them what is written of its superblock.
proof fn lemma_head_told(
    plan: FramePlan,
    t: TileView,
    a: BlockCoeffs,
    b: BlockCoeffs,
    mi: (int, int),
    side: int,
    x: Seq<Op>,
    y: Seq<Op>,
)
    requires
        skip_ops(plan, t, a.skip, mi, side) + (inter_flag(t, a.inter is Some, mi) + x)
            == skip_ops(plan, t, b.skip, mi, side) + (inter_flag(t, b.inter is Some, mi) + y),
    ensures
        a.skip == b.skip,
        (a.inter is Some) == (b.inter is Some),
        x == y,
        inter_block::head(plan, t, a, mi.0, mi.1, side) == inter_block::head(
            plan,
            t,
            b,
            mi.0,
            mi.1,
            side,
        ),
{
    reveal(inter_block::head);
    let sa = skip_ops(plan, t, a.skip, mi, side);
    let sb = skip_ops(plan, t, b.skip, mi, side);
    let fa = inter_flag(t, a.inter is Some, mi);
    let fb = inter_flag(t, b.inter is Some, mi);
    assert((sa + (fa + x))[0] == sa[0]);
    assert((sb + (fb + y))[0] == sb[0]);
    assert(a.skip == b.skip);
    read_back::lemma_parts(sa, fa + x, sb, fb + y);
    read_back::lemma_parts(fa, x, fb, y);
    assert(fa[0] == fb[0]);
}

/// The vectors a decoder derives for a block, the second one zero where the
/// block has one reference.
pub open spec fn derived(info: InterInfo, m: MotionContext) -> motion::MvPair {
    if info.ref1 is Some {
        motion::pair_of(info, m.compound).mvs
    } else {
        (motion::inter_mode(info, m.single).mv, (0, 0))
    }
}

/// Whether a difference is coded for one of them.
pub open spec fn is_new(info: InterInfo, m: MotionContext) -> bool {
    if info.ref1 is Some {
        motion::is_new_pair(info.mode)
    } else {
        motion::inter_mode(info, m.single).is_new
    }
}

/// The symbols of a block's prediction from other frames.
#[verifier::opaque]
spec fn predicted_ops(
    plan: FramePlan,
    m: MotionContext,
    bands: Bands,
    info: InterInfo,
    how: u8,
    mi: (int, int),
    side: int,
) -> Seq<Op> {
    let count = refs::comp_mode_ops(
        plan.reference_select,
        bands,
        mi.0,
        mi.1,
        info.ref1 is Some,
    );
    if info.ref1 is Some {
        count + motion::compound_block(
            bands,
            mi.0,
            mi.1,
            side / 4,
            info,
            m.compound,
        ).said.ops
    } else {
        count + (refs::single_ref_ops(info.ref_frame, refs::named_refs(bands, mi.0, mi.1)) + (
        motion::inter_mode(info, m.single).said.ops + motion::motion_mode_ops(
            plan,
            m,
            side,
            how,
        )))
    }
}

proof fn lemma_predicted(
    plan: FramePlan,
    motion: Seq<MotionContext>,
    t: TileView,
    info: InterInfo,
    how: u8,
    mi: (int, int),
    side: int,
)
    requires
        inter_block::predicted(plan, motion, t, info, how, mi.0, mi.1, side).fault is None,
    ensures
        t.asked < motion.len(),
        ({
            let m = motion[t.asked];
            let done = inter_block::predicted(plan, motion, t, info, how, mi.0, mi.1, side).tile;
            done == TileView {
                ops: t.ops + predicted_ops(plan, m, t.bands, info, how, mi, side),
                records: t.records.push(
                    inter_block::inter_record(
                        info,
                        derived(info, m),
                        is_new(info, m),
                        mi.0,
                        mi.1,
                        side,
                    ),
                ),
                asked: t.asked + 1,
                ..t
            }
        }),
        ({
            let m = motion[t.asked];
            if info.ref1 is Some {
                motion::compound_block(
                    t.bands,
                    mi.0,
                    mi.1,
                    side / 4,
                    info,
                    m.compound,
                ).said.fault is None
            } else {
                motion::inter_mode(info, m.single).said.fault is None
            }
        }),
{
    reveal(inter_block::predicted);
    reveal(inter_block::paired);
    reveal(inter_block::single);
    reveal(predicted_ops);
    let m = motion[t.asked];
    let done = inter_block::predicted(plan, motion, t, info, how, mi.0, mi.1, side).tile;
    assert(done.ops =~= t.ops + predicted_ops(plan, m, t.bands, info, how, mi, side));
}

/// Whether a decoder can tell a block's references and vectors: references that
/// have names, two of them only where the frame has blocks of two, and
/// differences within the last class of vectors.
pub open spec fn is_motion_told(plan: FramePlan, m: MotionContext, info: InterInfo) -> bool {
    match info.ref1 {
        Some(ref1) => {
            &&& plan.reference_select
            &&& refs_read_back::is_ordered(info.ref_frame, ref1)
            &&& motion_read_back::is_near_pair(info, m.compound)
        },
        None => {
            &&& 1 <= info.ref_frame <= 7
            &&& info.mode == blocks::InterMode::NewMv ==> motion_read_back::is_near(
                info.mv,
                motion_read_back::base_of(info, m.single),
            )
        },
    }
}

/// Whether two blocks are predicted from other frames in the same way: from the
/// same references, by the same mode, with the same vectors and, from one
/// reference, the same motion mode.
pub open spec fn same_motion(
    plan: FramePlan,
    m: MotionContext,
    a: (InterInfo, u8),
    b: (InterInfo, u8),
    side: int,
) -> bool {
    &&& a.0.ref_frame == b.0.ref_frame
    &&& a.0.ref1 == b.0.ref1
    &&& a.0.mode == b.0.mode
    &&& derived(a.0, m) == derived(b.0, m)
    &&& is_new(a.0, m) == is_new(b.0, m)
    &&& a.0.ref1 is None ==> refs_read_back::same_motion_mode(plan, m, side, a.1, b.1)
}

/// What a decoder sees of a block of one reference.
proof fn lemma_single_seen(
    plan: FramePlan,
    m: MotionContext,
    bands: Bands,
    info: InterInfo,
    how: u8,
    mi: (int, int),
    side: int,
    x: Seq<Op>,
)
    requires
        info.ref1 is None,
    ensures
        read_back::coded(predicted_ops(plan, m, bands, info, how, mi, side)) + x
            == refs::comp_mode_ops(plan.reference_select, bands, mi.0, mi.1, false) + (
        read_back::coded(
            refs::single_ref_ops(info.ref_frame, refs::named_refs(bands, mi.0, mi.1)),
        ) + (read_back::coded(motion::inter_mode(info, m.single).said.ops) + (read_back::coded(
            motion::motion_mode_ops(plan, m, side, how),
        ) + x))),
{
    reveal(predicted_ops);
    let count = refs::comp_mode_ops(plan.reference_select, bands, mi.0, mi.1, false);
    let name = refs::single_ref_ops(info.ref_frame, refs::named_refs(bands, mi.0, mi.1));
    let mode = motion::inter_mode(info, m.single).said.ops;
    let kind = motion::motion_mode_ops(plan, m, side, how);
    read_back::marks_are_not_coded(count, name + (mode + kind));
    read_back::marks_are_not_coded(name, mode + kind);
    read_back::marks_are_not_coded(mode, kind);
    read_back::lemma_unmarked(count);
    let n = read_back::coded(name);
    let o = read_back::coded(mode);
    let k = read_back::coded(kind);
    assert((count + (n + (o + k))) + x =~= count + (n + (o + (k + x))));
}

/// What a decoder sees of a block of two references.
proof fn lemma_pair_seen(
    plan: FramePlan,
    m: MotionContext,
    bands: Bands,
    info: InterInfo,
    how: u8,
    mi: (int, int),
    side: int,
    x: Seq<Op>,
)
    requires
        info.ref1 is Some,
        motion::compound_block(bands, mi.0, mi.1, side / 4, info, m.compound).said.fault is None,
    ensures
        refs::pair_fault(info.ref_frame, info.ref1->0) is None,
        blocks::spec_compound_index(info.mode) is Some,
        motion::pair_of(info, m.compound).said.fault is None,
        motion::compound_block(bands, mi.0, mi.1, side / 4, info, m.compound).mvs
            == motion::pair_of(info, m.compound).mvs,
        read_back::coded(predicted_ops(plan, m, bands, info, how, mi, side)) + x
            == refs::comp_mode_ops(plan.reference_select, bands, mi.0, mi.1, true) + (
        refs::pair_ops(bands, mi.0, mi.1, info.ref_frame, info.ref1->0) + ((seq![
            ops::symbol(
                blocks::spec_compound_index(info.mode)->0 as int,
                Cdf::InterCompoundMode(motion::compound_ctx(m.compound)),
            ),
        ] + read_back::coded(motion::pair_of(info, m.compound).said.ops)) + x)),
{
    reveal(predicted_ops);
    let ref1 = info.ref1->0;
    let count = refs::comp_mode_ops(plan.reference_select, bands, mi.0, mi.1, true);
    let names = refs::pair_ops(bands, mi.0, mi.1, info.ref_frame, ref1);
    let index = blocks::spec_compound_index(info.mode)->0;
    let mode = seq![
        ops::symbol(index as int, Cdf::InterCompoundMode(motion::compound_ctx(m.compound))),
    ];
    let pair = motion::pair_of(info, m.compound).said.ops;
    let mark = Op::Note(
        Note::Compound(
            index,
            refs::ref_slot(ref1) as usize,
            motion::size_bucket(side / 4) as usize,
            side / 4 <= 4,
        ),
    );
    let own = motion::compound_block(bands, mi.0, mi.1, side / 4, info, m.compound).said.ops;
    assert(own =~= (names + (mode + pair)).push(mark));
    read_back::lemma_mark(names + (mode + pair), mark);
    read_back::marks_are_not_coded(count, own);
    read_back::marks_are_not_coded(names, mode + pair);
    read_back::marks_are_not_coded(mode, pair);
    read_back::lemma_unmarked(count);
    read_back::lemma_unmarked(mode);
    refs_read_back::pairs_are_unmarked(bands, mi, info.ref_frame, ref1);
    let p = read_back::coded(pair);
    assert((count + (names + (mode + p))) + x =~= count + (names + ((mode + p) + x)));
}

/// A block's prediction from other frames reads back: from the same neighbours
/// and candidates, and whatever follows, its symbols tell its references, its
/// mode, its vectors and its motion mode.
pub proof fn predictions_read_back(
    plan: FramePlan,
    motion: Seq<MotionContext>,
    t: TileView,
    a: (InterInfo, u8),
    b: (InterInfo, u8),
    mi: (int, int),
    side: int,
    x: Seq<Op>,
    y: Seq<Op>,
)
    requires
        inter_block::predicted(plan, motion, t, a.0, a.1, mi.0, mi.1, side).fault is None,
        inter_block::predicted(plan, motion, t, b.0, b.1, mi.0, mi.1, side).fault is None,
        is_motion_told(plan, motion[t.asked], a.0),
        is_motion_told(plan, motion[t.asked], b.0),
        read_back::coded(
            inter_block::predicted(plan, motion, t, a.0, a.1, mi.0, mi.1, side).tile.ops,
        ) + x == read_back::coded(
            inter_block::predicted(plan, motion, t, b.0, b.1, mi.0, mi.1, side).tile.ops,
        ) + y,
    ensures
        same_motion(plan, motion[t.asked], a, b, side),
        x == y,
{
    let m = motion[t.asked];
    let oa = predicted_ops(plan, m, t.bands, a.0, a.1, mi, side);
    let ob = predicted_ops(plan, m, t.bands, b.0, b.1, mi, side);
    lemma_predicted(plan, motion, t, a.0, a.1, mi, side);
    lemma_predicted(plan, motion, t, b.0, b.1, mi, side);
    read_back::marks_are_not_coded(t.ops, oa);
    read_back::marks_are_not_coded(t.ops, ob);
    let seen = read_back::coded(t.ops);
    residual_read_back::lemma_joined(seen, read_back::coded(oa), x);
    residual_read_back::lemma_joined(seen, read_back::coded(ob), y);
    read_back::lemma_parts(
        seen,
        read_back::coded(oa) + x,
        seen,
        read_back::coded(ob) + y,
    );
    lemma_predicted_told(plan, m, t.bands, a, b, mi, side, x, y);
}

proof fn lemma_predicted_told(
    plan: FramePlan,
    m: MotionContext,
    bands: Bands,
    a: (InterInfo, u8),
    b: (InterInfo, u8),
    mi: (int, int),
    side: int,
    x: Seq<Op>,
    y: Seq<Op>,
)
    requires
        is_motion_told(plan, m, a.0),
        is_motion_told(plan, m, b.0),
        a.0.ref1 is Some ==> motion::compound_block(
            bands,
            mi.0,
            mi.1,
            side / 4,
            a.0,
            m.compound,
        ).said.fault is None,
        b.0.ref1 is Some ==> motion::compound_block(
            bands,
            mi.0,
            mi.1,
            side / 4,
            b.0,
            m.compound,
        ).said.fault is None,
        a.0.ref1 is None ==> motion::inter_mode(a.0, m.single).said.fault is None,
        b.0.ref1 is None ==> motion::inter_mode(b.0, m.single).said.fault is None,
        read_back::coded(predicted_ops(plan, m, bands, a.0, a.1, mi, side)) + x
            == read_back::coded(predicted_ops(plan, m, bands, b.0, b.1, mi, side)) + y,
    ensures
        same_motion(plan, m, a, b, side),
        x == y,
{
    lemma_count_told(plan, m, bands, a, b, mi, side, x, y);
    let count = refs::comp_mode_ops(
        plan.reference_select,
        bands,
        mi.0,
        mi.1,
        a.0.ref1 is Some,
    );
    if a.0.ref1 is Some {
        lemma_pair_seen(plan, m, bands, a.0, a.1, mi, side, x);
        lemma_pair_seen(plan, m, bands, b.0, b.1, mi, side, y);
        let table = Cdf::InterCompoundMode(motion::compound_ctx(m.compound));
        let pa = (seq![
            ops::symbol(blocks::spec_compound_index(a.0.mode)->0 as int, table),
        ] + read_back::coded(motion::pair_of(a.0, m.compound).said.ops)) + x;
        let pb = (seq![
            ops::symbol(blocks::spec_compound_index(b.0.mode)->0 as int, table),
        ] + read_back::coded(motion::pair_of(b.0, m.compound).said.ops)) + y;
        let na = refs::pair_ops(bands, mi.0, mi.1, a.0.ref_frame, a.0.ref1->0);
        let nb = refs::pair_ops(bands, mi.0, mi.1, b.0.ref_frame, b.0.ref1->0);
        read_back::lemma_parts(count, na + pa, count, nb + pb);
        refs_read_back::pairs_read_back(
            bands,
            mi,
            (a.0.ref_frame, a.0.ref1->0),
            (b.0.ref_frame, b.0.ref1->0),
            pa,
            pb,
        );
        motion_read_back::paired_modes_read_back(a.0, b.0, m.compound, x, y);
    } else {
        lemma_single_seen(plan, m, bands, a.0, a.1, mi, side, x);
        lemma_single_seen(plan, m, bands, b.0, b.1, mi, side, y);
        let named = refs::named_refs(bands, mi.0, mi.1);
        let ka = read_back::coded(motion::motion_mode_ops(plan, m, side, a.1)) + x;
        let kb = read_back::coded(motion::motion_mode_ops(plan, m, side, b.1)) + y;
        let ma = read_back::coded(motion::inter_mode(a.0, m.single).said.ops) + ka;
        let mb = read_back::coded(motion::inter_mode(b.0, m.single).said.ops) + kb;
        let na = read_back::coded(refs::single_ref_ops(a.0.ref_frame, named));
        let nb = read_back::coded(refs::single_ref_ops(b.0.ref_frame, named));
        read_back::lemma_parts(count, na + ma, count, nb + mb);
        refs_read_back::names_read_back(a.0.ref_frame, b.0.ref_frame, named, ma, mb);
        motion_read_back::single_modes_read_back(a.0, b.0, m.single, ka, kb);
        refs_read_back::motion_modes_read_back(plan, m, side, a.1, b.1, x, y);
    }
}

/// Whether a block has two references reads back.
proof fn lemma_count_told(
    plan: FramePlan,
    m: MotionContext,
    bands: Bands,
    a: (InterInfo, u8),
    b: (InterInfo, u8),
    mi: (int, int),
    side: int,
    x: Seq<Op>,
    y: Seq<Op>,
)
    requires
        is_motion_told(plan, m, a.0),
        is_motion_told(plan, m, b.0),
        a.0.ref1 is Some ==> motion::compound_block(
            bands,
            mi.0,
            mi.1,
            side / 4,
            a.0,
            m.compound,
        ).said.fault is None,
        b.0.ref1 is Some ==> motion::compound_block(
            bands,
            mi.0,
            mi.1,
            side / 4,
            b.0,
            m.compound,
        ).said.fault is None,
        read_back::coded(predicted_ops(plan, m, bands, a.0, a.1, mi, side)) + x
            == read_back::coded(predicted_ops(plan, m, bands, b.0, b.1, mi, side)) + y,
    ensures
        (a.0.ref1 is Some) == (b.0.ref1 is Some),
{
    if plan.reference_select {
        let oa = read_back::coded(predicted_ops(plan, m, bands, a.0, a.1, mi, side)) + x;
        let ob = read_back::coded(predicted_ops(plan, m, bands, b.0, b.1, mi, side)) + y;
        if a.0.ref1 is Some {
            lemma_pair_seen(plan, m, bands, a.0, a.1, mi, side, x);
        } else {
            lemma_single_seen(plan, m, bands, a.0, a.1, mi, side, x);
        }
        if b.0.ref1 is Some {
            lemma_pair_seen(plan, m, bands, b.0, b.1, mi, side, y);
        } else {
            lemma_single_seen(plan, m, bands, b.0, b.1, mi, side, y);
        }
        assert(oa[0] == refs::comp_mode_ops(true, bands, mi.0, mi.1, a.0.ref1 is Some)[0]);
        assert(ob[0] == refs::comp_mode_ops(true, bands, mi.0, mi.1, b.0.ref1 is Some)[0]);
    }
}

/// Whether a decoder can tell a block of an inter frame: it holds no choice that
/// the frame has no symbol for, its vectors are within reach, and its
/// transforms are of types their sets offer.
pub open spec fn is_inter_told(
    plan: FramePlan,
    motion: Seq<MotionContext>,
    t: TileView,
    block: BlockCoeffs,
    mi: (int, int),
    side: int,
) -> bool {
    &&& inter_block::is_inter_block(plan, block, side)
    &&& match block.inter {
        Some(info) => is_motion_told(plan, motion[t.asked], info),
        None => side < 64 && intra_read_back::is_filter_told(plan, block, side),
    }
    &&& !block.skip ==> {
        &&& residual_read_back::is_named_depth(plan, block, side)
        &&& residual_read_back::is_typed(
            plan,
            t.bands,
            residual_read_back::inter_luma(plan, block, mi.0, mi.1, side),
        )
    }
}

/// Whether two blocks of an inter frame are the same to a decoder: skipped or
/// not, predicted in the same way, and with the same residual.
pub open spec fn same_inter_block(
    plan: FramePlan,
    motion: Seq<MotionContext>,
    t: TileView,
    a: BlockCoeffs,
    b: BlockCoeffs,
    mi: (int, int),
    side: int,
) -> bool {
    &&& a.skip == b.skip
    &&& match (a.inter, b.inter) {
        (Some(i), Some(j)) => same_motion(
            plan,
            motion[t.asked],
            (i, a.motion_mode),
            (j, b.motion_mode),
            side,
        ),
        (None, None) => intra_read_back::same_choices(plan, a, b, side),
        _ => false,
    }
    &&& residual_read_back::same_inter_residual(plan, t.bands, a, b, mi, side)
}

/// The symbols of a block's prediction.
spec fn prediction_ops(
    plan: FramePlan,
    motion: Seq<MotionContext>,
    t: TileView,
    block: BlockCoeffs,
    mi: (int, int),
    side: int,
) -> Seq<Op> {
    match block.inter {
        Some(info) => predicted_ops(
            plan,
            motion[t.asked],
            t.bands,
            info,
            block.motion_mode,
            mi,
            side,
        ),
        None => seq![
            ops::symbol(
                block.mode as int,
                Cdf::YMode(inter_block::size_group(side) as usize),
            ),
        ] + intra::modes_ops(plan, t.bands, block, true, mi.0, mi.1, side),
    }
}

/// The bands a block's residual is written with.
spec fn pending_bands(plan: FramePlan, t: TileView, block: BlockCoeffs) -> Bands {
    if block.inter is Some {
        t.bands
    } else {
        intra::with_pending(plan, t.bands, block)
    }
}

/// A tile after a block's flags and its prediction.
spec fn predicted_tile(
    plan: FramePlan,
    motion: Seq<MotionContext>,
    t: TileView,
    block: BlockCoeffs,
    mi: (int, int),
    side: int,
) -> TileView {
    let flagged = inter_block::head(plan, t, block, mi.0, mi.1, side);
    match block.inter {
        Some(info) => inter_block::predicted(
            plan,
            motion,
            flagged,
            info,
            block.motion_mode,
            mi.0,
            mi.1,
            side,
        ).tile,
        None => inter_block::intra_predicted(plan, flagged, block, mi.0, mi.1, side),
    }
}

/// The symbols of a whole block, in turn.
proof fn lemma_block(
    plan: FramePlan,
    motion: Seq<MotionContext>,
    t: TileView,
    block: BlockCoeffs,
    mi: (int, int),
    side: int,
    x: Seq<Op>,
)
    requires
        residual_read_back::is_sized(plan, block, side),
        inter_block::inter_block(plan, motion, t, block, mi.0, mi.1, side).fault is None,
    ensures
        ({
            let at = predicted_tile(plan, motion, t, block, mi, side);
            let done = inter_block::inter_residual(plan, at, block, mi.0, mi.1, side);
            &&& inter_block::inter_block(plan, motion, t, block, mi.0, mi.1, side) == done
            &&& done.fault is None
            &&& at.bands == pending_bands(plan, t, block)
        }),
        block.inter matches Some(info) ==> inter_block::predicted(
            plan,
            motion,
            inter_block::head(plan, t, block, mi.0, mi.1, side),
            info,
            block.motion_mode,
            mi.0,
            mi.1,
            side,
        ).fault is None,
        block.inter is None ==> block.mode < INTRA_MODES,
        residual_read_back::is_laid_out(plan, block, side),
        read_back::coded(
            inter_block::inter_block(plan, motion, t, block, mi.0, mi.1, side).tile.ops,
        ) + x == read_back::coded(t.ops) + (skip_ops(plan, t, block.skip, mi, side) + (
        inter_flag(t, block.inter is Some, mi) + (read_back::coded(
            prediction_ops(plan, motion, t, block, mi, side),
        ) + (residual_read_back::residual_ops(
            plan,
            pending_bands(plan, t, block),
            block,
            mi,
            side,
        ) + x)))),
{
    reveal(inter_block::inter_block);
    let flagged = inter_block::head(plan, t, block, mi.0, mi.1, side);
    let at = predicted_tile(plan, motion, t, block, mi, side);
    lemma_head(plan, t, block, mi, side);
    let own = prediction_ops(plan, motion, t, block, mi, side);
    match block.inter {
        Some(info) => {
            lemma_predicted(plan, motion, flagged, info, block.motion_mode, mi, side);
        },
        None => {
            reveal(inter_block::intra_predicted);
            assert(at.ops =~= flagged.ops + own);
        },
    }
    residual_read_back::lemma_residual_own(plan, at, block, mi, side);
    let skip = skip_ops(plan, t, block.skip, mi, side);
    let flag = inter_flag(t, block.inter is Some, mi);
    let rest = residual_read_back::residual_ops(plan, at.bands, block, mi, side);
    read_back::marks_are_not_coded(at.ops, rest);
    read_back::marks_are_not_coded(flagged.ops, own);
    read_back::marks_are_not_coded(t.ops, skip + flag);
    read_back::marks_are_not_coded(skip, flag);
    let seen = read_back::coded(t.ops);
    let told = read_back::coded(own);
    assert((((seen + (skip + flag)) + told) + rest) + x =~= seen + (skip + (flag + (told + (rest
        + x)))));
}

/// A block's prediction reads back.
proof fn lemma_prediction_told(
    plan: FramePlan,
    motion: Seq<MotionContext>,
    t: TileView,
    a: BlockCoeffs,
    b: BlockCoeffs,
    mi: (int, int),
    side: int,
    x: Seq<Op>,
    y: Seq<Op>,
)
    requires
        intra::is_block_side(side),
        (a.inter is Some) == (b.inter is Some),
        is_inter_told(plan, motion, t, a, mi, side),
        is_inter_told(plan, motion, t, b, mi, side),
        a.inter matches Some(info) ==> inter_block::predicted(
            plan,
            motion,
            t,
            info,
            a.motion_mode,
            mi.0,
            mi.1,
            side,
        ).fault is None,
        b.inter matches Some(info) ==> inter_block::predicted(
            plan,
            motion,
            t,
            info,
            b.motion_mode,
            mi.0,
            mi.1,
            side,
        ).fault is None,
        a.inter is None ==> a.mode < INTRA_MODES,
        b.inter is None ==> b.mode < INTRA_MODES,
        plan.screen ==> intra_read_back::caches_ascend(t.bands, mi),
        read_back::coded(prediction_ops(plan, motion, t, a, mi, side)) + x == read_back::coded(
            prediction_ops(plan, motion, t, b, mi, side),
        ) + y,
    ensures
        x == y,
        a.inter matches Some(i) ==> same_motion(
            plan,
            motion[t.asked],
            (i, a.motion_mode),
            (b.inter->0, b.motion_mode),
            side,
        ),
        a.inter is None ==> intra_read_back::same_choices(plan, a, b, side),
{
    if a.inter is Some {
        let i = (a.inter->0, a.motion_mode);
        let j = (b.inter->0, b.motion_mode);
        lemma_predicted(plan, motion, t, i.0, i.1, mi, side);
        lemma_predicted(plan, motion, t, j.0, j.1, mi, side);
        lemma_predicted_told(plan, motion[t.asked], t.bands, i, j, mi, side, x, y);
    } else {
        let table = Cdf::YMode(inter_block::size_group(side) as usize);
        let ma = seq![ops::symbol(a.mode as int, table)];
        let mb = seq![ops::symbol(b.mode as int, table)];
        let ra = intra::modes_ops(plan, t.bands, a, true, mi.0, mi.1, side);
        let rb = intra::modes_ops(plan, t.bands, b, true, mi.0, mi.1, side);
        read_back::marks_are_not_coded(ma, ra);
        read_back::marks_are_not_coded(mb, rb);
        read_back::lemma_unmarked(ma);
        read_back::lemma_unmarked(mb);
        residual_read_back::lemma_joined(ma, read_back::coded(ra), x);
        residual_read_back::lemma_joined(mb, read_back::coded(rb), y);
        read_back::lemma_parts(
            ma,
            read_back::coded(ra) + x,
            mb,
            read_back::coded(rb) + y,
        );
        assert(ma[0] == mb[0]);
        intra_read_back::intra_modes_read_back(plan, t.bands, a, b, true, mi, side, x, y);
    }
}

/// A block of an inter frame reads back: from the same state of the tile, and
/// whatever follows, its symbols tell whether it is skipped, how it is
/// predicted, with which references, modes and vectors, and the levels of its
/// transforms. A decoder that holds the same palettes is then in the same state.
pub proof fn inter_blocks_read_back(
    plan: FramePlan,
    motion: Seq<MotionContext>,
    t: TileView,
    a: BlockCoeffs,
    b: BlockCoeffs,
    mi: (int, int),
    side: int,
    x: Seq<Op>,
    y: Seq<Op>,
)
    requires
        key_block::is_place(plan, t.bands, mi.0, mi.1, side),
        mi.0 < plan.mi_rows,
        mi.1 < plan.mi_cols,
        plan.screen ==> intra_read_back::caches_ascend(t.bands, mi),
        is_inter_told(plan, motion, t, a, mi, side),
        is_inter_told(plan, motion, t, b, mi, side),
        inter_block::inter_block(plan, motion, t, a, mi.0, mi.1, side).fault is None,
        inter_block::inter_block(plan, motion, t, b, mi.0, mi.1, side).fault is None,
        read_back::coded(
            inter_block::inter_block(plan, motion, t, a, mi.0, mi.1, side).tile.ops,
        ) + x == read_back::coded(
            inter_block::inter_block(plan, motion, t, b, mi.0, mi.1, side).tile.ops,
        ) + y,
    ensures
        same_inter_block(plan, motion, t, a, b, mi, side),
        x == y,
        read_back::coded(
            inter_block::inter_block(plan, motion, t, a, mi.0, mi.1, side).tile.ops,
        ) == read_back::coded(
            inter_block::inter_block(plan, motion, t, b, mi.0, mi.1, side).tile.ops,
        ),
        a.inter is Some || intra::with_pending(plan, t.bands, a) == intra::with_pending(
            plan,
            t.bands,
            b,
        ) ==> state::same_state(
            inter_block::inter_block(plan, motion, t, a, mi.0, mi.1, side).tile,
            inter_block::inter_block(plan, motion, t, b, mi.0, mi.1, side).tile,
        ),
{
    lemma_block(plan, motion, t, a, mi, side, x);
    lemma_block(plan, motion, t, b, mi, side, y);
    let ba = pending_bands(plan, t, a);
    let bb = pending_bands(plan, t, b);
    let ra = residual_read_back::residual_ops(plan, ba, a, mi, side) + x;
    let rb = residual_read_back::residual_ops(plan, bb, b, mi, side) + y;
    let pa = read_back::coded(prediction_ops(plan, motion, t, a, mi, side)) + ra;
    let pb = read_back::coded(prediction_ops(plan, motion, t, b, mi, side)) + rb;
    let seen = read_back::coded(t.ops);
    read_back::lemma_parts(
        seen,
        skip_ops(plan, t, a.skip, mi, side) + (inter_flag(t, a.inter is Some, mi) + pa),
        seen,
        skip_ops(plan, t, b.skip, mi, side) + (inter_flag(t, b.inter is Some, mi) + pb),
    );
    lemma_head_told(plan, t, a, b, mi, side, pa, pb);
    let flagged = inter_block::head(plan, t, a, mi.0, mi.1, side);
    lemma_head(plan, t, a, mi, side);
    assert(prediction_ops(plan, motion, flagged, a, mi, side) == prediction_ops(
        plan,
        motion,
        t,
        a,
        mi,
        side,
    ));
    assert(prediction_ops(plan, motion, flagged, b, mi, side) == prediction_ops(
        plan,
        motion,
        t,
        b,
        mi,
        side,
    ));
    lemma_prediction_told(plan, motion, flagged, a, b, mi, side, ra, rb);
    lemma_rows(plan, a, b, side);
    residual_read_back::inter_residuals_read_back(plan, ba, bb, a, b, mi, side, x, y);
    read_back::lemma_before(
        read_back::coded(
            inter_block::inter_block(plan, motion, t, a, mi.0, mi.1, side).tile.ops,
        ),
        read_back::coded(
            inter_block::inter_block(plan, motion, t, b, mi.0, mi.1, side).tile.ops,
        ),
        x,
    );
    if ba == bb {
        lemma_same_end(plan, motion, t, a, b, mi, side);
    }
}

/// Blocks that make the same choices read the same row of the transform type
/// tables.
proof fn lemma_rows(plan: FramePlan, a: BlockCoeffs, b: BlockCoeffs, side: int)
    requires
        (a.inter is Some) == (b.inter is Some),
        a.inter is None ==> intra_read_back::same_choices(plan, a, b, side) && intra_read_back::is_filter_told(
            plan,
            a,
            side,
        ) && intra_read_back::is_filter_told(plan, b, side),
    ensures
        inter_block::row_of(a) == inter_block::row_of(b),
{
}

/// Blocks that are the same to a decoder leave the same behind.
proof fn lemma_same_end(
    plan: FramePlan,
    motion: Seq<MotionContext>,
    t: TileView,
    a: BlockCoeffs,
    b: BlockCoeffs,
    mi: (int, int),
    side: int,
)
    requires
        key_block::is_place(plan, t.bands, mi.0, mi.1, side),
        mi.0 < plan.mi_rows,
        mi.1 < plan.mi_cols,
        is_inter_told(plan, motion, t, a, mi, side),
        is_inter_told(plan, motion, t, b, mi, side),
        inter_block::inter_block(plan, motion, t, a, mi.0, mi.1, side).fault is None,
        inter_block::inter_block(plan, motion, t, b, mi.0, mi.1, side).fault is None,
        same_inter_block(plan, motion, t, a, b, mi, side),
        pending_bands(plan, t, a) == pending_bands(plan, t, b),
        inter_block::head(plan, t, a, mi.0, mi.1, side) == inter_block::head(
            plan,
            t,
            b,
            mi.0,
            mi.1,
            side,
        ),
        ({
            let s = pending_bands(plan, t, a);
            let v = residual_read_back::syntax_left(plan, s, a, mi, side).w.bands;
            let w = residual_read_back::syntax_left(plan, s, b, mi, side).w.bands;
            &&& residual_read_back::named_tx(plan, a, side) == residual_read_back::named_tx(
                plan,
                b,
                side,
            )
            &&& units_read_back::same_cells(v, w)
            &&& !a.skip ==> units_read_back::same_cells(
                residual_read_back::luma_left(plan, v, a, mi, side).bands,
                residual_read_back::luma_left(plan, w, b, mi, side).bands,
            )
        }),
    ensures
        state::same_state(
            inter_block::inter_block(plan, motion, t, a, mi.0, mi.1, side).tile,
            inter_block::inter_block(plan, motion, t, b, mi.0, mi.1, side).tile,
        ),
{
    let flagged = inter_block::head(plan, t, a, mi.0, mi.1, side);
    lemma_head(plan, t, a, mi, side);
    lemma_block(plan, motion, t, a, mi, side, Seq::empty());
    lemma_block(plan, motion, t, b, mi, side, Seq::empty());
    lemma_rows(plan, a, b, side);
    let sa = predicted_tile(plan, motion, t, a, mi, side);
    let sb = predicted_tile(plan, motion, t, b, mi, side);
    if a.inter is Some {
        lemma_predicted(plan, motion, flagged, a.inter->0, a.motion_mode, mi, side);
        lemma_predicted(plan, motion, flagged, b.inter->0, b.motion_mode, mi, side);
    } else {
        reveal(inter_block::intra_predicted);
    }
    assert(state::same_state(sa, sb));
    let s = pending_bands(plan, t, a);
    assert(residual_read_back::same_inter_residual(plan, s, a, b, mi, side));
    residual_read_back::lemma_residual_left(plan, sa, sb, a, b, mi, side);
}

/// A block of an inter frame adds its own to a tile, keeps its frame and leaves
/// palettes that ascend where it found such; to two tiles that differ in nothing
/// but their symbols it does the same, and adds what looks the same to a decoder.
pub proof fn blocks_do_the_same_to_like_tiles(
    plan: FramePlan,
    motion: Seq<MotionContext>,
    s: TileView,
    t: TileView,
    block: BlockCoeffs,
    mi: (int, int),
    side: int,
)
    requires
        key_block::is_place(plan, s.bands, mi.0, mi.1, side),
        mi.0 < plan.mi_rows,
        mi.1 < plan.mi_cols,
        inter_block::is_inter_block(plan, block, side),
        block.inter is None ==> side < 64,
        palette_bands::are_ordered(s.bands),
        inter_block::inter_block(plan, motion, s, block, mi.0, mi.1, side).fault is None,
        state::same_state(s, t),
        read_back::coded(s.ops) == read_back::coded(t.ops),
    ensures
        ({
            let a = inter_block::inter_block(plan, motion, s, block, mi.0, mi.1, side);
            let b = inter_block::inter_block(plan, motion, t, block, mi.0, mi.1, side);
            &&& b.fault is None
            &&& s.ops.is_prefix_of(a.tile.ops)
            &&& state::same_frame(s.bands, a.tile.bands)
            &&& palette_bands::are_ordered(a.tile.bands)
            &&& state::same_state(a.tile, b.tile)
            &&& read_back::coded(a.tile.ops) == read_back::coded(b.tile.ops)
        }),
{
    let none = Seq::<Op>::empty();
    lemma_block(plan, motion, s, block, mi, side, none);
    lemma_prediction_moves(plan, motion, s, t, block, mi, side);
    let sa = predicted_tile(plan, motion, s, block, mi, side);
    let sb = predicted_tile(plan, motion, t, block, mi, side);
    lemma_residual_moves(plan, sa, sb, block, mi, side);
    assert(inter_block::inter_block(plan, motion, t, block, mi.0, mi.1, side)
        == inter_block::inter_residual(plan, sb, block, mi.0, mi.1, side)) by {
        reveal(inter_block::inter_block);
    }
    lemma_block(plan, motion, t, block, mi, side, none);
    residual_read_back::inter_residuals_keep_the_bands_in_order(plan, sa, block, mi, side);
    let a = inter_block::inter_block(plan, motion, s, block, mi.0, mi.1, side).tile;
    let b = inter_block::inter_block(plan, motion, t, block, mi.0, mi.1, side).tile;
    assert(read_back::coded(a.ops) + none =~= read_back::coded(a.ops));
    assert(read_back::coded(b.ops) + none =~= read_back::coded(b.ops));
    residual_read_back::lemma_residual_own(plan, sa, block, mi, side);
    assert(a.ops.subrange(0, s.ops.len() as int) =~= s.ops);
}

/// A block's flags and its prediction do the same to two tiles that differ in
/// nothing but their symbols.
proof fn lemma_prediction_moves(
    plan: FramePlan,
    motion: Seq<MotionContext>,
    s: TileView,
    t: TileView,
    block: BlockCoeffs,
    mi: (int, int),
    side: int,
)
    requires
        state::same_state(s, t),
        inter_block::is_inter_block(plan, block, side),
        palette_bands::are_ordered(s.bands),
        block.inter matches Some(info) ==> inter_block::predicted(
            plan,
            motion,
            inter_block::head(plan, s, block, mi.0, mi.1, side),
            info,
            block.motion_mode,
            mi.0,
            mi.1,
            side,
        ).fault is None,
    ensures
        state::same_state(
            predicted_tile(plan, motion, s, block, mi, side),
            predicted_tile(plan, motion, t, block, mi, side),
        ),
        block.inter matches Some(info) ==> inter_block::predicted(
            plan,
            motion,
            inter_block::head(plan, t, block, mi.0, mi.1, side),
            info,
            block.motion_mode,
            mi.0,
            mi.1,
            side,
        ).fault is None,
        s.ops.len() <= predicted_tile(plan, motion, s, block, mi, side).ops.len(),
        predicted_tile(plan, motion, s, block, mi, side).ops.subrange(0, s.ops.len() as int)
            == s.ops,
        palette_bands::are_ordered(predicted_tile(plan, motion, s, block, mi, side).bands),
        state::same_frame(s.bands, predicted_tile(plan, motion, s, block, mi, side).bands),
{
    lemma_head(plan, s, block, mi, side);
    lemma_head(plan, t, block, mi, side);
    let fs = inter_block::head(plan, s, block, mi.0, mi.1, side);
    let ft = inter_block::head(plan, t, block, mi.0, mi.1, side);
    assert(state::same_state(fs, ft)) by {
        reveal(inter_block::head);
    }
    match block.inter {
        Some(info) => {
            lemma_predicted(plan, motion, fs, info, block.motion_mode, mi, side);
            assert(inter_block::predicted(
                plan,
                motion,
                ft,
                info,
                block.motion_mode,
                mi.0,
                mi.1,
                side,
            ).fault is None) by {
                reveal(inter_block::predicted);
                reveal(inter_block::single);
                reveal(inter_block::paired);
            }
            lemma_predicted(plan, motion, ft, info, block.motion_mode, mi, side);
        },
        None => {
            reveal(inter_block::intra_predicted);
            palette_bands::lemma_pending(plan, s.bands, block, side, true);
        },
    }
    let at = predicted_tile(plan, motion, s, block, mi, side);
    assert(at.ops.subrange(0, s.ops.len() as int) =~= s.ops);
}

/// So does its residual.
proof fn lemma_residual_moves(
    plan: FramePlan,
    s: TileView,
    t: TileView,
    block: BlockCoeffs,
    mi: (int, int),
    side: int,
)
    requires
        state::same_state(s, t),
        key_block::is_place(plan, s.bands, mi.0, mi.1, side),
        mi.0 < plan.mi_rows,
        mi.1 < plan.mi_cols,
        residual_read_back::is_sized(plan, block, side),
        inter_block::inter_residual(plan, s, block, mi.0, mi.1, side).fault is None,
    ensures
        inter_block::inter_residual(plan, t, block, mi.0, mi.1, side).fault is None,
        state::same_state(
            inter_block::inter_residual(plan, s, block, mi.0, mi.1, side).tile,
            inter_block::inter_residual(plan, t, block, mi.0, mi.1, side).tile,
        ),
{
    residual_read_back::lemma_residual_own(plan, s, block, mi, side);
    residual_read_back::lemma_no_fault(plan, t, block, mi, side);
    residual_read_back::lemma_residual_left(plan, s, t, block, block, mi, side);
}

} // verus!
