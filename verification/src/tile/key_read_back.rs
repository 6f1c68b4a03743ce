//! What a decoder reads back of a whole block of a key frame.
use crate::tile::blocks::BlockCoeffs;
use crate::tile::intra;
use crate::tile::intra::INTRA_MODE_CTX;
use crate::tile::intra_read_back;
use crate::tile::key_block;
use crate::tile::motion::MotionContext;
use crate::tile::motion_read_back;
use crate::tile::neighbours;
use crate::tile::neighbours::{Bands, INTRA_MODES};
use crate::tile::ops;
use crate::tile::ops::{Cdf, Note, Op};
use crate::tile::palette_bands;
use crate::tile::plans;
use crate::tile::plans::FramePlan;
use crate::tile::read_back;
use crate::tile::residual;
use crate::tile::residual::{LumaUnits, Written};
use crate::tile::residual_read_back;
use crate::tile::residual_read_back::bare;
use crate::tile::state;
use crate::tile::state::TileView;
use crate::tile::units_read_back;
use crate::tile::vector_read_back;
use crate::tile::vectors;
use vstd::prelude::*;

verus! {

/// The levels of a block of a key frame.
pub open spec fn key_levels(block: BlockCoeffs, side: int) -> (Seq<i32>, Seq<i32>, Seq<i32>) {
    key_block::block_levels(block, key_block::luma_side(side), side / 2)->Ok_0
}

/// The row of the transform type tables of a block.
pub open spec fn key_row(block: BlockCoeffs) -> usize {
    intra::spec_tx_row(block.mode as int, block.filter_intra) as usize
}

/// The luma transforms of a block of a key frame, one where the frame lets no
/// block choose.
pub open spec fn key_luma(
    plan: FramePlan,
    block: BlockCoeffs,
    mi_r: int,
    mi_c: int,
    side: int,
) -> LumaUnits {
    LumaUnits {
        mi_r,
        mi_c,
        side,
        tx: if plan.tx_select {
            residual::halved(side, block.tx_depth as int)
        } else {
            side
        },
        mode: key_row(block),
        inter: false,
        grid: key_levels(block, side).0,
        types: block.luma_tx_types@,
    }
}

/// What a block's transform depth and its luma transforms leave.
spec fn select_left(
    plan: FramePlan,
    bands: Bands,
    block: BlockCoeffs,
    mi: (int, int),
    side: int,
) -> Written {
    if plan.tx_select {
        residual::select_written(
            plan,
            bare(bands),
            key_luma(plan, block, mi.0, mi.1, side),
            block.tx_depth as int,
        )
    } else {
        bare(bands)
    }
}

/// The symbols of its planes after that.
spec fn planes_left(
    plan: FramePlan,
    bands: Bands,
    block: BlockCoeffs,
    mi: (int, int),
    side: int,
) -> Seq<Op> {
    let (y, u, v) = key_levels(block, side);
    residual::planes_ops(
        plan,
        bands,
        mi.0,
        mi.1,
        side,
        key_block::key_sets(side),
        key_row(block),
        plan.tx_select,
        residual::type_at(block.luma_tx_types@, 0),
        y,
        u,
        v,
    )
}

/// A block's depth as a key frame's writer takes it.
spec fn is_sized(plan: FramePlan, block: BlockCoeffs, side: int) -> bool {
    &&& intra::is_block_side(side)
    &&& plan.tx_select && side < 64 ==> residual::is_depth(side, block.tx_depth as int)
    &&& plan.tx_select && side == 64 ==> block.tx_depth == 0
}

/// What a block's depth and luma transforms add: their own symbols, none of
/// them a mark.
proof fn lemma_select_own(plan: FramePlan, w: Written, l: LumaUnits, depth: int)
    requires
        l.side / l.tx >= 0,
        l.side == 64 ==> depth == 0,
    ensures
        ({
            let all = residual::select_written(plan, w, l, depth);
            let own = residual::select_written(plan, bare(w.bands), l, depth);
            &&& all.ops == w.ops + own.ops
            &&& all.bands == own.bands
            &&& all.bands.pending == w.bands.pending
            &&& all.bands.pending_uv == w.bands.pending_uv
            &&& read_back::coded(own.ops) == own.ops
        }),
{
    reveal(residual::select_written);
    let ctx = neighbours::spec_tx_size_ctx(w.bands, l.mi_r, l.mi_c, l.side);
    let size = ops::symbol(
        depth,
        Cdf::TxSize(residual::tx_category(l.side) as usize, ctx as usize),
    );
    let said = Written { ops: w.ops.push(size), bands: w.bands };
    let alone = Written { ops: Seq::<Op>::empty().push(size), bands: w.bands };
    units_read_back::units_add_their_own(plan, said, l);
    units_read_back::units_add_their_own(plan, alone, l);
    let units = units_read_back::units_ops(plan, w.bands, l);
    assert(w.ops.push(size) + units =~= w.ops + (alone.ops + units));
    read_back::marks_are_not_coded(alone.ops, units);
    read_back::lemma_unmarked(alone.ops);
}

/// A block's depth and luma transforms read back.
proof fn lemma_select_told(
    plan: FramePlan,
    s: Bands,
    t: Bands,
    a: BlockCoeffs,
    b: BlockCoeffs,
    mi: (int, int),
    side: int,
    x: Seq<Op>,
    y: Seq<Op>,
)
    requires
        plan.tx_select,
        units_read_back::same_cells(s, t),
        is_sized(plan, a, side),
        is_sized(plan, b, side),
        key_row(a) == key_row(b),
        neighbours::is_at(s, mi.0, mi.1, side / 4),
        key_block::block_levels(a, key_block::luma_side(side), side / 2) is Ok,
        key_block::block_levels(b, key_block::luma_side(side), side / 2) is Ok,
        residual_read_back::is_typed(plan, s, key_luma(plan, a, mi.0, mi.1, side)),
        residual_read_back::is_typed(plan, s, key_luma(plan, b, mi.0, mi.1, side)),
        select_left(plan, s, a, mi, side).ops + x == select_left(plan, t, b, mi, side).ops + y,
    ensures
        x == y,
        a.tx_depth == b.tx_depth,
        residual_read_back::same_luma(
            s,
            key_luma(plan, a, mi.0, mi.1, side),
            key_luma(plan, b, mi.0, mi.1, side),
        ),
        units_read_back::same_cells(
            select_left(plan, s, a, mi, side).bands,
            select_left(plan, t, b, mi, side).bands,
        ),
{
    reveal(residual::select_written);
    let l = key_luma(plan, a, mi.0, mi.1, side);
    let m = key_luma(plan, b, mi.0, mi.1, side);
    residual_read_back::lemma_block_levels(a, key_block::luma_side(side), side / 2);
    residual_read_back::lemma_block_levels(b, key_block::luma_side(side), side / 2);
    let ctx = neighbours::spec_tx_size_ctx(s, mi.0, mi.1, side);
    let table = Cdf::TxSize(residual::tx_category(side) as usize, ctx as usize);
    let sa = ops::symbol(a.tx_depth as int, table);
    let sb = ops::symbol(b.tx_depth as int, table);
    let wa = Written { ops: Seq::<Op>::empty().push(sa), bands: s };
    let wb = Written { ops: Seq::<Op>::empty().push(sb), bands: t };
    units_read_back::units_add_their_own(plan, wa, l);
    units_read_back::units_add_their_own(plan, wb, m);
    let oa = select_left(plan, s, a, mi, side).ops;
    let ob = select_left(plan, t, b, mi, side).ops;
    assert((oa + x)[0] == sa);
    assert((ob + y)[0] == sb);
    assert(a.tx_depth == b.tx_depth);
    residual_read_back::lemma_types(plan, s, l, m);
    units_read_back::luma_units_read_back(plan, wa, wb, l, m, x, y);
}

/// Whether two blocks of a key frame have the same residual: the same
/// transforms in the frame with the same levels.
pub open spec fn same_key_residual(
    plan: FramePlan,
    bands: Bands,
    a: BlockCoeffs,
    b: BlockCoeffs,
    mi: (int, int),
    side: int,
) -> bool {
    &&& plan.tx_select ==> a.tx_depth == b.tx_depth
    &&& residual_read_back::same_luma(
        bands,
        key_luma(plan, a, mi.0, mi.1, side),
        key_luma(plan, b, mi.0, mi.1, side),
    )
    &&& key_levels(a, side).1 == key_levels(b, side).1
    &&& key_levels(a, side).2 == key_levels(b, side).2
}

/// The symbols of a block's residual.
spec fn residual_ops(
    plan: FramePlan,
    bands: Bands,
    block: BlockCoeffs,
    mi: (int, int),
    side: int,
) -> Seq<Op> {
    let w = select_left(plan, bands, block, mi, side);
    w.ops + planes_left(plan, w.bands, block, mi, side)
}

/// A block's residual reads back.
proof fn lemma_residual_told(
    plan: FramePlan,
    s: Bands,
    t: Bands,
    a: BlockCoeffs,
    b: BlockCoeffs,
    mi: (int, int),
    side: int,
    x: Seq<Op>,
    y: Seq<Op>,
)
    requires
        units_read_back::same_cells(s, t),
        neighbours::is_at(s, mi.0, mi.1, side / 4),
        0 <= mi.0 < s.mi_rows,
        0 <= mi.1 < s.mi_cols,
        is_sized(plan, a, side),
        is_sized(plan, b, side),
        key_row(a) == key_row(b),
        key_block::block_levels(a, key_block::luma_side(side), side / 2) is Ok,
        key_block::block_levels(b, key_block::luma_side(side), side / 2) is Ok,
        residual_read_back::is_typed(plan, s, key_luma(plan, a, mi.0, mi.1, side)),
        residual_read_back::is_typed(plan, s, key_luma(plan, b, mi.0, mi.1, side)),
        residual_ops(plan, s, a, mi, side) + x == residual_ops(plan, t, b, mi, side) + y,
    ensures
        x == y,
        same_key_residual(plan, s, a, b, mi, side),
        units_read_back::same_cells(
            select_left(plan, s, a, mi, side).bands,
            select_left(plan, t, b, mi, side).bands,
        ),
{
    let l = key_luma(plan, a, mi.0, mi.1, side);
    let m = key_luma(plan, b, mi.0, mi.1, side);
    let v = select_left(plan, s, a, mi, side);
    let w = select_left(plan, t, b, mi, side);
    let p = planes_left(plan, v.bands, a, mi, side);
    let q = planes_left(plan, w.bands, b, mi, side);
    residual_read_back::lemma_block_levels(a, key_block::luma_side(side), side / 2);
    residual_read_back::lemma_block_levels(b, key_block::luma_side(side), side / 2);
    residual_read_back::lemma_joined(v.ops, p, x);
    residual_read_back::lemma_joined(w.ops, q, y);
    if plan.tx_select {
        lemma_select_told(plan, s, t, a, b, mi, side, p + x, q + y);
    } else {
        assert(Seq::<Op>::empty() + (p + x) =~= p + x);
        assert(Seq::<Op>::empty() + (q + y) =~= q + y);
        lemma_only_type(plan, s, l);
        lemma_only_type(plan, s, m);
    }
    residual_read_back::lemma_planes_told(
        plan,
        (v.bands, w.bands),
        mi,
        side,
        key_block::key_sets(side),
        key_row(a),
        plan.tx_select,
        (
            residual::type_at(a.luma_tx_types@, 0),
            residual::type_at(b.luma_tx_types@, 0),
        ),
        key_levels(a, side),
        key_levels(b, side),
        x,
        y,
    );
    if !plan.tx_select {
        residual_read_back::lemma_whole_luma(s, l, m);
    }
}

/// The type of a block's only luma transform is offered where it has levels.
proof fn lemma_only_type(plan: FramePlan, bands: Bands, l: LumaUnits)
    requires
        residual_read_back::is_typed(plan, bands, l),
        l.tx == l.side,
        l.side > 0,
        l.mi_r < bands.mi_rows,
        l.mi_c < bands.mi_cols,
    ensures
        read_back::holds_any(l.grid) ==> read_back::is_offered(
            residual::luma_set(l.tx, l.inter),
            plan.reduced_tx_set,
            residual::type_at(l.types, 0),
        ),
{
    vstd::arithmetic::div_mod::lemma_div_by_self(l.side);
    assert(units_read_back::unit_levels(l, 0, 0) == l.grid) by {
        reveal(units_read_back::unit_levels);
    }
    assert(units_read_back::is_unit_inside(bands, l, 0, 0));
    assert(units_read_back::unit_type(l, 0, 0) == residual::type_at(l.types, 0));
}

/// What a block's residual adds: its own symbols, none of them a mark.
proof fn lemma_residual_own(
    plan: FramePlan,
    t: TileView,
    block: BlockCoeffs,
    mi: (int, int),
    side: int,
)
    requires
        is_sized(plan, block, side),
    ensures
        ({
            let (y, u, v) = key_levels(block, side);
            let done = key_block::key_residual(plan, t, block, mi.0, mi.1, side, y, u, v);
            let own = residual_ops(plan, t.bands, block, mi, side);
            let left = select_left(plan, t.bands, block, mi, side).bands;
            &&& done.fault is None
            &&& done.tile.ops == t.ops + own
            &&& read_back::coded(own) == own
            &&& left.pending == t.bands.pending
            &&& left.pending_uv == t.bands.pending_uv
        }),
{
    reveal(key_block::key_residual);
    let (y, u, v) = key_levels(block, side);
    let l = key_luma(plan, block, mi.0, mi.1, side);
    let w = select_left(plan, t.bands, block, mi, side);
    let planes = planes_left(plan, w.bands, block, mi, side);
    if plan.tx_select {
        assert(l.side / l.tx >= 0) by (nonlinear_arith)
            requires
                l.side >= 0,
                l.tx > 0,
        ;
        assert(l == key_block::key_units(block, mi.0, mi.1, side, key_row(block), y));
        lemma_select_own(
            plan,
            Written { ops: t.ops, bands: t.bands },
            l,
            block.tx_depth as int,
        );
    } else {
        assert(t.ops + Seq::<Op>::empty() =~= t.ops);
    }
    residual_read_back::lemma_planes_unmarked(
        plan,
        w.bands,
        mi,
        side,
        key_block::key_sets(side),
        key_row(block),
        plan.tx_select,
        residual::type_at(block.luma_tx_types@, 0),
        (y, u, v),
    );
    read_back::marks_are_not_coded(w.ops, planes);
    residual_read_back::lemma_joined(t.ops, w.ops, planes);
}

/// The symbols of a block's skip flag and of all that follows it up to its luma
/// mode.
spec fn head_ops(plan: FramePlan, t: TileView, mi: (int, int)) -> Seq<Op> {
    let copy = if plan.intrabc {
        seq![ops::symbol(0, Cdf::Intrabc)]
    } else {
        Seq::empty()
    };
    seq![
        ops::symbol(
            0,
            Cdf::Skip(neighbours::spec_skip_ctx(t.bands, mi.0, mi.1) as usize),
        ),
    ] + plans::cdef_ops(plan.cdef, t.cdef_last, mi.0, mi.1, false) + copy
}

/// The symbol of a block's luma mode.
spec fn mode_op(block: BlockCoeffs, modes: (int, int)) -> Seq<Op> {
    seq![
        ops::symbol(
            block.mode as int,
            Cdf::KfYMode(INTRA_MODE_CTX[modes.0], INTRA_MODE_CTX[modes.1]),
        ),
    ]
}

/// The symbols of an intra block, in turn.
proof fn lemma_intra(
    plan: FramePlan,
    motion: Seq<MotionContext>,
    t: TileView,
    block: BlockCoeffs,
    mi: (int, int),
    side: int,
    modes: (int, int),
    x: Seq<Op>,
)
    requires
        block.dv is None,
        is_sized(plan, block, side),
        key_block::block_levels(block, key_block::luma_side(side), side / 2) is Ok,
    ensures
        ({
            let pending = intra::with_pending(plan, t.bands, block);
            let done = key_block::key_block(
                plan,
                motion,
                t,
                block,
                mi.0,
                mi.1,
                side,
                modes.0,
                modes.1,
            );
            read_back::coded(done.tile.ops) + x == read_back::coded(t.ops) + (head_ops(
                plan,
                t,
                mi,
            ) + (mode_op(block, modes) + (read_back::coded(
                intra::modes_ops(plan, t.bands, block, side < 64, mi.0, mi.1, side),
            ) + (residual_ops(plan, pending, block, mi, side) + x))))
        }),
{
    reveal(key_block::key_block);
    reveal(key_block::key_modes);
    let (y, u, v) = key_levels(block, side);
    let moded = key_block::key_modes(
        plan,
        t,
        block,
        mi.0,
        mi.1,
        side,
        modes.0,
        modes.1,
    );
    let head = head_ops(plan, t, mi);
    let mode = mode_op(block, modes);
    let own = intra::modes_ops(plan, t.bands, block, side < 64, mi.0, mi.1, side);
    let rest = residual_ops(plan, moded.bands, block, mi, side);
    assert(moded.ops =~= t.ops + (head + (mode + own)));
    lemma_residual_own(plan, moded, block, mi, side);
    read_back::marks_are_not_coded(moded.ops, rest);
    read_back::marks_are_not_coded(t.ops, head + (mode + own));
    read_back::marks_are_not_coded(head, mode + own);
    read_back::marks_are_not_coded(mode, own);
    read_back::lemma_unmarked(head);
    read_back::lemma_unmarked(mode);
    let seen = read_back::coded(t.ops);
    let told = read_back::coded(own);
    assert(((seen + (head + (mode + told))) + rest) + x =~= seen + (head + (mode + (told + (rest
        + x)))));
}

/// What a copied block's vector is predicted as.
pub open spec fn copy_pred(
    plan: FramePlan,
    motion: Seq<MotionContext>,
    t: TileView,
    mi_r: int,
) -> (i32, i32) {
    key_block::spec_dv_pred(
        if plan.intrabc {
            key_block::copy_candidate(motion[t.asked].single)
        } else {
            (0, 0)
        },
        mi_r,
    )
}

/// The symbols of a copied block, in turn.
proof fn lemma_copied(
    plan: FramePlan,
    motion: Seq<MotionContext>,
    t: TileView,
    dv: (i32, i32),
    mi: (int, int),
    side: int,
    x: Seq<Op>,
)
    requires
        key_block::copied_block(plan, motion, t, dv, mi.0, mi.1, side).fault is None,
    ensures
        vectors::dv_said(dv, copy_pred(plan, motion, t, mi.0)).fault is None,
        read_back::coded(
            key_block::copied_block(plan, motion, t, dv, mi.0, mi.1, side).tile.ops,
        ) + x == read_back::coded(t.ops) + (seq![
            ops::symbol(
                1,
                Cdf::Skip(neighbours::spec_skip_ctx(t.bands, mi.0, mi.1) as usize),
            ),
            ops::symbol(1, Cdf::Intrabc),
        ] + (vectors::dv_said(dv, copy_pred(plan, motion, t, mi.0)).ops + x)),
{
    reveal(key_block::copied_block);
    let flags = seq![
        ops::symbol(1, Cdf::Skip(neighbours::spec_skip_ctx(t.bands, mi.0, mi.1) as usize)),
        ops::symbol(1, Cdf::Intrabc),
    ];
    let vector = vectors::dv_said(dv, copy_pred(plan, motion, t, mi.0)).ops;
    let mark = Op::Note(Note::Intrabc(key_block::copy_bucket(dv) as usize));
    let all = key_block::copied_block(plan, motion, t, dv, mi.0, mi.1, side).tile.ops;
    assert(all =~= ((t.ops + flags) + vector).push(mark));
    read_back::lemma_mark((t.ops + flags) + vector, mark);
    read_back::marks_are_not_coded(t.ops + flags, vector);
    read_back::marks_are_not_coded(t.ops, flags);
    read_back::lemma_unmarked(flags);
    lemma_vector_unmarked(dv, copy_pred(plan, motion, t, mi.0));
    let seen = read_back::coded(t.ops);
    assert(((seen + flags) + vector) + x =~= seen + (flags + (vector + x)));
}

proof fn lemma_vector_unmarked(dv: (i32, i32), pred: (i32, i32))
    ensures
        read_back::coded(vectors::dv_said(dv, pred).ops) == vectors::dv_said(dv, pred).ops,
{
    reveal(vectors::dv_said);
    read_back::lemma_unmarked(vectors::dv_said(dv, pred).ops);
}

/// Whether a decoder can tell a block of a key frame: a copied one's vector is
/// within reach; any other holds no choice that the frame has no symbol for,
/// and its transforms are of types their sets offer.
pub open spec fn is_key_told(
    plan: FramePlan,
    motion: Seq<MotionContext>,
    t: TileView,
    block: BlockCoeffs,
    mi: (int, int),
    side: int,
) -> bool {
    &&& key_block::is_key_block(plan, block, side)
    &&& match block.dv {
        Some(dv) => motion_read_back::is_near(dv, copy_pred(plan, motion, t, mi.0)),
        None => {
            &&& block.mode < INTRA_MODES
            &&& intra_read_back::is_filter_told(plan, block, side)
            &&& residual_read_back::is_typed(
                plan,
                t.bands,
                key_luma(plan, block, mi.0, mi.1, side),
            )
        },
    }
}

/// Whether two blocks of a key frame are the same to a decoder: copied from the
/// same place, or predicted by the same choices and with the same residual.
pub open spec fn same_key_block(
    plan: FramePlan,
    t: TileView,
    a: BlockCoeffs,
    b: BlockCoeffs,
    mi: (int, int),
    side: int,
) -> bool {
    &&& a.dv == b.dv
    &&& a.dv is None ==> {
        &&& intra_read_back::same_choices(plan, a, b, side)
        &&& same_key_residual(plan, t.bands, a, b, mi, side)
    }
}

/// A block without a fault has levels, and a depth its size allows.
proof fn lemma_no_fault(
    plan: FramePlan,
    motion: Seq<MotionContext>,
    t: TileView,
    block: BlockCoeffs,
    mi: (int, int),
    side: int,
    modes: (int, int),
)
    requires
        intra::is_block_side(side),
        key_block::is_key_block(plan, block, side),
        key_block::key_block(
            plan,
            motion,
            t,
            block,
            mi.0,
            mi.1,
            side,
            modes.0,
            modes.1,
        ).fault is None,
    ensures
        key_block::block_levels(block, key_block::luma_side(side), side / 2) is Ok,
        block.dv is None ==> is_sized(plan, block, side),
        block.dv matches Some(dv) ==> key_block::key_block(
            plan,
            motion,
            t,
            block,
            mi.0,
            mi.1,
            side,
            modes.0,
            modes.1,
        ) == key_block::copied_block(plan, motion, t, dv, mi.0, mi.1, side),
{
    reveal(key_block::key_block);
    reveal(key_block::key_residual);
}

/// Whether a block is copied reads back.
proof fn lemma_kind_told(
    plan: FramePlan,
    motion: Seq<MotionContext>,
    t: TileView,
    a: BlockCoeffs,
    b: BlockCoeffs,
    mi: (int, int),
    side: int,
    modes: (int, int),
    x: Seq<Op>,
    y: Seq<Op>,
)
    requires
        intra::is_block_side(side),
        is_key_told(plan, motion, t, a, mi, side),
        is_key_told(plan, motion, t, b, mi, side),
        key_block::key_block(plan, motion, t, a, mi.0, mi.1, side, modes.0, modes.1).fault
            is None,
        key_block::key_block(plan, motion, t, b, mi.0, mi.1, side, modes.0, modes.1).fault
            is None,
        read_back::coded(
            key_block::key_block(
                plan,
                motion,
                t,
                a,
                mi.0,
                mi.1,
                side,
                modes.0,
                modes.1,
            ).tile.ops,
        ) + x == read_back::coded(
            key_block::key_block(
                plan,
                motion,
                t,
                b,
                mi.0,
                mi.1,
                side,
                modes.0,
                modes.1,
            ).tile.ops,
        ) + y,
    ensures
        (a.dv is Some) == (b.dv is Some),
{
    let n = read_back::coded(t.ops).len() as int;
    let oa = read_back::coded(
        key_block::key_block(plan, motion, t, a, mi.0, mi.1, side, modes.0, modes.1).tile.ops,
    ) + x;
    let ob = read_back::coded(
        key_block::key_block(plan, motion, t, b, mi.0, mi.1, side, modes.0, modes.1).tile.ops,
    ) + y;
    lemma_flag(plan, motion, t, a, mi, side, modes, x);
    lemma_flag(plan, motion, t, b, mi, side, modes, y);
    assert(oa[n] == ob[n]);
}

/// The first symbol of a block tells whether it is copied.
proof fn lemma_flag(
    plan: FramePlan,
    motion: Seq<MotionContext>,
    t: TileView,
    block: BlockCoeffs,
    mi: (int, int),
    side: int,
    modes: (int, int),
    x: Seq<Op>,
)
    requires
        intra::is_block_side(side),
        is_key_told(plan, motion, t, block, mi, side),
        key_block::key_block(
            plan,
            motion,
            t,
            block,
            mi.0,
            mi.1,
            side,
            modes.0,
            modes.1,
        ).fault is None,
    ensures
        (read_back::coded(
            key_block::key_block(
                plan,
                motion,
                t,
                block,
                mi.0,
                mi.1,
                side,
                modes.0,
                modes.1,
            ).tile.ops,
        ) + x)[read_back::coded(t.ops).len() as int] == ops::symbol(
            ops::flag(block.dv is Some),
            Cdf::Skip(neighbours::spec_skip_ctx(t.bands, mi.0, mi.1) as usize),
        ),
{
    lemma_no_fault(plan, motion, t, block, mi, side, modes);
    match block.dv {
        Some(dv) => {
            lemma_copied(plan, motion, t, dv, mi, side, x);
        },
        None => {
            lemma_intra(plan, motion, t, block, mi, side, modes, x);
        },
    }
}

/// A block of a key frame reads back: from the same state of the tile, and
/// whatever follows, its symbols tell whether it is copied and from where, and
/// of any other its modes, its palettes and the levels of its transforms. A
/// decoder that holds the same palettes is then in the same state.
pub proof fn key_blocks_read_back(
    plan: FramePlan,
    motion: Seq<MotionContext>,
    t: TileView,
    a: BlockCoeffs,
    b: BlockCoeffs,
    mi: (int, int),
    side: int,
    modes: (int, int),
    x: Seq<Op>,
    y: Seq<Op>,
)
    requires
        key_block::is_place(plan, t.bands, mi.0, mi.1, side),
        mi.0 < plan.mi_rows,
        mi.1 < plan.mi_cols,
        plan.screen ==> intra_read_back::caches_ascend(t.bands, mi),
        is_key_told(plan, motion, t, a, mi, side),
        is_key_told(plan, motion, t, b, mi, side),
        key_block::key_block(plan, motion, t, a, mi.0, mi.1, side, modes.0, modes.1).fault
            is None,
        key_block::key_block(plan, motion, t, b, mi.0, mi.1, side, modes.0, modes.1).fault
            is None,
        read_back::coded(
            key_block::key_block(
                plan,
                motion,
                t,
                a,
                mi.0,
                mi.1,
                side,
                modes.0,
                modes.1,
            ).tile.ops,
        ) + x == read_back::coded(
            key_block::key_block(
                plan,
                motion,
                t,
                b,
                mi.0,
                mi.1,
                side,
                modes.0,
                modes.1,
            ).tile.ops,
        ) + y,
    ensures
        same_key_block(plan, t, a, b, mi, side),
        x == y,
        read_back::coded(
            key_block::key_block(
                plan,
                motion,
                t,
                a,
                mi.0,
                mi.1,
                side,
                modes.0,
                modes.1,
            ).tile.ops,
        ) == read_back::coded(
            key_block::key_block(
                plan,
                motion,
                t,
                b,
                mi.0,
                mi.1,
                side,
                modes.0,
                modes.1,
            ).tile.ops,
        ),
        a.dv is Some || intra::with_pending(plan, t.bands, a) == intra::with_pending(
            plan,
            t.bands,
            b,
        ) ==> state::same_state(
            key_block::key_block(
                plan,
                motion,
                t,
                a,
                mi.0,
                mi.1,
                side,
                modes.0,
                modes.1,
            ).tile,
            key_block::key_block(
                plan,
                motion,
                t,
                b,
                mi.0,
                mi.1,
                side,
                modes.0,
                modes.1,
            ).tile,
        ),
{
    lemma_no_fault(plan, motion, t, a, mi, side, modes);
    lemma_no_fault(plan, motion, t, b, mi, side, modes);
    lemma_kind_told(plan, motion, t, a, b, mi, side, modes, x, y);
    let seen = read_back::coded(t.ops);
    if a.dv is Some {
        let pred = copy_pred(plan, motion, t, mi.0);
        let da = a.dv->0;
        let db = b.dv->0;
        lemma_copied(plan, motion, t, da, mi, side, x);
        lemma_copied(plan, motion, t, db, mi, side, y);
        let flags = seq![
            ops::symbol(
                1,
                Cdf::Skip(neighbours::spec_skip_ctx(t.bands, mi.0, mi.1) as usize),
            ),
            ops::symbol(1, Cdf::Intrabc),
        ];
        let va = vectors::dv_said(da, pred).ops + x;
        let vb = vectors::dv_said(db, pred).ops + y;
        read_back::lemma_parts(seen, flags + va, seen, flags + vb);
        read_back::lemma_parts(flags, va, flags, vb);
        vector_read_back::own_frame_vectors_read_back(da, db, pred, x, y);
    } else {
        lemma_intra(plan, motion, t, a, mi, side, modes, x);
        lemma_intra(plan, motion, t, b, mi, side, modes, y);
        lemma_intra_told(plan, motion, t, a, b, mi, side, modes, x, y);
    }
    read_back::lemma_before(
        read_back::coded(
            key_block::key_block(
                plan,
                motion,
                t,
                a,
                mi.0,
                mi.1,
                side,
                modes.0,
                modes.1,
            ).tile.ops,
        ),
        read_back::coded(
            key_block::key_block(
                plan,
                motion,
                t,
                b,
                mi.0,
                mi.1,
                side,
                modes.0,
                modes.1,
            ).tile.ops,
        ),
        x,
    );
}

/// An intra block of a key frame reads back.
proof fn lemma_intra_told(
    plan: FramePlan,
    motion: Seq<MotionContext>,
    t: TileView,
    a: BlockCoeffs,
    b: BlockCoeffs,
    mi: (int, int),
    side: int,
    modes: (int, int),
    x: Seq<Op>,
    y: Seq<Op>,
)
    requires
        key_block::is_place(plan, t.bands, mi.0, mi.1, side),
        mi.0 < plan.mi_rows,
        mi.1 < plan.mi_cols,
        plan.screen ==> intra_read_back::caches_ascend(t.bands, mi),
        a.dv is None && b.dv is None,
        is_key_told(plan, motion, t, a, mi, side),
        is_key_told(plan, motion, t, b, mi, side),
        is_sized(plan, a, side),
        is_sized(plan, b, side),
        key_block::block_levels(a, key_block::luma_side(side), side / 2) is Ok,
        key_block::block_levels(b, key_block::luma_side(side), side / 2) is Ok,
        ({
            let pa = intra::with_pending(plan, t.bands, a);
            let pb = intra::with_pending(plan, t.bands, b);
            read_back::coded(t.ops) + (head_ops(plan, t, mi) + (mode_op(a, modes) + (
            read_back::coded(
                intra::modes_ops(plan, t.bands, a, side < 64, mi.0, mi.1, side),
            ) + (residual_ops(plan, pa, a, mi, side) + x)))) == read_back::coded(t.ops) + (
            head_ops(plan, t, mi) + (mode_op(b, modes) + (read_back::coded(
                intra::modes_ops(plan, t.bands, b, side < 64, mi.0, mi.1, side),
            ) + (residual_ops(plan, pb, b, mi, side) + y))))
        }),
    ensures
        same_key_block(plan, t, a, b, mi, side),
        x == y,
        intra::with_pending(plan, t.bands, a) == intra::with_pending(plan, t.bands, b)
            ==> state::same_state(
            key_block::key_block(
                plan,
                motion,
                t,
                a,
                mi.0,
                mi.1,
                side,
                modes.0,
                modes.1,
            ).tile,
            key_block::key_block(
                plan,
                motion,
                t,
                b,
                mi.0,
                mi.1,
                side,
                modes.0,
                modes.1,
            ).tile,
        ),
{
    let seen = read_back::coded(t.ops);
    let head = head_ops(plan, t, mi);
    let pa = intra::with_pending(plan, t.bands, a);
    let pb = intra::with_pending(plan, t.bands, b);
    let ra = residual_ops(plan, pa, a, mi, side) + x;
    let rb = residual_ops(plan, pb, b, mi, side) + y;
    let ca = read_back::coded(
        intra::modes_ops(plan, t.bands, a, side < 64, mi.0, mi.1, side),
    ) + ra;
    let cb = read_back::coded(
        intra::modes_ops(plan, t.bands, b, side < 64, mi.0, mi.1, side),
    ) + rb;
    let ma = mode_op(a, modes);
    let mb = mode_op(b, modes);
    read_back::lemma_parts(seen, head + (ma + ca), seen, head + (mb + cb));
    read_back::lemma_parts(head, ma + ca, head, mb + cb);
    read_back::lemma_parts(ma, ca, mb, cb);
    assert(ma[0] == mb[0]);
    intra_read_back::intra_modes_read_back(plan, t.bands, a, b, side < 64, mi, side, ra, rb);
    assert(key_row(a) == key_row(b));
    lemma_residual_told(plan, pa, pb, a, b, mi, side, x, y);
    if pa == pb {
        lemma_same_end(plan, motion, t, a, b, mi, side, modes);
    }
}

/// Intra blocks that are the same to a decoder leave the same behind.
proof fn lemma_same_end(
    plan: FramePlan,
    motion: Seq<MotionContext>,
    t: TileView,
    a: BlockCoeffs,
    b: BlockCoeffs,
    mi: (int, int),
    side: int,
    modes: (int, int),
)
    requires
        key_block::is_place(plan, t.bands, mi.0, mi.1, side),
        mi.0 < plan.mi_rows,
        mi.1 < plan.mi_cols,
        a.dv is None && b.dv is None,
        is_sized(plan, a, side),
        is_sized(plan, b, side),
        key_block::block_levels(a, key_block::luma_side(side), side / 2) is Ok,
        key_block::block_levels(b, key_block::luma_side(side), side / 2) is Ok,
        same_key_block(plan, t, a, b, mi, side),
        key_row(a) == key_row(b),
        ({
            let s = intra::with_pending(plan, t.bands, a);
            &&& s == intra::with_pending(plan, t.bands, b)
            &&& units_read_back::same_cells(
                select_left(plan, s, a, mi, side).bands,
                select_left(plan, s, b, mi, side).bands,
            )
        }),
    ensures
        state::same_state(
            key_block::key_block(
                plan,
                motion,
                t,
                a,
                mi.0,
                mi.1,
                side,
                modes.0,
                modes.1,
            ).tile,
            key_block::key_block(
                plan,
                motion,
                t,
                b,
                mi.0,
                mi.1,
                side,
                modes.0,
                modes.1,
            ).tile,
        ),
{
    reveal(key_block::key_block);
    reveal(key_block::key_modes);
    let sa = key_block::key_modes(plan, t, a, mi.0, mi.1, side, modes.0, modes.1);
    let sb = key_block::key_modes(plan, t, b, mi.0, mi.1, side, modes.0, modes.1);
    assert(state::same_state(sa, sb));
    lemma_residual_left(plan, sa, sb, a, b, mi, side);
}

/// Their residuals leave the same behind.
proof fn lemma_residual_left(
    plan: FramePlan,
    s: TileView,
    t: TileView,
    a: BlockCoeffs,
    b: BlockCoeffs,
    mi: (int, int),
    side: int,
)
    requires
        state::same_state(s, t),
        0 <= mi.0 < s.bands.mi_rows,
        0 <= mi.1 < s.bands.mi_cols,
        is_sized(plan, a, side),
        is_sized(plan, b, side),
        same_key_residual(plan, s.bands, a, b, mi, side),
        a.mode == b.mode,
        key_row(a) == key_row(b),
        units_read_back::same_cells(
            select_left(plan, s.bands, a, mi, side).bands,
            select_left(plan, s.bands, b, mi, side).bands,
        ),
    ensures
        ({
            let (ya, ua, va) = key_levels(a, side);
            let (yb, ub, vb) = key_levels(b, side);
            state::same_state(
                key_block::key_residual(plan, s, a, mi.0, mi.1, side, ya, ua, va).tile,
                key_block::key_residual(plan, t, b, mi.0, mi.1, side, yb, ub, vb).tile,
            )
        }),
{
    reveal(key_block::key_residual);
    lemma_residual_own(plan, s, a, mi, side);
    lemma_residual_own(plan, t, b, mi, side);
    let la = key_luma(plan, a, mi.0, mi.1, side);
    let lb = key_luma(plan, b, mi.0, mi.1, side);
    let (ya, ua, va) = key_levels(a, side);
    let (yb, ub, vb) = key_levels(b, side);
    let wa = select_left(plan, s.bands, a, mi, side).bands;
    let wb = select_left(plan, s.bands, b, mi, side).bands;
    if plan.tx_select {
        assert(la.side / la.tx >= 0) by (nonlinear_arith)
            requires
                la.side >= 0,
                la.tx > 0,
        ;
        assert(la == key_block::key_units(a, mi.0, mi.1, side, key_row(a), ya));
        assert(lb == key_block::key_units(b, mi.0, mi.1, side, key_row(b), yb));
        let va = Written { ops: s.ops, bands: s.bands };
        let vb = Written { ops: t.ops, bands: t.bands };
        lemma_select_own(plan, va, la, a.tx_depth as int);
        lemma_select_own(plan, vb, lb, b.tx_depth as int);
    }
    assert(wa =~= wb);
    let whole = !(plan.tx_select && la.tx < side);
    if whole {
        vstd::arithmetic::div_mod::lemma_div_by_self(side);
        assert(units_read_back::is_unit_inside(s.bands, la, 0, 0));
        assert(units_read_back::is_unit_told(la, lb, 0, 0));
        reveal(units_read_back::unit_levels);
        assert(ya == yb);
    }
    residual_read_back::lemma_planes_change(
        neighbours::after_mode(wa, mi.0 / 4, mi.1 / 4, side / 16, a.mode as usize),
        mi,
        side,
        neighbours::states_of(ya, ua, va),
        neighbours::states_of(yb, ub, vb),
        whole,
        plan.screen,
    );
}

/// A block of a key frame adds its own to a tile and keeps its frame; to two
/// tiles that differ in nothing but their symbols it does the same, and adds
/// what looks the same to a decoder.
pub proof fn blocks_do_the_same_to_like_tiles(
    plan: FramePlan,
    motion: Seq<MotionContext>,
    s: TileView,
    t: TileView,
    block: BlockCoeffs,
    mi: (int, int),
    side: int,
    modes: (int, int),
)
    requires
        intra::is_block_side(side),
        0 <= mi.0 < s.bands.mi_rows,
        0 <= mi.1 < s.bands.mi_cols,
        key_block::is_key_block(plan, block, side),
        key_block::key_block(
            plan,
            motion,
            s,
            block,
            mi.0,
            mi.1,
            side,
            modes.0,
            modes.1,
        ).fault is None,
        state::same_state(s, t),
        read_back::coded(s.ops) == read_back::coded(t.ops),
    ensures
        ({
            let a = key_block::key_block(
                plan,
                motion,
                s,
                block,
                mi.0,
                mi.1,
                side,
                modes.0,
                modes.1,
            );
            let b = key_block::key_block(
                plan,
                motion,
                t,
                block,
                mi.0,
                mi.1,
                side,
                modes.0,
                modes.1,
            );
            &&& b.fault is None
            &&& s.ops.is_prefix_of(a.tile.ops)
            &&& state::same_frame(s.bands, a.tile.bands)
            &&& state::same_state(a.tile, b.tile)
            &&& read_back::coded(a.tile.ops) == read_back::coded(b.tile.ops)
        }),
{
    lemma_no_fault(plan, motion, s, block, mi, side, modes);
    let none = Seq::<Op>::empty();
    match block.dv {
        Some(dv) => {
            reveal(key_block::key_block);
            lemma_copied_moves(plan, motion, s, t, dv, mi, side);
            lemma_copied(plan, motion, s, dv, mi, side, none);
            lemma_copied(plan, motion, t, dv, mi, side, none);
        },
        None => {
            lemma_intra_moves(plan, motion, s, t, block, mi, side, modes);
            lemma_intra(plan, motion, s, block, mi, side, modes, none);
            lemma_intra(plan, motion, t, block, mi, side, modes, none);
        },
    }
    let a = key_block::key_block(plan, motion, s, block, mi.0, mi.1, side, modes.0, modes.1);
    let b = key_block::key_block(plan, motion, t, block, mi.0, mi.1, side, modes.0, modes.1);
    assert(read_back::coded(a.tile.ops) + none =~= read_back::coded(a.tile.ops));
    assert(read_back::coded(b.tile.ops) + none =~= read_back::coded(b.tile.ops));
}

proof fn lemma_copied_moves(
    plan: FramePlan,
    motion: Seq<MotionContext>,
    s: TileView,
    t: TileView,
    dv: (i32, i32),
    mi: (int, int),
    side: int,
)
    requires
        state::same_state(s, t),
        key_block::copied_block(plan, motion, s, dv, mi.0, mi.1, side).fault is None,
    ensures
        ({
            let a = key_block::copied_block(plan, motion, s, dv, mi.0, mi.1, side);
            let b = key_block::copied_block(plan, motion, t, dv, mi.0, mi.1, side);
            &&& b.fault is None
            &&& s.ops.is_prefix_of(a.tile.ops)
            &&& state::same_frame(s.bands, a.tile.bands)
            &&& state::same_state(a.tile, b.tile)
        }),
{
    reveal(key_block::copied_block);
    let a = key_block::copied_block(plan, motion, s, dv, mi.0, mi.1, side);
    assert(a.tile.ops.subrange(0, s.ops.len() as int) =~= s.ops);
}

proof fn lemma_intra_moves(
    plan: FramePlan,
    motion: Seq<MotionContext>,
    s: TileView,
    t: TileView,
    block: BlockCoeffs,
    mi: (int, int),
    side: int,
    modes: (int, int),
)
    requires
        state::same_state(s, t),
        0 <= mi.0 < s.bands.mi_rows,
        0 <= mi.1 < s.bands.mi_cols,
        block.dv is None,
        is_sized(plan, block, side),
        key_block::block_levels(block, key_block::luma_side(side), side / 2) is Ok,
    ensures
        ({
            let a = key_block::key_block(
                plan,
                motion,
                s,
                block,
                mi.0,
                mi.1,
                side,
                modes.0,
                modes.1,
            );
            let b = key_block::key_block(
                plan,
                motion,
                t,
                block,
                mi.0,
                mi.1,
                side,
                modes.0,
                modes.1,
            );
            &&& a.fault is None
            &&& b.fault is None
            &&& s.ops.is_prefix_of(a.tile.ops)
            &&& state::same_frame(s.bands, a.tile.bands)
            &&& state::same_state(a.tile, b.tile)
        }),
{
    reveal(key_block::key_block);
    reveal(key_block::key_modes);
    let sa = key_block::key_modes(plan, s, block, mi.0, mi.1, side, modes.0, modes.1);
    let sb = key_block::key_modes(plan, t, block, mi.0, mi.1, side, modes.0, modes.1);
    assert(state::same_state(sa, sb));
    lemma_residual_own(plan, sa, block, mi, side);
    lemma_residual_own(plan, sb, block, mi, side);
    lemma_residual_left(plan, sa, sb, block, block, mi, side);
    let (y, u, v) = key_levels(block, side);
    let done = key_block::key_residual(plan, sa, block, mi.0, mi.1, side, y, u, v);
    assert(done.tile.ops.subrange(0, s.ops.len() as int) =~= s.ops);
    assert(state::same_frame(sa.bands, done.tile.bands)) by {
        reveal(key_block::key_residual);
        residual::select_keeps_the_frame(
            plan,
            Written { ops: sa.ops, bands: sa.bands },
            key_block::key_units(block, mi.0, mi.1, side, key_row(block), y),
            block.tx_depth as int,
        );
    }
}

/// A block of a key frame leaves palettes that ascend where it found such.
pub proof fn key_blocks_keep_palettes_in_order(
    plan: FramePlan,
    motion: Seq<MotionContext>,
    t: TileView,
    block: BlockCoeffs,
    mi: (int, int),
    side: int,
    modes: (int, int),
)
    requires
        intra::is_block_side(side),
        key_block::is_key_block(plan, block, side),
        palette_bands::are_ordered(t.bands),
        key_block::key_block(
            plan,
            motion,
            t,
            block,
            mi.0,
            mi.1,
            side,
            modes.0,
            modes.1,
        ).fault is None,
    ensures
        palette_bands::are_ordered(
            key_block::key_block(
                plan,
                motion,
                t,
                block,
                mi.0,
                mi.1,
                side,
                modes.0,
                modes.1,
            ).tile.bands,
        ),
{
    lemma_no_fault(plan, motion, t, block, mi, side, modes);
    reveal(key_block::key_block);
    match block.dv {
        Some(dv) => {
            reveal(key_block::copied_block);
            lemma_copied_order(t.bands, mi, side, plan.screen);
        },
        None => {
            reveal(key_block::key_modes);
            reveal(key_block::key_residual);
            let moded = key_block::key_modes(
                plan,
                t,
                block,
                mi.0,
                mi.1,
                side,
                modes.0,
                modes.1,
            );
            palette_bands::lemma_pending(plan, t.bands, block, side, side < 64);
            let (y, u, v) = key_levels(block, side);
            let w = Written { ops: moded.ops, bands: moded.bands };
            let l = key_block::key_units(block, mi.0, mi.1, side, key_row(block), y);
            lemma_select_order(plan, w, l, block.tx_depth as int);
            let left = if plan.tx_select {
                residual::select_written(plan, w, l, block.tx_depth as int).bands
            } else {
                moded.bands
            };
            let whole = !(plan.tx_select && residual::halved(side, block.tx_depth as int) < side);
            palette_bands::lemma_mode(
                left,
                (mi.0 / 4, mi.1 / 4),
                side / 16,
                block.mode as usize,
            );
            let named = neighbours::after_mode(
                left,
                mi.0 / 4,
                mi.1 / 4,
                side / 16,
                block.mode as usize,
            );
            let states = neighbours::states_of(y, u, v);
            palette_bands::lemma_planes(named, mi, side, states, whole, plan.screen);
            palette_bands::lemma_plain_change(
                neighbours::after_planes(named, mi.0, mi.1, side, states, whole, plan.screen),
                mi,
                side / 4,
                neighbours::Change::Skip(false),
            );
        },
    }
}

proof fn lemma_select_order(plan: FramePlan, w: Written, l: LumaUnits, depth: int)
    requires
        palette_bands::are_ordered(w.bands),
    ensures
        palette_bands::are_ordered(residual::select_written(plan, w, l, depth).bands),
{
    reveal(residual::select_written);
    let ctx = neighbours::spec_tx_size_ctx(w.bands, l.mi_r, l.mi_c, l.side);
    let said = Written {
        ops: w.ops.push(
            ops::symbol(
                depth,
                Cdf::TxSize(residual::tx_category(l.side) as usize, ctx as usize),
            ),
        ),
        ..w
    };
    palette_bands::lemma_units(plan, said, l);
    palette_bands::lemma_plain_change(
        residual::luma_written(plan, said, l).bands,
        (l.mi_r, l.mi_c),
        l.side / 4,
        neighbours::Change::Tx(l.tx as u8),
    );
}

proof fn lemma_copied_order(b: Bands, mi: (int, int), side: int, screen: bool)
    requires
        palette_bands::are_ordered(b),
    ensures
        palette_bands::are_ordered(key_block::copied_bands(b, mi.0, mi.1, side, screen)),
{
    let zero = seq![0i32];
    let count = if side < 16 {
        1
    } else {
        side / 16
    };
    let states = neighbours::states_of(zero, zero, zero);
    palette_bands::lemma_mode(b, (mi.0 / 4, mi.1 / 4), count, neighbours::DC_PRED);
    let moded = neighbours::after_mode(b, mi.0 / 4, mi.1 / 4, count, neighbours::DC_PRED);
    palette_bands::lemma_planes(moded, mi, side, states, true, screen);
    let planes = neighbours::after_planes(moded, mi.0, mi.1, side, states, true, screen);
    palette_bands::lemma_plain_change(
        planes,
        mi,
        side / 4,
        neighbours::Change::Tx(side as u8),
    );
    palette_bands::lemma_plain_change(
        neighbours::after_tx(planes, mi.0, mi.1, side, side),
        mi,
        side / 4,
        neighbours::Change::Skip(true),
    );
}

} // verus!
