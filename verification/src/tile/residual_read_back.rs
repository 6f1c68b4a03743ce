//! What a decoder reads back of a block's transform sizes and its residual.
use crate::tile::blocks::BlockCoeffs;
use crate::tile::inter_block;
use crate::tile::intra;
use crate::tile::key_block;
use crate::tile::levels;
use crate::tile::neighbours;
use crate::tile::neighbours::Bands;
use crate::tile::ops;
use crate::tile::ops::Op;
use crate::tile::palette_bands;
use crate::tile::plans::FramePlan;
use crate::tile::read_back;
use crate::tile::residual;
use crate::tile::residual::{LumaUnits, PlaneSets, TxWritten, Written};
use crate::tile::state;
use crate::tile::state::TileView;
use crate::tile::units_read_back;
use crate::transform::tx_type::TxType;
use vstd::prelude::*;

verus! {

/// Nothing written yet.
pub open spec fn bare(bands: Bands) -> Written {
    Written { ops: Seq::empty(), bands }
}

/// Whether two sequences are one after the same parts.
pub proof fn lemma_joined(a: Seq<Op>, b: Seq<Op>, c: Seq<Op>)
    ensures
        (a + b) + c == a + (b + c),
{
    assert((a + b) + c =~= a + (b + c));
}

/// The planes' symbols do not depend on the palettes about to be left.
proof fn lemma_same_planes(
    plan: FramePlan,
    a: Bands,
    b: Bands,
    mi: (int, int),
    side: int,
    sets: PlaneSets,
    mode: usize,
    skip_luma: bool,
    tx: TxType,
    grids: (Seq<i32>, Seq<i32>, Seq<i32>),
)
    requires
        units_read_back::same_cells(a, b),
    ensures
        residual::planes_ops(
            plan,
            a,
            mi.0,
            mi.1,
            side,
            sets,
            mode,
            skip_luma,
            tx,
            grids.0,
            grids.1,
            grids.2,
        ) == residual::planes_ops(
            plan,
            b,
            mi.0,
            mi.1,
            side,
            sets,
            mode,
            skip_luma,
            tx,
            grids.0,
            grids.1,
            grids.2,
        ),
{
    reveal(residual::planes_ops);
}

/// The planes leave no marks.
pub proof fn lemma_planes_unmarked(
    plan: FramePlan,
    b: Bands,
    mi: (int, int),
    side: int,
    sets: PlaneSets,
    mode: usize,
    skip_luma: bool,
    tx: TxType,
    grids: (Seq<i32>, Seq<i32>, Seq<i32>),
)
    ensures
        ({
            let all = residual::planes_ops(
                plan,
                b,
                mi.0,
                mi.1,
                side,
                sets,
                mode,
                skip_luma,
                tx,
                grids.0,
                grids.1,
                grids.2,
            );
            read_back::coded(all) == all
        }),
{
    reveal(residual::planes_ops);
    let luma = residual::plane_coding(plan, b, mi.0, mi.1, side, sets.y, mode, 0, tx);
    let first = residual::plane_coding(plan, b, mi.0, mi.1, side, sets.uv, mode, 1, tx);
    let second = residual::plane_coding(plan, b, mi.0, mi.1, side, sets.uv, mode, 2, tx);
    read_back::coefficients_are_unmarked(luma, grids.0);
    read_back::coefficients_are_unmarked(first, grids.1);
    read_back::coefficients_are_unmarked(second, grids.2);
    read_back::lemma_unmarked(
        residual::planes_ops(
            plan,
            b,
            mi.0,
            mi.1,
            side,
            sets,
            mode,
            skip_luma,
            tx,
            grids.0,
            grids.1,
            grids.2,
        ),
    );
}

/// An inter frame's transform syntax adds its own symbols to those before it,
/// none of them a mark, and keeps the palettes about to be left.
proof fn lemma_syntax_own(
    w: Written,
    mi: (int, int),
    side: int,
    inter: bool,
    skip: bool,
    depth: int,
)
    ensures
        ({
            let all = residual::tx_inter_written(w, mi.0, mi.1, side, inter, skip, depth);
            let own = residual::tx_inter_written(
                bare(w.bands),
                mi.0,
                mi.1,
                side,
                inter,
                skip,
                depth,
            );
            &&& all.w.ops == w.ops + own.w.ops
            &&& all.w.bands == own.w.bands
            &&& all.tx == own.tx
            &&& all.w.bands.pending == w.bands.pending
            &&& all.w.bands.pending_uv == w.bands.pending_uv
            &&& read_back::coded(own.w.ops) == own.w.ops
        }),
{
    reveal(residual::tx_inter_written);
    let all = residual::tx_inter_written(w, mi.0, mi.1, side, inter, skip, depth);
    let own = residual::tx_inter_written(bare(w.bands), mi.0, mi.1, side, inter, skip, depth);
    assert(all.w.ops =~= w.ops + own.w.ops);
    read_back::lemma_unmarked(own.w.ops);
}

/// An inter frame's transform syntax reads back: whether an inter block's
/// transform is halved, and how often an intra block's is.
proof fn lemma_syntax_told(
    a: Bands,
    b: Bands,
    mi: (int, int),
    side: int,
    inter: bool,
    skip: bool,
    depth: (int, int),
    x: Seq<Op>,
    y: Seq<Op>,
)
    requires
        units_read_back::same_cells(a, b),
        0 <= depth.0 <= 255,
        0 <= depth.1 <= 255,
        residual::tx_inter_written(bare(a), mi.0, mi.1, side, inter, skip, depth.0).w.ops + x
            == residual::tx_inter_written(bare(b), mi.0, mi.1, side, inter, skip, depth.1).w.ops
            + y,
    ensures
        x == y,
        inter && !skip ==> (depth.0 == 0) == (depth.1 == 0),
        !inter ==> depth.0 == depth.1,
        ({
            let s = residual::tx_inter_written(bare(a), mi.0, mi.1, side, inter, skip, depth.0);
            let t = residual::tx_inter_written(bare(b), mi.0, mi.1, side, inter, skip, depth.1);
            s.tx == t.tx && units_read_back::same_cells(s.w.bands, t.w.bands)
        }),
{
    reveal(residual::tx_inter_written);
    let s = residual::tx_inter_written(bare(a), mi.0, mi.1, side, inter, skip, depth.0);
    let t = residual::tx_inter_written(bare(b), mi.0, mi.1, side, inter, skip, depth.1);
    if inter && skip {
        read_back::lemma_parts(s.w.ops, x, t.w.ops, y);
    } else {
        assert((s.w.ops + x)[0] == s.w.ops[0]);
        assert((t.w.ops + y)[0] == t.w.ops[0]);
        read_back::lemma_parts(s.w.ops, x, t.w.ops, y);
    }
}

/// The levels of a block's planes are levels.
pub proof fn lemma_block_levels(block: BlockCoeffs, y_side: int, uv_side: int)
    requires
        0 <= y_side,
        0 <= uv_side,
        key_block::block_levels(block, y_side, uv_side) is Ok,
    ensures
        ({
            let (y, u, v) = key_block::block_levels(block, y_side, uv_side)->Ok_0;
            &&& levels::is_grid(y, y_side)
            &&& levels::is_grid(u, uv_side)
            &&& levels::is_grid(v, uv_side)
        }),
{
    levels::level_grids_hold_their_coefficients(block.luma@, y_side, block.luma@.len() as int);
    levels::level_grids_hold_their_coefficients(block.u@, uv_side, block.u@.len() as int);
    levels::level_grids_hold_their_coefficients(block.v@, uv_side, block.v@.len() as int);
}

/// The planes of a block read back from neighbours that hold the same.
pub proof fn lemma_planes_told(
    plan: FramePlan,
    bands: (Bands, Bands),
    mi: (int, int),
    side: int,
    sets: PlaneSets,
    mode: usize,
    skip_luma: bool,
    tx: (TxType, TxType),
    a: (Seq<i32>, Seq<i32>, Seq<i32>),
    b: (Seq<i32>, Seq<i32>, Seq<i32>),
    x: Seq<Op>,
    y: Seq<Op>,
)
    requires
        units_read_back::same_cells(bands.0, bands.1),
        !skip_luma ==> levels::is_grid(a.0, ops::coeff_side(sets.y)),
        !skip_luma ==> levels::is_grid(b.0, ops::coeff_side(sets.y)),
        levels::is_grid(a.1, ops::coeff_side(sets.uv)),
        levels::is_grid(b.1, ops::coeff_side(sets.uv)),
        levels::is_grid(a.2, ops::coeff_side(sets.uv)),
        levels::is_grid(b.2, ops::coeff_side(sets.uv)),
        !skip_luma && read_back::holds_any(a.0) && read_back::holds_any(b.0)
            ==> read_back::are_told(sets.y, plan.reduced_tx_set, tx.0, tx.1),
        residual::planes_ops(
            plan,
            bands.0,
            mi.0,
            mi.1,
            side,
            sets,
            mode,
            skip_luma,
            tx.0,
            a.0,
            a.1,
            a.2,
        ) + x == residual::planes_ops(
            plan,
            bands.1,
            mi.0,
            mi.1,
            side,
            sets,
            mode,
            skip_luma,
            tx.1,
            b.0,
            b.1,
            b.2,
        ) + y,
    ensures
        !skip_luma ==> a.0 == b.0 && (read_back::holds_any(a.0) ==> tx.0 == tx.1),
        a.1 == b.1,
        a.2 == b.2,
        x == y,
{
    lemma_same_planes(plan, bands.0, bands.1, mi, side, sets, mode, skip_luma, tx.1, b);
    read_back::planes_read_back(
        plan,
        bands.0,
        mi,
        side,
        sets,
        mode,
        skip_luma,
        tx,
        a,
        b,
        x,
        y,
    );
}

/// The side of the luma transform that an inter frame's syntax names.
pub open spec fn named_tx(plan: FramePlan, block: BlockCoeffs, side: int) -> int {
    if !plan.tx_select {
        side
    } else if block.inter is None {
        residual::halved(side, block.tx_depth as int)
    } else if block.skip || block.tx_depth == 0 {
        side
    } else {
        side / 2
    }
}

/// The side of a block's luma transforms in an inter frame.
pub open spec fn unit_side(plan: FramePlan, block: BlockCoeffs, side: int) -> int {
    let tx = named_tx(plan, block, side);
    if !inter_block::is_split(block, side, tx) {
        side
    } else if side == 64 {
        32
    } else {
        tx
    }
}

/// The levels of a block of an inter frame.
pub open spec fn inter_levels(plan: FramePlan, block: BlockCoeffs, side: int) -> (
    Seq<i32>,
    Seq<i32>,
    Seq<i32>,
) {
    let split = inter_block::is_split(block, side, named_tx(plan, block, side));
    key_block::block_levels(block, inter_block::levels_side(side, split), side / 2)->Ok_0
}

/// The luma transforms of a block of an inter frame, one where it is not split.
pub open spec fn inter_luma(
    plan: FramePlan,
    block: BlockCoeffs,
    mi_r: int,
    mi_c: int,
    side: int,
) -> LumaUnits {
    LumaUnits {
        mi_r,
        mi_c,
        side,
        tx: unit_side(plan, block, side),
        mode: inter_block::row_of(block),
        inter: block.inter is Some,
        grid: inter_levels(plan, block, side).0,
        types: block.luma_tx_types@,
    }
}

/// Whether each of a block's luma transforms that lies in the frame and has
/// levels is of a type its set offers.
pub open spec fn is_typed(plan: FramePlan, b: Bands, l: LumaUnits) -> bool {
    forall|r: int, c: int|
        0 <= r < l.side / l.tx && 0 <= c < l.side / l.tx && units_read_back::is_unit_inside(
            b,
            l,
            r,
            c,
        ) && read_back::holds_any(#[trigger] units_read_back::unit_levels(l, r, c))
            ==> read_back::is_offered(
            residual::luma_set(l.tx, l.inter),
            plan.reduced_tx_set,
            units_read_back::unit_type(l, r, c),
        )
}

/// Whether two blocks have the same luma transforms, as far as they lie in the
/// frame.
pub open spec fn same_luma(b: Bands, l: LumaUnits, m: LumaUnits) -> bool {
    &&& l.tx == m.tx
    &&& forall|r: int, c: int|
        0 <= r < l.side / l.tx && 0 <= c < l.side / l.tx && units_read_back::is_unit_inside(
            b,
            l,
            r,
            c,
        ) ==> #[trigger] units_read_back::is_unit_told(l, m, r, c)
}

/// What the transform syntax of a block of an inter frame leaves.
pub open spec fn syntax_left(
    plan: FramePlan,
    bands: Bands,
    block: BlockCoeffs,
    mi: (int, int),
    side: int,
) -> TxWritten {
    if plan.tx_select {
        residual::tx_inter_written(
            bare(bands),
            mi.0,
            mi.1,
            side,
            block.inter is Some,
            block.skip,
            block.tx_depth as int,
        )
    } else {
        TxWritten { w: bare(bands), tx: side }
    }
}

/// What its luma transforms leave, where there are several.
pub open spec fn luma_left(
    plan: FramePlan,
    bands: Bands,
    block: BlockCoeffs,
    mi: (int, int),
    side: int,
) -> Written {
    let l = inter_luma(plan, block, mi.0, mi.1, side);
    if l.tx < side {
        residual::luma_written(plan, bare(bands), l)
    } else {
        bare(bands)
    }
}

/// The symbols of its planes after that.
pub open spec fn planes_left(
    plan: FramePlan,
    bands: Bands,
    block: BlockCoeffs,
    mi: (int, int),
    side: int,
) -> Seq<Op> {
    let (y, u, v) = inter_levels(plan, block, side);
    residual::planes_ops(
        plan,
        bands,
        mi.0,
        mi.1,
        side,
        inter_block::inter_sets(side, block.inter is Some),
        inter_block::row_of(block),
        unit_side(plan, block, side) < side,
        residual::type_at(block.luma_tx_types@, 0),
        y,
        u,
        v,
    )
}

/// The symbols of its transform syntax and its residual.
#[verifier::opaque]
pub open spec fn residual_ops(
    plan: FramePlan,
    bands: Bands,
    block: BlockCoeffs,
    mi: (int, int),
    side: int,
) -> Seq<Op> {
    let s = syntax_left(plan, bands, block, mi, side);
    if block.skip {
        s.w.ops
    } else {
        let w = luma_left(plan, s.w.bands, block, mi, side);
        s.w.ops + (w.ops + planes_left(plan, w.bands, block, mi, side))
    }
}

/// A block's size and depth as an inter frame's writer takes them.
pub open spec fn is_sized(plan: FramePlan, block: BlockCoeffs, side: int) -> bool {
    &&& intra::is_block_side(side)
    &&& block.inter is None ==> side < 64
    &&& block.inter is None && plan.tx_select ==> residual::is_depth(side, block.tx_depth as int)
}

/// Whether a whole superblock's depth is one its syntax names: none, or one
/// where the frame lets blocks choose.
pub open spec fn is_named_depth(plan: FramePlan, block: BlockCoeffs, side: int) -> bool {
    side == 64 ==> block.tx_depth == 0 || (plan.tx_select && block.tx_depth == 1)
}

proof fn lemma_syntax_left(
    plan: FramePlan,
    t: TileView,
    block: BlockCoeffs,
    mi: (int, int),
    side: int,
)
    requires
        is_sized(plan, block, side),
    ensures
        ({
            let all = inter_block::syntax(plan, t, block, mi.0, mi.1, side);
            let own = syntax_left(plan, t.bands, block, mi, side);
            &&& all.w.ops == t.ops + own.w.ops
            &&& all.w.bands == own.w.bands
            &&& all.tx == own.tx
            &&& own.tx == named_tx(plan, block, side)
            &&& own.w.bands.pending == t.bands.pending
            &&& own.w.bands.pending_uv == t.bands.pending_uv
            &&& state::same_frame(t.bands, own.w.bands)
            &&& read_back::coded(own.w.ops) == own.w.ops
        }),
{
    let w = Written { ops: t.ops, bands: t.bands };
    if plan.tx_select {
        lemma_syntax_own(
            w,
            mi,
            side,
            block.inter is Some,
            block.skip,
            block.tx_depth as int,
        );
        residual::tx_syntax_keeps_the_frame(
            bare(t.bands),
            mi.0,
            mi.1,
            side,
            block.inter is Some,
            block.skip,
            block.tx_depth as int,
        );
        reveal(residual::tx_inter_written);
    } else {
        assert(t.ops + Seq::<Op>::empty() =~= t.ops);
    }
}

/// A block's luma transforms can be written.
proof fn lemma_units(
    plan: FramePlan,
    bands: Bands,
    block: BlockCoeffs,
    mi: (int, int),
    side: int,
)
    requires
        is_sized(plan, block, side),
        neighbours::is_at(bands, mi.0, mi.1, side / 4),
        ({
            let split = inter_block::is_split(block, side, named_tx(plan, block, side));
            key_block::block_levels(block, inter_block::levels_side(side, split), side / 2) is Ok
        }),
    ensures
        residual::are_units(bands, inter_luma(plan, block, mi.0, mi.1, side)),
        ({
            let (y, u, v) = inter_levels(plan, block, side);
            let sets = inter_block::inter_sets(side, block.inter is Some);
            &&& levels::is_grid(u, ops::coeff_side(sets.uv))
            &&& levels::is_grid(v, ops::coeff_side(sets.uv))
            &&& unit_side(plan, block, side) == side ==> levels::is_grid(
                y,
                ops::coeff_side(sets.y),
            )
        }),
{
    let split = inter_block::is_split(block, side, named_tx(plan, block, side));
    lemma_block_levels(block, inter_block::levels_side(side, split), side / 2);
}

/// What a block of an inter frame adds with its transform syntax and its
/// residual: its own symbols, none of them a mark.
pub proof fn lemma_residual_own(
    plan: FramePlan,
    t: TileView,
    block: BlockCoeffs,
    mi: (int, int),
    side: int,
)
    requires
        is_sized(plan, block, side),
        inter_block::inter_residual(plan, t, block, mi.0, mi.1, side).fault is None,
    ensures
        inter_block::inter_residual(plan, t, block, mi.0, mi.1, side).tile.ops == t.ops
            + residual_ops(plan, t.bands, block, mi, side),
        read_back::coded(residual_ops(plan, t.bands, block, mi, side)) == residual_ops(
            plan,
            t.bands,
            block,
            mi,
            side,
        ),
        is_laid_out(plan, block, side),
{
    reveal(inter_block::inter_residual);
    reveal(residual_ops);
    lemma_syntax_left(plan, t, block, mi, side);
    if !block.skip {
        reveal(inter_block::inter_planes);
        let s = syntax_left(plan, t.bands, block, mi, side);
        let sized = TileView { ops: t.ops + s.w.ops, bands: s.w.bands, ..t };
        let l = inter_luma(plan, block, mi.0, mi.1, side);
        let w0 = Written { ops: sized.ops, bands: sized.bands };
        let w = luma_left(plan, s.w.bands, block, mi, side);
        let planes = planes_left(plan, w.bands, block, mi, side);
        let (y, u, v) = inter_levels(plan, block, side);
        if l.tx < side {
            assert(l.side / l.tx >= 0) by (nonlinear_arith)
                requires
                    l.side >= 0,
                    l.tx > 0,
            ;
            units_read_back::units_add_their_own(plan, w0, l);
            assert(l == inter_block::inter_units(block, mi.0, mi.1, side, s.tx, y));
            assert(read_back::coded(w.ops) == w.ops);
        } else {
            assert(sized.ops + Seq::<Op>::empty() =~= sized.ops);
        }
        lemma_planes_unmarked(
            plan,
            w.bands,
            mi,
            side,
            inter_block::inter_sets(side, block.inter is Some),
            inter_block::row_of(block),
            l.tx < side,
            residual::type_at(block.luma_tx_types@, 0),
            (y, u, v),
        );
        read_back::marks_are_not_coded(w.ops, planes);
        read_back::marks_are_not_coded(s.w.ops, w.ops + planes);
        lemma_joined(t.ops, s.w.ops, w.ops + planes);
        lemma_joined(t.ops + s.w.ops, w.ops, planes);
    }
}

/// Whether a block that is not skipped has levels that can be laid out.
pub open spec fn is_laid_out(plan: FramePlan, block: BlockCoeffs, side: int) -> bool {
    let split = inter_block::is_split(block, side, named_tx(plan, block, side));
    !block.skip ==> key_block::block_levels(
        block,
        inter_block::levels_side(side, split),
        side / 2,
    ) is Ok
}

/// Whether two blocks of an inter frame have the same residual: none, or the
/// same transforms in the frame with the same levels.
pub open spec fn same_inter_residual(
    plan: FramePlan,
    bands: Bands,
    a: BlockCoeffs,
    b: BlockCoeffs,
    mi: (int, int),
    side: int,
) -> bool {
    &&& plan.tx_select && a.inter is None ==> a.tx_depth == b.tx_depth
    &&& !a.skip ==> {
        &&& same_luma(
            bands,
            inter_luma(plan, a, mi.0, mi.1, side),
            inter_luma(plan, b, mi.0, mi.1, side),
        )
        &&& inter_levels(plan, a, side).1 == inter_levels(plan, b, side).1
        &&& inter_levels(plan, a, side).2 == inter_levels(plan, b, side).2
    }
}

/// The luma transforms of two blocks tell their types apart where each is
/// offered its own.
pub proof fn lemma_types(plan: FramePlan, bands: Bands, l: LumaUnits, m: LumaUnits)
    requires
        units_read_back::are_alike(l, m),
        is_typed(plan, bands, l),
        is_typed(plan, bands, m),
    ensures
        units_read_back::are_types_told(plan, bands, l, m),
{
    assert forall|r: int, c: int|
        0 <= r < l.side / l.tx && 0 <= c < l.side / l.tx && units_read_back::is_unit_inside(
            bands,
            l,
            r,
            c,
        ) && read_back::holds_any(#[trigger] units_read_back::unit_levels(l, r, c))
            && read_back::holds_any(units_read_back::unit_levels(m, r, c)) implies read_back::are_told(
        residual::luma_set(l.tx, l.inter),
        plan.reduced_tx_set,
        units_read_back::unit_type(l, r, c),
        units_read_back::unit_type(m, r, c),
    ) by {
        assert(units_read_back::is_unit_inside(bands, m, r, c));
        assert(read_back::holds_any(units_read_back::unit_levels(m, r, c)));
    }
}

/// The only luma transform of a block is told with its planes.
pub proof fn lemma_whole_luma(bands: Bands, l: LumaUnits, m: LumaUnits)
    requires
        units_read_back::are_alike(l, m),
        l.tx == l.side,
        l.side > 0,
        l.grid == m.grid,
        read_back::holds_any(l.grid) ==> residual::type_at(l.types, 0) == residual::type_at(
            m.types,
            0,
        ),
    ensures
        same_luma(bands, l, m),
{
    vstd::arithmetic::div_mod::lemma_div_by_self(l.side);
    assert forall|r: int, c: int|
        0 <= r < l.side / l.tx && 0 <= c < l.side / l.tx implies units_read_back::is_unit_told(
        l,
        m,
        r,
        c,
    ) by {
        reveal(units_read_back::unit_levels);
        assert(r == 0 && c == 0);
    }
}

/// What the luma transforms and the planes of two blocks tell.
proof fn lemma_body_told(
    plan: FramePlan,
    s: Bands,
    t: Bands,
    a: BlockCoeffs,
    b: BlockCoeffs,
    mi: (int, int),
    side: int,
    x: Seq<Op>,
    y: Seq<Op>,
)
    requires
        units_read_back::same_cells(s, t),
        neighbours::is_at(s, mi.0, mi.1, side / 4),
        0 <= mi.0 < s.mi_rows,
        0 <= mi.1 < s.mi_cols,
        is_sized(plan, a, side),
        is_sized(plan, b, side),
        !a.skip && !b.skip,
        (a.inter is Some) == (b.inter is Some),
        inter_block::row_of(a) == inter_block::row_of(b),
        unit_side(plan, a, side) == unit_side(plan, b, side),
        is_laid_out(plan, a, side),
        is_laid_out(plan, b, side),
        is_typed(plan, s, inter_luma(plan, a, mi.0, mi.1, side)),
        is_typed(plan, s, inter_luma(plan, b, mi.0, mi.1, side)),
        ({
            let v = luma_left(plan, s, a, mi, side);
            let w = luma_left(plan, t, b, mi, side);
            v.ops + (planes_left(plan, v.bands, a, mi, side) + x) == w.ops + (planes_left(
                plan,
                w.bands,
                b,
                mi,
                side,
            ) + y)
        }),
    ensures
        x == y,
        same_luma(
            s,
            inter_luma(plan, a, mi.0, mi.1, side),
            inter_luma(plan, b, mi.0, mi.1, side),
        ),
        inter_levels(plan, a, side).1 == inter_levels(plan, b, side).1,
        inter_levels(plan, a, side).2 == inter_levels(plan, b, side).2,
        units_read_back::same_cells(
            luma_left(plan, s, a, mi, side).bands,
            luma_left(plan, t, b, mi, side).bands,
        ),
{
    let l = inter_luma(plan, a, mi.0, mi.1, side);
    let m = inter_luma(plan, b, mi.0, mi.1, side);
    let v = luma_left(plan, s, a, mi, side);
    let w = luma_left(plan, t, b, mi, side);
    let pa = planes_left(plan, v.bands, a, mi, side) + x;
    let pb = planes_left(plan, w.bands, b, mi, side) + y;
    lemma_units(plan, s, a, mi, side);
    lemma_units(plan, s, b, mi, side);
    lemma_types(plan, s, l, m);
    if l.tx < side {
        units_read_back::luma_units_read_back(plan, bare(s), bare(t), l, m, pa, pb);
    } else {
        assert(Seq::<Op>::empty() + pa =~= pa);
        assert(Seq::<Op>::empty() + pb =~= pb);
        assert(units_read_back::unit_levels(l, 0, 0) == l.grid) by {
            reveal(units_read_back::unit_levels);
        }
        assert(units_read_back::unit_levels(m, 0, 0) == m.grid) by {
            reveal(units_read_back::unit_levels);
        }
        vstd::arithmetic::div_mod::lemma_div_by_self(side);
        assert(units_read_back::is_unit_inside(s, l, 0, 0));
        assert(units_read_back::unit_type(l, 0, 0) == residual::type_at(l.types, 0));
        assert(units_read_back::unit_type(m, 0, 0) == residual::type_at(m.types, 0));
    }
    lemma_planes_told(
        plan,
        (v.bands, w.bands),
        mi,
        side,
        inter_block::inter_sets(side, a.inter is Some),
        inter_block::row_of(a),
        l.tx < side,
        (
            residual::type_at(a.luma_tx_types@, 0),
            residual::type_at(b.luma_tx_types@, 0),
        ),
        inter_levels(plan, a, side),
        inter_levels(plan, b, side),
        x,
        y,
    );
    if l.tx >= side {
        lemma_whole_luma(s, l, m);
    }
}

/// A block's transform sizes and its residual read back in an inter frame: from
/// neighbours that hold the same, and whatever follows, their symbols tell each
/// transform's side, type and levels.
pub proof fn inter_residuals_read_back(
    plan: FramePlan,
    s: Bands,
    t: Bands,
    a: BlockCoeffs,
    b: BlockCoeffs,
    mi: (int, int),
    side: int,
    x: Seq<Op>,
    y: Seq<Op>,
)
    requires
        units_read_back::same_cells(s, t),
        neighbours::is_at(s, mi.0, mi.1, side / 4),
        0 <= mi.0 < s.mi_rows,
        0 <= mi.1 < s.mi_cols,
        is_sized(plan, a, side),
        is_sized(plan, b, side),
        is_named_depth(plan, a, side) || a.skip,
        is_named_depth(plan, b, side) || b.skip,
        a.skip == b.skip,
        (a.inter is Some) == (b.inter is Some),
        inter_block::row_of(a) == inter_block::row_of(b),
        is_laid_out(plan, a, side),
        is_laid_out(plan, b, side),
        !a.skip ==> is_typed(plan, s, inter_luma(plan, a, mi.0, mi.1, side)),
        !b.skip ==> is_typed(plan, s, inter_luma(plan, b, mi.0, mi.1, side)),
        residual_ops(plan, s, a, mi, side) + x == residual_ops(plan, t, b, mi, side) + y,
    ensures
        x == y,
        same_inter_residual(plan, s, a, b, mi, side),
        named_tx(plan, a, side) == named_tx(plan, b, side),
        units_read_back::same_cells(
            syntax_left(plan, s, a, mi, side).w.bands,
            syntax_left(plan, t, b, mi, side).w.bands,
        ),
        !a.skip ==> units_read_back::same_cells(
            luma_left(plan, syntax_left(plan, s, a, mi, side).w.bands, a, mi, side).bands,
            luma_left(plan, syntax_left(plan, t, b, mi, side).w.bands, b, mi, side).bands,
        ),
{
    reveal(residual_ops);
    let v = syntax_left(plan, s, a, mi, side);
    let w = syntax_left(plan, t, b, mi, side);
    let ta = state::TileView {
        ops: Seq::empty(),
        bands: s,
        cdef_last: None,
        cur_q: 0,
        records: Seq::empty(),
        asked: 0,
    };
    let tb = state::TileView { bands: t, ..ta };
    lemma_syntax_left(plan, ta, a, mi, side);
    lemma_syntax_left(plan, tb, b, mi, side);
    let ba = if a.skip {
        x
    } else {
        let g = luma_left(plan, v.w.bands, a, mi, side);
        g.ops + (planes_left(plan, g.bands, a, mi, side) + x)
    };
    let bb = if b.skip {
        y
    } else {
        let g = luma_left(plan, w.w.bands, b, mi, side);
        g.ops + (planes_left(plan, g.bands, b, mi, side) + y)
    };
    if !a.skip {
        let g = luma_left(plan, v.w.bands, a, mi, side);
        let h = luma_left(plan, w.w.bands, b, mi, side);
        let p = planes_left(plan, g.bands, a, mi, side);
        let q = planes_left(plan, h.bands, b, mi, side);
        lemma_joined(v.w.ops, g.ops + p, x);
        lemma_joined(w.w.ops, h.ops + q, y);
        lemma_joined(g.ops, p, x);
        lemma_joined(h.ops, q, y);
    }
    if plan.tx_select {
        lemma_syntax_told(
            s,
            t,
            mi,
            side,
            a.inter is Some,
            a.skip,
            (a.tx_depth as int, b.tx_depth as int),
            ba,
            bb,
        );
    } else {
        read_back::lemma_parts(v.w.ops, ba, w.w.ops, bb);
    }
    if !a.skip {
        assert(unit_side(plan, a, side) == unit_side(plan, b, side));
        lemma_typed_anywhere(plan, s, v.w.bands, inter_luma(plan, a, mi.0, mi.1, side));
        lemma_typed_anywhere(plan, s, v.w.bands, inter_luma(plan, b, mi.0, mi.1, side));
        lemma_body_told(plan, v.w.bands, w.w.bands, a, b, mi, side, x, y);
        lemma_luma_anywhere(
            v.w.bands,
            s,
            inter_luma(plan, a, mi.0, mi.1, side),
            inter_luma(plan, b, mi.0, mi.1, side),
        );
    }
}

pub proof fn lemma_typed_anywhere(plan: FramePlan, s: Bands, t: Bands, l: LumaUnits)
    requires
        is_typed(plan, s, l),
        state::same_frame(s, t),
    ensures
        is_typed(plan, t, l),
{
    assert forall|r: int, c: int|
        0 <= r < l.side / l.tx && 0 <= c < l.side / l.tx && units_read_back::is_unit_inside(
            t,
            l,
            r,
            c,
        ) && read_back::holds_any(#[trigger] units_read_back::unit_levels(l, r, c))
            implies read_back::is_offered(
        residual::luma_set(l.tx, l.inter),
        plan.reduced_tx_set,
        units_read_back::unit_type(l, r, c),
    ) by {
        assert(units_read_back::is_unit_inside(s, l, r, c));
    }
}

pub proof fn lemma_luma_anywhere(s: Bands, t: Bands, l: LumaUnits, m: LumaUnits)
    requires
        same_luma(s, l, m),
        state::same_frame(s, t),
    ensures
        same_luma(t, l, m),
{
    assert forall|r: int, c: int|
        0 <= r < l.side / l.tx && 0 <= c < l.side / l.tx && units_read_back::is_unit_inside(
            t,
            l,
            r,
            c,
        ) implies #[trigger] units_read_back::is_unit_told(l, m, r, c) by {
        assert(units_read_back::is_unit_inside(s, l, r, c));
    }
}

/// A block leaves the same behind, whichever luma levels it left unit by unit.
pub proof fn lemma_planes_change(
    b: Bands,
    mi: (int, int),
    side: int,
    s: neighbours::PlaneStates,
    t: neighbours::PlaneStates,
    luma: bool,
    screen: bool,
)
    requires
        luma ==> s.y == t.y,
        s.u == t.u,
        s.v == t.v,
    ensures
        neighbours::after_planes(b, mi.0, mi.1, side, s, luma, screen)
            == neighbours::after_planes(b, mi.0, mi.1, side, t, luma, screen),
{
    let v = neighbours::after_planes(b, mi.0, mi.1, side, s, luma, screen);
    let w = neighbours::after_planes(b, mi.0, mi.1, side, t, luma, screen);
    assert(v.above =~= w.above);
    assert(v.left =~= w.left);
    assert(v =~= w);
}

/// Whether two blocks leave the same behind but for their levels.
pub open spec fn leave_alike(a: BlockCoeffs, b: BlockCoeffs) -> bool {
    &&& a.skip == b.skip
    &&& (a.inter is Some) == (b.inter is Some)
    &&& a.inter matches Some(i) ==> b.inter matches Some(j) && i.ref_frame == j.ref_frame
        && i.ref1 == j.ref1
    &&& inter_block::row_of(a) == inter_block::row_of(b)
}

/// Two blocks whose residuals are read back to be the same leave the same
/// behind, from the same bands.
pub proof fn lemma_residual_left(
    plan: FramePlan,
    s: TileView,
    t: TileView,
    a: BlockCoeffs,
    b: BlockCoeffs,
    mi: (int, int),
    side: int,
)
    requires
        s.bands == t.bands,
        is_sized(plan, a, side),
        is_sized(plan, b, side),
        leave_alike(a, b),
        same_inter_residual(plan, s.bands, a, b, mi, side),
        neighbours::is_at(s.bands, mi.0, mi.1, side / 4),
        0 <= mi.0 < s.bands.mi_rows,
        0 <= mi.1 < s.bands.mi_cols,
        named_tx(plan, a, side) == named_tx(plan, b, side),
        inter_block::inter_residual(plan, s, a, mi.0, mi.1, side).fault is None,
        inter_block::inter_residual(plan, t, b, mi.0, mi.1, side).fault is None,
        units_read_back::same_cells(
            syntax_left(plan, s.bands, a, mi, side).w.bands,
            syntax_left(plan, t.bands, b, mi, side).w.bands,
        ),
        !a.skip ==> units_read_back::same_cells(
            luma_left(plan, syntax_left(plan, s.bands, a, mi, side).w.bands, a, mi, side).bands,
            luma_left(plan, syntax_left(plan, t.bands, b, mi, side).w.bands, b, mi, side).bands,
        ),
    ensures
        ({
            let v = inter_block::inter_residual(plan, s, a, mi.0, mi.1, side).tile;
            let w = inter_block::inter_residual(plan, t, b, mi.0, mi.1, side).tile;
            &&& v == TileView { ops: v.ops, bands: v.bands, ..s }
            &&& w == TileView { ops: w.ops, bands: w.bands, ..t }
            &&& v.bands == w.bands
        }),
{
    reveal(inter_block::inter_residual);
    lemma_syntax_left(plan, s, a, mi, side);
    lemma_syntax_left(plan, t, b, mi, side);
    let sa = syntax_left(plan, s.bands, a, mi, side);
    let sb = syntax_left(plan, t.bands, b, mi, side);
    assert(sa.w.bands =~= sb.w.bands);
    if !a.skip {
        reveal(inter_block::inter_planes);
        let la = inter_luma(plan, a, mi.0, mi.1, side);
        let lb = inter_luma(plan, b, mi.0, mi.1, side);
        let ga = luma_left(plan, sa.w.bands, a, mi, side);
        let gb = luma_left(plan, sb.w.bands, b, mi, side);
        let (ya, ua, va) = inter_levels(plan, a, side);
        let (yb, ub, vb) = inter_levels(plan, b, side);
        if la.tx < side {
            assert(la.side / la.tx >= 0) by (nonlinear_arith)
                requires
                    la.side >= 0,
                    la.tx > 0,
            ;
            let va = Written { ops: s.ops + sa.w.ops, bands: sa.w.bands };
            let vb = Written { ops: t.ops + sb.w.ops, bands: sb.w.bands };
            units_read_back::units_add_their_own(plan, va, la);
            units_read_back::units_add_their_own(plan, vb, lb);
            assert(la == inter_block::inter_units(a, mi.0, mi.1, side, sa.tx, ya));
            assert(lb == inter_block::inter_units(b, mi.0, mi.1, side, sb.tx, yb));
        } else {
            vstd::arithmetic::div_mod::lemma_div_by_self(side);
            assert(units_read_back::is_unit_inside(s.bands, la, 0, 0));
            assert(units_read_back::is_unit_told(la, lb, 0, 0));
            reveal(units_read_back::unit_levels);
            assert(ya == yb);
        }
        assert(ga.bands =~= gb.bands);
        lemma_planes_change(
            neighbours::after_mode(
                ga.bands,
                mi.0 / 4,
                mi.1 / 4,
                side / 16,
                inter_block::row_of(a),
            ),
            mi,
            side,
            neighbours::states_of(ya, ua, va),
            neighbours::states_of(yb, ub, vb),
            la.tx >= side,
            plan.screen,
        );
    }
}

/// A block of an inter frame keeps its tile's frame with its residual, and
/// leaves palettes that ascend where it found such.
pub proof fn inter_residuals_keep_the_bands_in_order(
    plan: FramePlan,
    t: TileView,
    block: BlockCoeffs,
    mi: (int, int),
    side: int,
)
    requires
        is_sized(plan, block, side),
        palette_bands::are_ordered(t.bands),
        inter_block::inter_residual(plan, t, block, mi.0, mi.1, side).fault is None,
    ensures
        state::same_frame(
            t.bands,
            inter_block::inter_residual(plan, t, block, mi.0, mi.1, side).tile.bands,
        ),
        palette_bands::are_ordered(
            inter_block::inter_residual(plan, t, block, mi.0, mi.1, side).tile.bands,
        ),
{
    reveal(inter_block::inter_residual);
    lemma_syntax_left(plan, t, block, mi, side);
    lemma_syntax_order(plan, t, block, mi, side);
    let tw = inter_block::syntax(plan, t, block, mi.0, mi.1, side);
    if block.skip {
        lemma_left_order(plan, tw.w.bands, block, mi, side, inter_block::quiet(), true);
    } else {
        reveal(inter_block::inter_planes);
        let (y, u, v) = inter_levels(plan, block, side);
        let split = inter_block::is_split(block, side, tw.tx);
        let l = inter_block::inter_units(block, mi.0, mi.1, side, tw.tx, y);
        residual::luma_keeps_the_frame(plan, tw.w, l);
        palette_bands::lemma_units(plan, tw.w, l);
        let w = if split {
            residual::luma_written(plan, tw.w, l)
        } else {
            tw.w
        };
        lemma_left_order(
            plan,
            w.bands,
            block,
            mi,
            side,
            neighbours::states_of(y, u, v),
            !split,
        );
    }
}

proof fn lemma_left_order(
    plan: FramePlan,
    b: Bands,
    block: BlockCoeffs,
    mi: (int, int),
    side: int,
    states: neighbours::PlaneStates,
    luma: bool,
)
    requires
        palette_bands::are_ordered(b),
    ensures
        palette_bands::are_ordered(
            inter_block::left_behind(plan, b, block, mi.0, mi.1, side, states, luma),
        ),
        state::same_frame(
            b,
            inter_block::left_behind(plan, b, block, mi.0, mi.1, side, states, luma),
        ),
{
    let row = inter_block::row_of(block);
    palette_bands::lemma_mode(b, (mi.0 / 4, mi.1 / 4), side / 16, row);
    let moded = neighbours::after_mode(b, mi.0 / 4, mi.1 / 4, side / 16, row);
    palette_bands::lemma_planes(moded, mi, side, states, luma, plan.screen);
    let planes = neighbours::after_planes(
        moded,
        mi.0,
        mi.1,
        side,
        states,
        luma,
        plan.screen,
    );
    let change = neighbours::Change::Inter {
        skip: block.skip,
        inter: block.inter is Some,
        ref_frame: inter_block::spec_block_ref(block),
    };
    palette_bands::lemma_plain_change(planes, mi, side / 4, change);
    if block.inter is Some && (block.inter->0).ref1 is Some {
        palette_bands::lemma_plain_change(
            neighbours::both_changed(planes, mi.0, mi.1, side / 4, change),
            mi,
            side / 4,
            neighbours::Change::Compound {
                ref1: (block.inter->0).ref1->0,
                comp_group_idx: 0,
                compound_idx: 1,
            },
        );
    }
}

proof fn lemma_syntax_order(
    plan: FramePlan,
    t: TileView,
    block: BlockCoeffs,
    mi: (int, int),
    side: int,
)
    requires
        palette_bands::are_ordered(t.bands),
    ensures
        palette_bands::are_ordered(
            inter_block::syntax(plan, t, block, mi.0, mi.1, side).w.bands,
        ),
{
    if plan.tx_select {
        reveal(residual::tx_inter_written);
        let w = Written { ops: t.ops, bands: t.bands };
        let depth = block.tx_depth as int;
        let half = side / 2;
        let step = half / 4;
        lemma_txfm_order(w.bands, mi, side, side);
        lemma_txfm_order(w.bands, mi, residual::halved(side, depth), side);
        let ctx = residual::spec_txfm_partition_ctx(
            w.bands.above[mi.1].txfm as int,
            w.bands.left[mi.0].txfm as int,
            side,
            side,
        );
        let root = Written {
            ops: w.ops.push(
                ops::symbol(ops::flag(depth != 0), ops::Cdf::TxfmPartition(ctx as usize)),
            ),
            ..w
        };
        let a = residual::quarter_written(root, mi.0, mi.1, side, half);
        let b = residual::quarter_written(a, mi.0, mi.1 + step, side, half);
        let c = residual::quarter_written(b, mi.0 + step, mi.1, side, half);
        lemma_txfm_order(root.bands, mi, half, half);
        lemma_txfm_order(a.bands, (mi.0, mi.1 + step), half, half);
        lemma_txfm_order(b.bands, (mi.0 + step, mi.1), half, half);
        lemma_txfm_order(c.bands, (mi.0 + step, mi.1 + step), half, half);
    }
}

proof fn lemma_txfm_order(b: Bands, mi: (int, int), tx: int, side: int)
    requires
        palette_bands::are_ordered(b),
    ensures
        palette_bands::are_ordered(neighbours::after_txfm(b, mi.0, mi.1, tx, side)),
{
    palette_bands::lemma_plain_change(
        b,
        mi,
        side / 4,
        neighbours::Change::Txfm(tx as u8),
    );
}

/// A block whose levels can be laid out has no fault.
pub proof fn lemma_no_fault(
    plan: FramePlan,
    t: TileView,
    block: BlockCoeffs,
    mi: (int, int),
    side: int,
)
    requires
        is_sized(plan, block, side),
        is_laid_out(plan, block, side),
    ensures
        inter_block::inter_residual(plan, t, block, mi.0, mi.1, side).fault is None,
{
    reveal(inter_block::inter_residual);
    lemma_syntax_left(plan, t, block, mi, side);
}

} // verus!
