//! One block of an inter frame.
use crate::tile::blocks::{BlockCoeffs, InterInfo};
use crate::tile::error::TileError;
use crate::tile::intra;
use crate::tile::intra::{tx_row, write_modes};
use crate::tile::key_block;
use crate::tile::key_block::{block_grids, block_tx_type};
use crate::tile::levels;
use crate::tile::motion;
use crate::tile::motion::{
    write_compound_block, write_inter_mode, write_motion_mode, MotionContext,
};
use crate::tile::neighbours;
use crate::tile::neighbours::{Neighbours, INTRA_MODES};
use crate::tile::ops;
use crate::tile::ops::{bit, put, Cdf, TxbSet};
use crate::tile::plans;
use crate::tile::plans::{write_cdef_idx, write_delta_q, FramePlan};
use crate::tile::refs;
use crate::tile::refs::{write_comp_mode, write_single_ref};
use crate::tile::residual;
use crate::tile::residual::{
    write_block_planes, write_luma_tus, write_tx_syntax_inter, LumaBlock, LumaUnits, PlaneSets,
    Scans, TxWritten, Written,
};
use crate::tile::state;
use crate::tile::state::{MiRecord, Step, Tile, TileView};
use vstd::prelude::*;

verus! {

/// The context of whether a block is inter, by the neighbours there are and
/// whether they are.
pub open spec fn spec_intra_inter_ctx(
    has_above: bool,
    has_left: bool,
    above_inter: bool,
    left_inter: bool,
) -> int {
    if has_above && has_left {
        if !above_inter && !left_inter {
            3
        } else {
            ops::flag(!above_inter || !left_inter)
        }
    } else if has_above {
        2 * ops::flag(!above_inter)
    } else if has_left {
        2 * ops::flag(!left_inter)
    } else {
        0
    }
}

/// The context of whether a block is inter: 3 between two intra neighbours, 1
/// beside one of two, 2 beside an intra neighbour that is alone, else 0.
pub fn intra_inter_ctx(
    has_above: bool,
    has_left: bool,
    above_inter: bool,
    left_inter: bool,
) -> (ctx: usize)
    ensures
        ctx == spec_intra_inter_ctx(has_above, has_left, above_inter, left_inter),
{
    match (has_above, has_left) {
        (true, true) => {
            if !above_inter && !left_inter {
                3
            } else {
                bit(!above_inter || !left_inter)
            }
        },
        (true, false) => 2 * bit(!above_inter),
        (false, true) => 2 * bit(!left_inter),
        (false, false) => 0,
    }
}

/// The intra mode tables of an inter frame's block.
pub open spec fn size_group(side: int) -> int {
    if side == 32 {
        3
    } else if side == 16 {
        2
    } else {
        1
    }
}

/// The reference a block leaves behind: none of them for an intra block.
pub open spec fn spec_block_ref(block: BlockCoeffs) -> i8 {
    match block.inter {
        Some(info) => info.ref_frame,
        None => -1i8,
    }
}

/// A block's flags: skipped or not, what is written of the superblock with its
/// first, and whether the block is inter.
#[verifier::opaque]
pub open spec fn head(
    plan: FramePlan,
    t: TileView,
    block: BlockCoeffs,
    mi_r: int,
    mi_c: int,
    side: int,
) -> TileView {
    let skip = ops::symbol(
        ops::flag(block.skip),
        Cdf::Skip(neighbours::spec_skip_ctx(t.bands, mi_r, mi_c) as usize),
    );
    let cdef = plans::cdef_ops(plan.cdef, t.cdef_last, mi_r, mi_c, block.skip);
    let quantizer = plans::delta_q_ops(
        plan.delta_q,
        t.cur_q,
        mi_r,
        mi_c,
        side == 64,
        block.skip,
    );
    let ctx = spec_intra_inter_ctx(
        mi_r > t.bands.row0,
        mi_c > t.bands.col0,
        t.bands.above[mi_c].inter,
        t.bands.left[mi_r].inter,
    );
    TileView {
        ops: (t.ops.push(skip) + cdef + quantizer).push(
            ops::symbol(ops::flag(block.inter is Some), Cdf::IntraInter(ctx as usize)),
        ),
        cdef_last: plans::cdef_last(plan.cdef, t.cdef_last, mi_r, mi_c, block.skip),
        cur_q: plans::next_q(plan.delta_q, t.cur_q, mi_r, mi_c, side == 64, block.skip),
        ..t
    }
}

/// What an inter block offers the candidate vectors of later ones.
pub open spec fn inter_record(
    info: InterInfo,
    mvs: motion::MvPair,
    is_new: bool,
    mi_r: int,
    mi_c: int,
    side: int,
) -> MiRecord {
    MiRecord {
        mi_row: mi_r as usize,
        mi_col: mi_c as usize,
        size: (side / 4) as usize,
        is_inter: true,
        ref_frame: info.ref_frame,
        ref_frame1: info.ref1,
        mv: mvs.0,
        mv1: mvs.1,
        is_new_mv: is_new,
    }
}

/// What an intra block leaves among them: that it is there.
pub open spec fn intra_record(mi_r: int, mi_c: int, side: int) -> MiRecord {
    MiRecord {
        mi_row: mi_r as usize,
        mi_col: mi_c as usize,
        size: (side / 4) as usize,
        is_inter: false,
        ref_frame: -1i8,
        ref_frame1: None,
        mv: (0, 0),
        mv1: (0, 0),
        is_new_mv: false,
    }
}

/// A tile with one more record.
pub open spec fn recorded(t: TileView, record: MiRecord) -> TileView {
    TileView { records: t.records.push(record), ..t }
}

/// The reference, mode and vector of a block of one reference, and how it is
/// predicted from it.
#[verifier::opaque]
pub open spec fn single(
    plan: FramePlan,
    m: MotionContext,
    t: TileView,
    info: InterInfo,
    how: u8,
    mi_r: int,
    mi_c: int,
    side: int,
) -> Step {
    let chosen = motion::inter_mode(info, m.single);
    let coded = state::said(
        state::said(
            t,
            refs::single_ref_ops(info.ref_frame, refs::named_refs(t.bands, mi_r, mi_c)),
        ),
        chosen.said.ops,
    );
    match chosen.said.fault {
        Some(e) => state::stopped(coded, e),
        None => state::going(
            state::said(
                recorded(
                    coded,
                    inter_record(info, (chosen.mv, (0, 0)), chosen.is_new, mi_r, mi_c, side),
                ),
                motion::motion_mode_ops(plan, m, side, how),
            ),
        ),
    }
}

/// The references, mode and vectors of a block of two references.
#[verifier::opaque]
pub open spec fn paired(
    m: MotionContext,
    t: TileView,
    info: InterInfo,
    mi_r: int,
    mi_c: int,
    side: int,
) -> Step {
    let chosen = motion::compound_block(t.bands, mi_r, mi_c, side / 4, info, m.compound);
    let coded = state::said(t, chosen.said.ops);
    match chosen.said.fault {
        Some(e) => state::stopped(coded, e),
        None => state::going(
            recorded(
                coded,
                inter_record(
                    info,
                    chosen.mvs,
                    motion::is_new_pair(info.mode),
                    mi_r,
                    mi_c,
                    side,
                ),
            ),
        ),
    }
}

/// How an inter block is predicted. It asks for its candidate vectors and
/// stops where they are not known.
#[verifier::opaque]
pub open spec fn predicted(
    plan: FramePlan,
    motion: Seq<MotionContext>,
    t: TileView,
    info: InterInfo,
    how: u8,
    mi_r: int,
    mi_c: int,
    side: int,
) -> Step {
    let said = state::said(
        t,
        refs::comp_mode_ops(
            plan.reference_select,
            t.bands,
            mi_r,
            mi_c,
            info.ref1 is Some,
        ),
    );
    if t.asked >= motion.len() {
        state::stopped(
            said,
            TileError::NeedsMotion(mi_r as usize, mi_c as usize, side as usize),
        )
    } else {
        let m = motion[t.asked];
        let asked = TileView { asked: t.asked + 1, ..said };
        if info.ref1 is Some {
            paired(m, asked, info, mi_r, mi_c, side)
        } else {
            single(plan, m, asked, info, how, mi_r, mi_c, side)
        }
    }
}

/// How an intra block of an inter frame is predicted.
#[verifier::opaque]
pub open spec fn intra_predicted(
    plan: FramePlan,
    t: TileView,
    block: BlockCoeffs,
    mi_r: int,
    mi_c: int,
    side: int,
) -> TileView {
    let mode = ops::symbol(block.mode as int, Cdf::YMode(size_group(side) as usize));
    recorded(
        TileView {
            ops: t.ops.push(mode) + intra::modes_ops(
                plan,
                t.bands,
                block,
                true,
                mi_r,
                mi_c,
                side,
            ),
            bands: intra::with_pending(plan, t.bands, block),
            ..t
        },
        intra_record(mi_r, mi_c, side),
    )
}

/// The sets of a block's planes.
pub open spec fn inter_sets(side: int, inter: bool) -> PlaneSets {
    PlaneSets {
        y: residual::luma_set(side, inter),
        uv: if side == 64 {
            TxbSet::Chroma32
        } else if side == 32 {
            TxbSet::Chroma16
        } else if side == 16 {
            TxbSet::Chroma8
        } else {
            TxbSet::Chroma4
        },
    }
}

/// The row of the transform type tables of a block, and the luma mode its
/// neighbours read.
pub open spec fn row_of(block: BlockCoeffs) -> usize {
    if block.inter is Some {
        0
    } else {
        intra::spec_tx_row(block.mode as int, block.filter_intra) as usize
    }
}

/// The transform syntax of a block, where the frame lets it choose.
pub open spec fn syntax(
    plan: FramePlan,
    t: TileView,
    block: BlockCoeffs,
    mi_r: int,
    mi_c: int,
    side: int,
) -> TxWritten {
    let w = Written { ops: t.ops, bands: t.bands };
    if plan.tx_select {
        residual::tx_inter_written(
            w,
            mi_r,
            mi_c,
            side,
            block.inter is Some,
            block.skip,
            block.tx_depth as int,
        )
    } else {
        TxWritten { w, tx: side }
    }
}

/// Whether a block's luma is several transforms: as its syntax says, and for a
/// 64x64 block as its depth does.
pub open spec fn is_split(block: BlockCoeffs, side: int, tx: int) -> bool {
    if side == 64 {
        block.tx_depth == 1
    } else {
        tx < side
    }
}

/// The levels of a block's luma are laid out over itself where it is split,
/// else over the coded part of its transform.
pub open spec fn levels_side(side: int, split: bool) -> int {
    if split {
        side
    } else {
        key_block::luma_side(side)
    }
}

/// What a block leaves behind last: its coefficients, and what it was
/// predicted from.
pub open spec fn left_behind(
    plan: FramePlan,
    b: neighbours::Bands,
    block: BlockCoeffs,
    mi_r: int,
    mi_c: int,
    side: int,
    states: neighbours::PlaneStates,
    luma: bool,
) -> neighbours::Bands {
    let moded = neighbours::after_mode(b, mi_r / 4, mi_c / 4, side / 16, row_of(block));
    let planes = neighbours::after_planes(moded, mi_r, mi_c, side, states, luma, plan.screen);
    let inter = neighbours::after_inter(
        planes,
        mi_r,
        mi_c,
        side,
        block.skip,
        block.inter is Some,
        spec_block_ref(block),
    );
    match block.inter {
        Some(info) => match info.ref1 {
            Some(ref1) => neighbours::after_compound(inter, mi_r, mi_c, side, ref1, 0, 1),
            None => inter,
        },
        None => inter,
    }
}

/// The state a plane without coefficients leaves.
pub open spec fn quiet() -> neighbours::PlaneStates {
    let grid = seq![0i32];
    neighbours::states_of(grid, grid, grid)
}

/// A split block's luma units.
pub open spec fn inter_units(
    block: BlockCoeffs,
    mi_r: int,
    mi_c: int,
    side: int,
    tx: int,
    y: Seq<i32>,
) -> LumaUnits {
    LumaUnits {
        mi_r,
        mi_c,
        side,
        tx: if side == 64 {
            32
        } else {
            tx
        },
        mode: row_of(block),
        inter: block.inter is Some,
        grid: y,
        types: block.luma_tx_types@,
    }
}

/// The planes of a block that is not skipped, after its transform syntax.
#[verifier::opaque]
pub open spec fn inter_planes(
    plan: FramePlan,
    t: TileView,
    block: BlockCoeffs,
    mi_r: int,
    mi_c: int,
    side: int,
    tx: int,
    y: Seq<i32>,
    u: Seq<i32>,
    v: Seq<i32>,
) -> TileView {
    let split = is_split(block, side, tx);
    let w0 = Written { ops: t.ops, bands: t.bands };
    let w = if split {
        residual::luma_written(plan, w0, inter_units(block, mi_r, mi_c, side, tx, y))
    } else {
        w0
    };
    let planes = residual::planes_ops(
        plan,
        w.bands,
        mi_r,
        mi_c,
        side,
        inter_sets(side, block.inter is Some),
        row_of(block),
        split,
        residual::type_at(block.luma_tx_types@, 0),
        y,
        u,
        v,
    );
    TileView {
        ops: w.ops + planes,
        bands: left_behind(
            plan,
            w.bands,
            block,
            mi_r,
            mi_c,
            side,
            neighbours::states_of(y, u, v),
            !split,
        ),
        ..t
    }
}

/// A block's transform syntax and residual.
#[verifier::opaque]
pub open spec fn inter_residual(
    plan: FramePlan,
    t: TileView,
    block: BlockCoeffs,
    mi_r: int,
    mi_c: int,
    side: int,
) -> Step {
    let tw = syntax(plan, t, block, mi_r, mi_c, side);
    let sized = TileView { ops: tw.w.ops, bands: tw.w.bands, ..t };
    if block.skip {
        state::going(
            state::banded(
                sized,
                left_behind(plan, sized.bands, block, mi_r, mi_c, side, quiet(), true),
            ),
        )
    } else {
        match key_block::block_levels(
            block,
            levels_side(side, is_split(block, side, tw.tx)),
            side / 2,
        ) {
            Err(e) => state::stopped(sized, e),
            Ok((y, u, v)) => state::going(
                inter_planes(plan, sized, block, mi_r, mi_c, side, tw.tx, y, u, v),
            ),
        }
    }
}

/// A skipped block of an inter frame codes no levels, and one predicted from
/// other frames nothing at all after its prediction.
pub proof fn skipped_blocks_code_no_levels(
    plan: FramePlan,
    t: TileView,
    block: BlockCoeffs,
    mi_r: int,
    mi_c: int,
    side: int,
)
    requires
        block.skip,
    ensures
        inter_residual(plan, t, block, mi_r, mi_c, side).fault is None,
        inter_residual(plan, t, block, mi_r, mi_c, side).tile.ops == syntax(
            plan,
            t,
            block,
            mi_r,
            mi_c,
            side,
        ).w.ops,
        block.inter is Some ==> inter_residual(plan, t, block, mi_r, mi_c, side).tile.ops == t.ops,
{
    reveal(inter_residual);
    reveal(residual::tx_inter_written);
}

/// One block of an inter frame, after its partition.
#[verifier::opaque]
pub open spec fn inter_block(
    plan: FramePlan,
    motion: Seq<MotionContext>,
    t: TileView,
    block: BlockCoeffs,
    mi_r: int,
    mi_c: int,
    side: int,
) -> Step {
    let flagged = head(plan, t, block, mi_r, mi_c, side);
    match block.inter {
        None => if block.mode >= INTRA_MODES {
            state::stopped(t, TileError::InterIntraMode(block.mode))
        } else {
            inter_residual(
                plan,
                intra_predicted(plan, flagged, block, mi_r, mi_c, side),
                block,
                mi_r,
                mi_c,
                side,
            )
        },
        Some(info) => {
            let done = predicted(
                plan,
                motion,
                flagged,
                info,
                block.motion_mode,
                mi_r,
                mi_c,
                side,
            );
            if done.fault is Some {
                done
            } else {
                inter_residual(plan, done.tile, block, mi_r, mi_c, side)
            }
        },
    }
}

/// Whether a block can be coded in an inter frame at a size, for whichever luma
/// mode.
pub open spec fn is_inter_block(plan: FramePlan, block: BlockCoeffs, side: int) -> bool {
    match block.inter {
        Some(info) => motion::is_info(info),
        None => {
            &&& intra::is_intra(plan, block, side, true)
            &&& plan.tx_select ==> residual::is_depth(side, block.tx_depth as int)
        },
    }
}

/// Writes a block's flags.
fn write_head(
    tile: &mut Tile,
    plan: &FramePlan,
    block: &BlockCoeffs,
    mi: (usize, usize),
    side: usize,
)
    requires
        state::is_tile(old(tile)@),
        plans::is_plan(*plan),
        key_block::is_place(*plan, old(tile)@.bands, mi.0 as int, mi.1 as int, side as int),
    ensures
        state::is_tile(final(tile)@),
        final(tile)@.bands == old(tile)@.bands,
        final(tile)@ == head(
            *plan,
            old(tile)@,
            *block,
            mi.0 as int,
            mi.1 as int,
            side as int,
        ),
{
    proof {
        reveal(head);
    }
    let ctx: usize = tile.bands.skip_ctx(mi);
    put(&mut tile.ops, bit(block.skip), Cdf::Skip(ctx));
    write_cdef_idx(&mut tile.ops, &plan.cdef, &mut tile.cdef_last, mi, block.skip);
    write_delta_q(
        &mut tile.ops,
        &plan.delta_q,
        &mut tile.cur_q,
        mi,
        side == 64,
        block.skip,
    );
    let ctx: usize = intra_inter_ctx(
        tile.bands.has_above(mi.0),
        tile.bands.has_left(mi.1),
        tile.bands.above[mi.1].inter,
        tile.bands.left[mi.0].inter,
    );
    put(&mut tile.ops, bit(block.inter.is_some()), Cdf::IntraInter(ctx));
}

fn write_single(
    tile: &mut Tile,
    plan: &FramePlan,
    m: &MotionContext,
    info: &InterInfo,
    how: u8,
    mi: (usize, usize),
    side: usize,
) -> (r: Result<(), TileError>)
    requires
        state::is_tile(old(tile)@),
        motion::is_motion(*m),
        motion::is_info(*info),
        info.ref1 is None,
        key_block::is_place(*plan, old(tile)@.bands, mi.0 as int, mi.1 as int, side as int),
    ensures
        state::is_step(
            old(tile)@,
            final(tile)@,
            r,
            single(
                *plan,
                *m,
                old(tile)@,
                *info,
                how,
                mi.0 as int,
                mi.1 as int,
                side as int,
            ),
        ),
{
    proof {
        reveal(single);
    }
    let named = tile.bands.named_refs(mi);
    write_single_ref(&mut tile.ops, info.ref_frame, &named);
    let (mv, is_new): ((i32, i32), bool) = match write_inter_mode(
        &mut tile.ops,
        info,
        &m.single,
    ) {
        Ok(x) => x,
        Err(e) => {
            return Err(e);
        },
    };
    tile.records.push(
        MiRecord {
            mi_row: mi.0,
            mi_col: mi.1,
            size: side / 4,
            is_inter: true,
            ref_frame: info.ref_frame,
            ref_frame1: info.ref1,
            mv,
            mv1: (0, 0),
            is_new_mv: is_new,
        },
    );
    write_motion_mode(&mut tile.ops, plan, m, side, how);
    Ok(())
}

fn write_paired(
    tile: &mut Tile,
    m: &MotionContext,
    info: &InterInfo,
    mi: (usize, usize),
    side: usize,
) -> (r: Result<(), TileError>)
    requires
        state::is_tile(old(tile)@),
        motion::is_motion(*m),
        motion::is_info(*info),
        mi.0 < old(tile)@.bands.left.len(),
        mi.1 < old(tile)@.bands.above.len(),
    ensures
        state::is_step(
            old(tile)@,
            final(tile)@,
            r,
            paired(*m, old(tile)@, *info, mi.0 as int, mi.1 as int, side as int),
        ),
{
    proof {
        reveal(paired);
    }
    let (mvs, is_new): (motion::MvPair, bool) = match write_compound_block(
        &mut tile.ops,
        &tile.bands,
        mi,
        side / 4,
        info,
        &m.compound,
    ) {
        Ok(x) => x,
        Err(e) => {
            return Err(e);
        },
    };
    tile.records.push(
        MiRecord {
            mi_row: mi.0,
            mi_col: mi.1,
            size: side / 4,
            is_inter: true,
            ref_frame: info.ref_frame,
            ref_frame1: info.ref1,
            mv: mvs.0,
            mv1: mvs.1,
            is_new_mv: is_new,
        },
    );
    Ok(())
}

/// Writes how an inter block is predicted.
fn write_predicted(
    tile: &mut Tile,
    plan: &FramePlan,
    motion: &Vec<MotionContext>,
    info: &InterInfo,
    how: u8,
    mi: (usize, usize),
    side: usize,
) -> (r: Result<(), TileError>)
    requires
        state::is_tile(old(tile)@),
        key_block::are_motions(motion@),
        motion::is_info(*info),
        key_block::is_place(*plan, old(tile)@.bands, mi.0 as int, mi.1 as int, side as int),
    ensures
        state::is_step(
            old(tile)@,
            final(tile)@,
            r,
            predicted(
                *plan,
                motion@,
                old(tile)@,
                *info,
                how,
                mi.0 as int,
                mi.1 as int,
                side as int,
            ),
        ),
{
    proof {
        reveal(predicted);
    }
    let compound: bool = info.ref1.is_some();
    write_comp_mode(&mut tile.ops, plan.reference_select, &tile.bands, mi, compound);
    if tile.asked >= motion.len() {
        return Err(TileError::NeedsMotion(mi.0, mi.1, side));
    }
    let m: &MotionContext = &motion[tile.asked];
    proof {
        assert(motion::is_motion(motion@[tile.asked as int]));
    }
    tile.asked = tile.asked + 1;
    if compound {
        write_paired(tile, m, info, mi, side)
    } else {
        write_single(tile, plan, m, info, how, mi, side)
    }
}

/// Writes how an intra block of an inter frame is predicted.
fn write_intra_predicted(
    tile: &mut Tile,
    plan: &FramePlan,
    block: &BlockCoeffs,
    mi: (usize, usize),
    side: usize,
)
    requires
        state::is_tile(old(tile)@),
        key_block::is_place(*plan, old(tile)@.bands, mi.0 as int, mi.1 as int, side as int),
        intra::is_intra(*plan, *block, side as int, true),
        block.mode < INTRA_MODES,
    ensures
        state::is_tile(final(tile)@),
        state::same_frame(old(tile)@.bands, final(tile)@.bands),
        final(tile)@ == intra_predicted(
            *plan,
            old(tile)@,
            *block,
            mi.0 as int,
            mi.1 as int,
            side as int,
        ),
{
    proof {
        reveal(intra_predicted);
    }
    let group: usize = if side == 32 {
        3
    } else if side == 16 {
        2
    } else {
        1
    };
    put(&mut tile.ops, block.mode as usize, Cdf::YMode(group));
    write_modes(&mut tile.ops, plan, &mut tile.bands, block, true, mi, side);
    tile.records.push(
        MiRecord {
            mi_row: mi.0,
            mi_col: mi.1,
            size: side / 4,
            is_inter: false,
            ref_frame: -1,
            ref_frame1: None,
            mv: (0, 0),
            mv1: (0, 0),
            is_new_mv: false,
        },
    );
}

/// What a block leaves in the neighbours' reference bands.
pub fn block_ref(block: &BlockCoeffs) -> (r: i8)
    ensures
        r == spec_block_ref(*block),
{
    match &block.inter {
        Some(info) => info.ref_frame,
        None => -1,
    }
}

/// Leaves the second reference of a block of two behind.
pub fn record_block_compound(
    neighbours: &mut Neighbours,
    mi: (usize, usize),
    side: usize,
    block: &BlockCoeffs,
)
    requires
        neighbours::is_bands(old(neighbours)@),
    ensures
        neighbours::is_bands(final(neighbours)@),
        final(neighbours)@ == match block.inter {
            Some(info) => match info.ref1 {
                Some(ref1) => neighbours::after_compound(
                    old(neighbours)@,
                    mi.0 as int,
                    mi.1 as int,
                    side as int,
                    ref1,
                    0,
                    1,
                ),
                None => old(neighbours)@,
            },
            None => old(neighbours)@,
        },
{
    if let Some(info) = &block.inter {
        if let Some(ref1) = info.ref1 {
            neighbours.record_compound_mi(mi, side, ref1, 0, 1);
        }
    }
}

fn row_for(block: &BlockCoeffs) -> (row: usize)
    requires
        block.inter is None ==> block.mode < INTRA_MODES,
        block.inter is None ==> (block.filter_intra matches Some(f) ==> f < 5),
    ensures
        row == row_of(*block),
        row < INTRA_MODES,
{
    if block.inter.is_some() {
        0
    } else {
        tx_row(block.mode as usize, block.filter_intra)
    }
}

fn sets_for(side: usize, inter: bool) -> (sets: PlaneSets)
    requires
        intra::is_block_side(side as int),
    ensures
        sets == inter_sets(side as int, inter),
{
    let y: TxbSet = if side == 64 {
        TxbSet::Luma64
    } else if side == 32 {
        if inter {
            TxbSet::Luma32Inter
        } else {
            TxbSet::Luma32
        }
    } else if side == 16 {
        if inter {
            TxbSet::Luma16Inter
        } else {
            TxbSet::Luma16
        }
    } else if inter {
        TxbSet::Luma8Inter
    } else {
        TxbSet::Luma8
    };
    let uv: TxbSet = if side == 64 {
        TxbSet::Chroma32
    } else if side == 32 {
        TxbSet::Chroma16
    } else if side == 16 {
        TxbSet::Chroma8
    } else {
        TxbSet::Chroma4
    };
    PlaneSets { y, uv }
}

/// Leaves a block behind.
fn leave_behind(
    neighbours: &mut Neighbours,
    plan: &FramePlan,
    block: &BlockCoeffs,
    mi: (usize, usize),
    side: usize,
    row: usize,
    grids: &[Vec<i32>; 3],
    luma: bool,
)
    requires
        neighbours::is_bands(old(neighbours)@),
        key_block::is_place(*plan, old(neighbours)@, mi.0 as int, mi.1 as int, side as int),
        row == row_of(*block),
        row < INTRA_MODES,
        neighbours::is_levels(grids@[0]@),
        neighbours::is_levels(grids@[1]@),
        neighbours::is_levels(grids@[2]@),
    ensures
        neighbours::is_bands(final(neighbours)@),
        state::same_frame(old(neighbours)@, final(neighbours)@),
        final(neighbours)@ == left_behind(
            *plan,
            old(neighbours)@,
            *block,
            mi.0 as int,
            mi.1 as int,
            side as int,
            neighbours::states_of(grids@[0]@, grids@[1]@, grids@[2]@),
            luma,
        ),
{
    neighbours.record_mode((mi.0 / 4, mi.1 / 4), side / 16, row);
    neighbours.record_mi_planes(mi, side, grids, luma, plan.screen);
    neighbours.record_inter_mi(mi, side, block.skip, block.inter.is_some(), block_ref(block));
    record_block_compound(neighbours, mi, side, block);
}

/// Writes the planes of a block that is not skipped.
fn write_planes(
    tile: &mut Tile,
    plan: &FramePlan,
    block: &BlockCoeffs,
    mi: (usize, usize),
    side: usize,
    tx: usize,
    grids: &[Vec<i32>; 3],
    scans: &Scans,
)
    requires
        state::is_tile(old(tile)@),
        key_block::is_place(*plan, old(tile)@.bands, mi.0 as int, mi.1 as int, side as int),
        side == 64 ==> block.inter is Some,
        block.inter is None ==> block.mode < INTRA_MODES,
        block.inter is None ==> (block.filter_intra matches Some(f) ==> f < 5),
        residual::are_scans(*scans),
        4 <= tx <= side,
        side != 64 ==> residual::is_tx_side(tx as int),
        levels::is_grid(
            grids@[0]@,
            levels_side(side as int, is_split(*block, side as int, tx as int)),
        ),
        levels::is_grid(grids@[1]@, side as int / 2),
        levels::is_grid(grids@[2]@, side as int / 2),
    ensures
        state::is_tile(final(tile)@),
        state::same_frame(old(tile)@.bands, final(tile)@.bands),
        final(tile)@ == inter_planes(
            *plan,
            old(tile)@,
            *block,
            mi.0 as int,
            mi.1 as int,
            side as int,
            tx as int,
            grids@[0]@,
            grids@[1]@,
            grids@[2]@,
        ),
{
    let split: bool = if side == 64 {
        block.tx_depth == 1
    } else {
        tx < side
    };
    proof {
        reveal(inter_planes);
        key_block::lemma_grid_levels(grids@[0]@, levels_side(side as int, split));
        key_block::lemma_grid_levels(grids@[1]@, side as int / 2);
        key_block::lemma_grid_levels(grids@[2]@, side as int / 2);
    }
    let ghost start = Written { ops: tile@.ops, bands: tile@.bands };
    let row: usize = row_for(block);
    if split {
        let l = LumaBlock {
            mi,
            side,
            tx: if side == 64 {
                32
            } else {
                tx
            },
            mode: row,
            inter: block.inter.is_some(),
            grid: &grids[0],
            types: &block.luma_tx_types,
        };
        proof {
            assert(l@ == inter_units(
                *block,
                mi.0 as int,
                mi.1 as int,
                side as int,
                tx as int,
                grids@[0]@,
            ));
        }
        write_luma_tus(&mut tile.ops, plan, &mut tile.bands, &l, scans);
        proof {
            residual::luma_keeps_the_frame(*plan, start, l@);
        }
    }
    let sets: PlaneSets = sets_for(side, block.inter.is_some());
    write_block_planes(
        &mut tile.ops,
        plan,
        &tile.bands,
        mi,
        side,
        &sets,
        row,
        split,
        block_tx_type(block),
        grids,
        scans,
    );
    leave_behind(&mut tile.bands, plan, block, mi, side, row, grids, !split);
}

/// Writes a block's transform syntax and residual.
fn write_inter_residual(
    tile: &mut Tile,
    plan: &FramePlan,
    block: &BlockCoeffs,
    mi: (usize, usize),
    side: usize,
    scans: &Scans,
) -> (r: Result<(), TileError>)
    requires
        state::is_tile(old(tile)@),
        key_block::is_place(*plan, old(tile)@.bands, mi.0 as int, mi.1 as int, side as int),
        is_inter_block(*plan, *block, side as int),
        side == 64 ==> block.inter is Some,
        block.inter is None ==> block.mode < INTRA_MODES,
        residual::are_scans(*scans),
    ensures
        state::is_step(
            old(tile)@,
            final(tile)@,
            r,
            inter_residual(
                *plan,
                old(tile)@,
                *block,
                mi.0 as int,
                mi.1 as int,
                side as int,
            ),
        ),
{
    proof {
        reveal(inter_residual);
        residual::tx_syntax_keeps_the_frame(
            Written { ops: tile@.ops, bands: tile@.bands },
            mi.0 as int,
            mi.1 as int,
            side as int,
            block.inter is Some,
            block.skip,
            block.tx_depth as int,
        );
    }
    let tx: usize = if plan.tx_select {
        write_tx_syntax_inter(
            &mut tile.ops,
            &mut tile.bands,
            mi,
            side,
            block.inter.is_some(),
            block.skip,
            block.tx_depth as usize,
        )
    } else {
        side
    };
    if block.skip {
        let grids: [Vec<i32>; 3] = [vec![0], vec![0], vec![0]];
        proof {
            assert(grids@[0]@ =~= seq![0i32]);
            assert(grids@[1]@ =~= seq![0i32]);
            assert(grids@[2]@ =~= seq![0i32]);
        }
        let row: usize = row_for(block);
        leave_behind(&mut tile.bands, plan, block, mi, side, row, &grids, true);
        return Ok(());
    }
    let split: bool = if side == 64 {
        block.tx_depth == 1
    } else {
        tx < side
    };
    let y_side: usize = if split || side < 32 {
        side
    } else {
        32
    };
    let grids: [Vec<i32>; 3] = match block_grids(block, y_side, side / 2) {
        Ok(g) => g,
        Err(e) => {
            return Err(e);
        },
    };
    write_planes(tile, plan, block, mi, side, tx, &grids, scans);
    Ok(())
}

/// Writes one block of an inter frame, whose partition is already written: a
/// 64x64 root, a 32x32 block or a 16x16 or 8x8 leaf.
pub fn write_inter_block(
    tile: &mut Tile,
    plan: &FramePlan,
    motion: &Vec<MotionContext>,
    block: &BlockCoeffs,
    mi: (usize, usize),
    side: usize,
    scans: &Scans,
) -> (r: Result<(), TileError>)
    requires
        state::is_tile(old(tile)@),
        plans::is_plan(*plan),
        key_block::are_motions(motion@),
        key_block::is_place(*plan, old(tile)@.bands, mi.0 as int, mi.1 as int, side as int),
        is_inter_block(*plan, *block, side as int),
        side == 64 ==> block.inter is Some,
        residual::are_scans(*scans),
    ensures
        state::is_step(
            old(tile)@,
            final(tile)@,
            r,
            inter_block(
                *plan,
                motion@,
                old(tile)@,
                *block,
                mi.0 as int,
                mi.1 as int,
                side as int,
            ),
        ),
{
    proof {
        reveal(inter_block);
    }
    match &block.inter {
        None => {
            if block.mode as usize >= INTRA_MODES {
                return Err(TileError::InterIntraMode(block.mode));
            }
            write_head(tile, plan, block, mi, side);
            write_intra_predicted(tile, plan, block, mi, side);
        },
        Some(info) => {
            write_head(tile, plan, block, mi, side);
            let done = write_predicted(tile, plan, motion, info, block.motion_mode, mi, side);
            if done.is_err() {
                return done;
            }
        },
    }
    write_inter_residual(tile, plan, block, mi, side, scans)
}

/// Writes one 16x16 leaf of a split 32x32 block, at its row and column of 16x16
/// blocks.
pub fn write_inter_frame_leaf(
    tile: &mut Tile,
    plan: &FramePlan,
    motion: &Vec<MotionContext>,
    block: &BlockCoeffs,
    at: (usize, usize),
    scans: &Scans,
) -> (r: Result<(), TileError>)
    requires
        state::is_tile(old(tile)@),
        plans::is_plan(*plan),
        key_block::are_motions(motion@),
        key_block::is_place(*plan, old(tile)@.bands, 4 * at.0, 4 * at.1, 16),
        is_inter_block(*plan, *block, 16),
        residual::are_scans(*scans),
    ensures
        state::is_step(
            old(tile)@,
            final(tile)@,
            r,
            inter_block(*plan, motion@, old(tile)@, *block, 4 * at.0, 4 * at.1, 16),
        ),
{
    write_inter_block(tile, plan, motion, block, (4 * at.0, 4 * at.1), 16, scans)
}

/// Writes one 8x8 leaf of a split 16x16 block, and hands back whether it is
/// skipped and whether it is inter.
pub fn write_inter_frame_leaf8(
    tile: &mut Tile,
    plan: &FramePlan,
    motion: &Vec<MotionContext>,
    block: &BlockCoeffs,
    mi: (usize, usize),
    scans: &Scans,
) -> (r: Result<(bool, bool), TileError>)
    requires
        state::is_tile(old(tile)@),
        plans::is_plan(*plan),
        key_block::are_motions(motion@),
        key_block::is_place(*plan, old(tile)@.bands, mi.0 as int, mi.1 as int, 8),
        is_inter_block(*plan, *block, 8),
        residual::are_scans(*scans),
    ensures
        ({
            let step = inter_block(
                *plan,
                motion@,
                old(tile)@,
                *block,
                mi.0 as int,
                mi.1 as int,
                8,
            );
            &&& final(tile)@ == step.tile
            &&& state::is_tile(final(tile)@)
            &&& state::same_frame(old(tile)@.bands, final(tile)@.bands)
            &&& r == match step.fault {
                None => Ok::<(bool, bool), TileError>((block.skip, block.inter is Some)),
                Some(e) => Err::<(bool, bool), TileError>(e),
            }
        }),
{
    match write_inter_block(tile, plan, motion, block, mi, 8, scans) {
        Ok(_) => Ok((block.skip, block.inter.is_some())),
        Err(e) => Err(e),
    }
}

} // verus!
