//! One block of a key frame.
use crate::bits;
use crate::tile::blocks::BlockCoeffs;
use crate::tile::context;
use crate::tile::error::TileError;
use crate::tile::golomb;
use crate::tile::intra;
use crate::tile::intra::{tx_row, write_modes, INTRA_MODE_CTX};
use crate::tile::levels;
use crate::tile::levels::level_grid;
use crate::tile::motion;
use crate::tile::motion::MotionContext;
use crate::tile::neighbours;
use crate::tile::neighbours::{Bands, DC_PRED, INTRA_MODES};
use crate::tile::ops;
use crate::tile::ops::{note, put, Cdf, Note, Op, TxbSet};
use crate::tile::plans;
use crate::tile::plans::{write_cdef_idx, FramePlan};
use crate::tile::residual;
use crate::tile::residual::{
    halve, write_block_planes, write_luma_select, LumaBlock, LumaUnits, PlaneSets, Scans, Written,
};
use crate::tile::state;
use crate::tile::state::{MiRecord, Step, Tile, TileView};
use crate::tile::vectors;
use crate::tile::vectors::write_dv;
use crate::transform::tx_type::TxType;
use vstd::prelude::*;

verus! {

/// The tables of a key frame block of a side.
pub open spec fn key_sets(side: int) -> PlaneSets {
    if side == 64 {
        PlaneSets { y: TxbSet::Luma64, uv: TxbSet::Chroma32 }
    } else if side == 32 {
        PlaneSets { y: TxbSet::Luma32, uv: TxbSet::Chroma16 }
    } else if side == 16 {
        PlaneSets { y: TxbSet::Luma16, uv: TxbSet::Chroma8 }
    } else {
        PlaneSets { y: TxbSet::Luma8, uv: TxbSet::Chroma4 }
    }
}

/// The side of the levels of a block's luma.
pub open spec fn luma_side(side: int) -> int {
    context::min(side, 32)
}

/// The candidate a copied block's vector is predicted from: the nearest, or
/// the next where that is zero.
pub open spec fn copy_candidate(s: motion::MvStack) -> (i32, i32) {
    if s.nearest_mv == (0i32, 0i32) {
        s.near_mv
    } else {
        s.nearest_mv
    }
}

/// What a copied block's vector is predicted as: the candidate, or where that
/// is zero one superblock up, or in the first row of superblocks as far left
/// as is decoded for sure; in whole pels.
pub open spec fn spec_dv_pred(candidate: (i32, i32), mi_r: int) -> (i32, i32) {
    let p = if candidate == (0i32, 0i32) {
        if mi_r < 16 {
            (0int, -2560int)
        } else {
            (-512int, 0int)
        }
    } else {
        (candidate.0 as int, candidate.1 as int)
    };
    ((p.0 / 8 * 8) as i32, (p.1 / 8 * 8) as i32)
}

/// The bucket of a copied block's distance: the bits of its larger component
/// in pels, from one to six.
pub open spec fn copy_bucket(dv: (i32, i32)) -> int {
    let r = context::abs(dv.0 as int) / 8;
    let c = context::abs(dv.1 as int) / 8;
    let far = if r >= c {
        r
    } else {
        c
    };
    bits::spec_clamp(
        golomb::bit_length(
            if far < 1 {
                1
            } else {
                far
            },
        ),
        1,
        6,
    )
}

/// What a key frame block offers the predicted vectors of copied ones.
pub open spec fn key_record(mi_r: int, mi_c: int, side: int, dv: Option<(i32, i32)>) -> MiRecord {
    MiRecord {
        mi_row: mi_r as usize,
        mi_col: mi_c as usize,
        size: (side / 4) as usize,
        is_inter: dv is Some,
        ref_frame: 0,
        ref_frame1: None,
        mv: match dv {
            Some(d) => d,
            None => (0, 0),
        },
        mv1: (0, 0),
        is_new_mv: dv is Some,
    }
}

/// A tile with a block's offer, on a frame whose blocks may be copied.
pub open spec fn offered(
    plan: FramePlan,
    t: TileView,
    mi_r: int,
    mi_c: int,
    side: int,
    dv: Option<(i32, i32)>,
) -> TileView {
    if plan.intrabc {
        TileView { records: t.records.push(key_record(mi_r, mi_c, side, dv)), ..t }
    } else {
        t
    }
}

/// The bands after a copied block: the DC mode, no coefficient, the largest
/// transform, skipped.
pub open spec fn copied_bands(b: Bands, mi_r: int, mi_c: int, side: int, screen: bool) -> Bands {
    let zero = seq![0i32];
    let count = if side < 16 {
        1
    } else {
        side / 16
    };
    let moded = neighbours::after_mode(b, mi_r / 4, mi_c / 4, count, DC_PRED);
    let planes = neighbours::after_planes(
        moded,
        mi_r,
        mi_c,
        side,
        neighbours::states_of(zero, zero, zero),
        true,
        screen,
    );
    neighbours::after_skip(
        neighbours::after_tx(planes, mi_r, mi_c, side, side),
        mi_r,
        mi_c,
        side,
        true,
    )
}

/// A block copied from its own frame: skipped, and nothing but its vector.
#[verifier::opaque]
pub open spec fn copied_block(
    plan: FramePlan,
    motion: Seq<MotionContext>,
    t: TileView,
    dv: (i32, i32),
    mi_r: int,
    mi_c: int,
    side: int,
) -> Step {
    let flagged = state::said(
        t,
        seq![
            ops::symbol(
                1,
                Cdf::Skip(neighbours::spec_skip_ctx(t.bands, mi_r, mi_c) as usize),
            ),
            ops::symbol(1, Cdf::Intrabc),
        ],
    );
    if plan.intrabc && t.asked >= motion.len() {
        state::stopped(
            flagged,
            TileError::NeedsMotion(mi_r as usize, mi_c as usize, side as usize),
        )
    } else {
        let candidate = if plan.intrabc {
            copy_candidate(motion[t.asked].single)
        } else {
            (0, 0)
        };
        let vector = vectors::dv_said(dv, spec_dv_pred(candidate, mi_r));
        let coded = TileView {
            asked: if plan.intrabc {
                t.asked + 1
            } else {
                t.asked
            },
            ..state::said(flagged, vector.ops)
        };
        match vector.fault {
            Some(e) => state::stopped(coded, e),
            None => {
                let noted = state::said(
                    coded,
                    seq![Op::Note(Note::Intrabc(copy_bucket(dv) as usize))],
                );
                state::going(
                    offered(
                        plan,
                        state::banded(
                            noted,
                            copied_bands(t.bands, mi_r, mi_c, side, plan.screen),
                        ),
                        mi_r,
                        mi_c,
                        side,
                        Some(dv),
                    ),
                )
            },
        }
    }
}

/// The modes of a key frame block.
#[verifier::opaque]
pub open spec fn key_modes(
    plan: FramePlan,
    t: TileView,
    block: BlockCoeffs,
    mi_r: int,
    mi_c: int,
    side: int,
    above_mode: int,
    left_mode: int,
) -> TileView {
    let skip = ops::symbol(
        0,
        Cdf::Skip(neighbours::spec_skip_ctx(t.bands, mi_r, mi_c) as usize),
    );
    let cdef = plans::cdef_ops(plan.cdef, t.cdef_last, mi_r, mi_c, false);
    let copy = if plan.intrabc {
        seq![ops::symbol(0, Cdf::Intrabc)]
    } else {
        Seq::empty()
    };
    let mode = ops::symbol(
        block.mode as int,
        Cdf::KfYMode(INTRA_MODE_CTX[above_mode], INTRA_MODE_CTX[left_mode]),
    );
    let rest = intra::modes_ops(plan, t.bands, block, side < 64, mi_r, mi_c, side);
    TileView {
        ops: (t.ops.push(skip) + cdef + copy).push(mode) + rest,
        bands: intra::with_pending(plan, t.bands, block),
        cdef_last: plans::cdef_last(plan.cdef, t.cdef_last, mi_r, mi_c, false),
        ..t
    }
}

/// The luma transform units of a key frame block.
pub open spec fn key_units(
    block: BlockCoeffs,
    mi_r: int,
    mi_c: int,
    side: int,
    mode: usize,
    grid: Seq<i32>,
) -> LumaUnits {
    LumaUnits {
        mi_r,
        mi_c,
        side,
        tx: residual::halved(side, block.tx_depth as int),
        mode,
        inter: false,
        grid,
        types: block.luma_tx_types@,
    }
}

/// The residual of a key frame block, after its modes.
#[verifier::opaque]
pub open spec fn key_residual(
    plan: FramePlan,
    t: TileView,
    block: BlockCoeffs,
    mi_r: int,
    mi_c: int,
    side: int,
    y: Seq<i32>,
    u: Seq<i32>,
    v: Seq<i32>,
) -> Step {
    let row = intra::spec_tx_row(block.mode as int, block.filter_intra) as usize;
    let depth = block.tx_depth as int;
    let w0 = Written { ops: t.ops, bands: t.bands };
    let w = if plan.tx_select {
        residual::select_written(plan, w0, key_units(block, mi_r, mi_c, side, row, y), depth)
    } else {
        w0
    };
    let selected = TileView { ops: w.ops, bands: w.bands, ..t };
    if plan.tx_select && residual::select_fault(side, depth) is Some {
        state::stopped(selected, TileError::LumaSplit)
    } else {
        let whole = !(plan.tx_select && residual::halved(side, depth) < side);
        let coded = state::said(
            selected,
            residual::planes_ops(
                plan,
                w.bands,
                mi_r,
                mi_c,
                side,
                key_sets(side),
                row,
                plan.tx_select,
                residual::type_at(block.luma_tx_types@, 0),
                y,
                u,
                v,
            ),
        );
        let moded = neighbours::after_mode(
            w.bands,
            mi_r / 4,
            mi_c / 4,
            side / 16,
            block.mode as usize,
        );
        let planes = neighbours::after_planes(
            moded,
            mi_r,
            mi_c,
            side,
            neighbours::states_of(y, u, v),
            whole,
            plan.screen,
        );
        let left = if plan.intrabc {
            neighbours::after_skip(planes, mi_r, mi_c, side, false)
        } else {
            planes
        };
        state::going(offered(plan, state::banded(coded, left), mi_r, mi_c, side, None))
    }
}

/// The levels of a block's three planes, or the first fault among them.
pub open spec fn block_levels(block: BlockCoeffs, y_side: int, uv_side: int) -> Result<
    (Seq<i32>, Seq<i32>, Seq<i32>),
    TileError,
> {
    match levels::spec_level_grid(block.luma@, y_side) {
        Err(e) => Err(e),
        Ok(y) => match levels::spec_level_grid(block.u@, uv_side) {
            Err(e) => Err(e),
            Ok(u) => match levels::spec_level_grid(block.v@, uv_side) {
                Err(e) => Err(e),
                Ok(v) => Ok((y, u, v)),
            },
        },
    }
}

/// One block of a key frame, after its partition: refused for its levels, or
/// copied, or its modes and its residual.
#[verifier::opaque]
pub open spec fn key_block(
    plan: FramePlan,
    motion: Seq<MotionContext>,
    t: TileView,
    block: BlockCoeffs,
    mi_r: int,
    mi_c: int,
    side: int,
    above_mode: int,
    left_mode: int,
) -> Step {
    match block_levels(block, luma_side(side), side / 2) {
        Err(e) => state::stopped(t, e),
        Ok((y, u, v)) => match block.dv {
            Some(dv) => copied_block(plan, motion, t, dv, mi_r, mi_c, side),
            None => key_residual(
                plan,
                key_modes(plan, t, block, mi_r, mi_c, side, above_mode, left_mode),
                block,
                mi_r,
                mi_c,
                side,
                y,
                u,
                v,
            ),
        },
    }
}

/// Whether a block can be coded in a key frame at a size, for whichever luma
/// mode.
pub open spec fn is_key_block(plan: FramePlan, block: BlockCoeffs, side: int) -> bool {
    &&& block.dv matches Some(d) ==> vectors::is_mv(d)
    &&& block.dv is None ==> intra::is_intra(plan, block, side, side < 64)
    &&& block.dv is None && plan.tx_select && side < 64 ==> residual::is_depth(
        side,
        block.tx_depth as int,
    )
}

/// Whether every candidate list in a sequence is in order.
pub open spec fn are_motions(motion: Seq<MotionContext>) -> bool {
    forall|i: int| 0 <= i < motion.len() ==> motion::is_motion(#[trigger] motion[i])
}

/// Whether a block of a frame lies in its bands, at a whole 8x8 block, and at a
/// whole 16x16 block where it is that large.
pub open spec fn is_place(plan: FramePlan, b: Bands, mi_r: int, mi_c: int, side: int) -> bool {
    &&& intra::is_block_side(side)
    &&& neighbours::is_at(b, mi_r, mi_c, side / 4)
    &&& side >= 16 ==> mi_r % 4 == 0 && mi_c % 4 == 0
    &&& b.mi_cols == plan.mi_cols
    &&& b.mi_rows == plan.mi_rows
}

fn floor8(x: i32) -> (y: i32)
    requires
        -0x3fff_fff8 <= x <= 0x3fff_fff8,
    ensures
        y == x as int / 8 * 8,
        -0x3fff_fff8 <= y <= 0x3fff_fff8,
{
    let part: i32 = if x >= 0 {
        x % 8
    } else {
        let n: i32 = (-x) % 8;
        if n == 0 {
            0
        } else {
            8 - n
        }
    };
    x - part
}

/// What a copied block's vector is predicted as, from its candidate.
pub fn intrabc_dv_pred(candidate: (i32, i32), mi_r: usize) -> (pred: (i32, i32))
    requires
        vectors::is_mv(candidate),
    ensures
        pred == spec_dv_pred(candidate, mi_r as int),
        vectors::is_mv(pred),
{
    let zero: bool = candidate.0 == 0 && candidate.1 == 0;
    let p: (i32, i32) = if zero {
        if mi_r < 16 {
            (0, -2560)
        } else {
            (-512, 0)
        }
    } else {
        candidate
    };
    (floor8(p.0), floor8(p.1))
}

fn bucket_of(dv: (i32, i32)) -> (b: usize)
    requires
        vectors::is_mv(dv),
    ensures
        b == copy_bucket(dv),
{
    let r: i32 = if dv.0 < 0 {
        -dv.0
    } else {
        dv.0
    } / 8;
    let c: i32 = if dv.1 < 0 {
        -dv.1
    } else {
        dv.1
    } / 8;
    let far: i32 = if r >= c {
        r
    } else {
        c
    };
    let px: i32 = if far < 1 {
        1
    } else {
        far
    };
    let mut rest: i32 = px / 2;
    let mut n: usize = 1;
    proof {
        golomb::bit_length_is_tight(px as int);
        bits::lemma_pow2_values();
        golomb::lemma_bit_length_bound(px as int, 31);
    }
    while rest > 0
        invariant
            0 <= rest,
            n + golomb::bit_length(rest as int) == golomb::bit_length(px as int),
            golomb::bit_length(px as int) <= 31,
            1 <= n,
        decreases rest,
    {
        proof {
            golomb::bit_length_is_tight(rest as int);
        }
        rest = rest / 2;
        n += 1;
    }
    if n > 6 {
        6
    } else {
        n
    }
}

fn zero_grids() -> (grids: [Vec<i32>; 3])
    ensures
        grids@[0]@ == seq![0i32],
        grids@[1]@ == seq![0i32],
        grids@[2]@ == seq![0i32],
{
    let mut y: Vec<i32> = Vec::new();
    y.push(0);
    let mut u: Vec<i32> = Vec::new();
    u.push(0);
    let mut v: Vec<i32> = Vec::new();
    v.push(0);
    proof {
        assert(y@ =~= seq![0i32]);
        assert(u@ =~= seq![0i32]);
        assert(v@ =~= seq![0i32]);
    }
    [y, u, v]
}

fn offer(
    tile: &mut Tile,
    plan: &FramePlan,
    mi: (usize, usize),
    side: usize,
    dv: Option<(i32, i32)>,
)
    ensures
        final(tile)@ == offered(
            *plan,
            old(tile)@,
            mi.0 as int,
            mi.1 as int,
            side as int,
            dv,
        ),
{
    if plan.intrabc {
        tile.records.push(
            MiRecord {
                mi_row: mi.0,
                mi_col: mi.1,
                size: side / 4,
                is_inter: dv.is_some(),
                ref_frame: 0,
                ref_frame1: None,
                mv: match dv {
                    Some(d) => d,
                    None => (0, 0),
                },
                mv1: (0, 0),
                is_new_mv: dv.is_some(),
            },
        );
    }
}

/// Writes a block copied from its own frame: its skip flag, that it is copied,
/// and its vector.
pub fn write_intrabc_block(
    tile: &mut Tile,
    plan: &FramePlan,
    motion: &Vec<MotionContext>,
    dv: (i32, i32),
    mi: (usize, usize),
    side: usize,
) -> (r: Result<(), TileError>)
    requires
        state::is_tile(old(tile)@),
        are_motions(motion@),
        is_place(*plan, old(tile)@.bands, mi.0 as int, mi.1 as int, side as int),
        vectors::is_mv(dv),
    ensures
        state::is_step(
            old(tile)@,
            final(tile)@,
            r,
            copied_block(
                *plan,
                motion@,
                old(tile)@,
                dv,
                mi.0 as int,
                mi.1 as int,
                side as int,
            ),
        ),
{
    proof {
        reveal(copied_block);
    }
    let ctx: usize = tile.bands.skip_ctx(mi);
    put(&mut tile.ops, 1, Cdf::Skip(ctx));
    put(&mut tile.ops, 1, Cdf::Intrabc);
    proof {
        assert(tile@.ops =~= old(tile)@.ops + seq![
            ops::symbol(1, Cdf::Skip(ctx)),
            ops::symbol(1, Cdf::Intrabc),
        ]);
    }
    let mut candidate: (i32, i32) = (0, 0);
    if plan.intrabc {
        if tile.asked >= motion.len() {
            return Err(TileError::NeedsMotion(mi.0, mi.1, side));
        }
        proof {
            assert(motion::is_motion(motion@[tile.asked as int]));
        }
        let near: (i32, i32) = motion[tile.asked].single.near_mv;
        let nearest: (i32, i32) = motion[tile.asked].single.nearest_mv;
        candidate = if nearest.0 == 0 && nearest.1 == 0 {
            near
        } else {
            nearest
        };
        tile.asked = tile.asked + 1;
    }
    let pred: (i32, i32) = intrabc_dv_pred(candidate, mi.0);
    match write_dv(&mut tile.ops, dv, pred) {
        Ok(_) => {},
        Err(e) => {
            return Err(e);
        },
    }
    note(&mut tile.ops, Note::Intrabc(bucket_of(dv)));
    let count: usize = if side < 16 {
        1
    } else {
        side / 16
    };
    let grids: [Vec<i32>; 3] = zero_grids();
    tile.bands.record_mode((mi.0 / 4, mi.1 / 4), count, DC_PRED);
    tile.bands.record_mi_planes(mi, side, &grids, true, plan.screen);
    tile.bands.record_tx(mi, side, side);
    tile.bands.record_skip(mi, side, true);
    offer(tile, plan, mi, side, Some(dv));
    proof {
        assert(tile@ =~= copied_block(
            *plan,
            motion@,
            old(tile)@,
            dv,
            mi.0 as int,
            mi.1 as int,
            side as int,
        ).tile);
    }
    Ok(())
}

/// Writes the modes of a key frame block: its skip flag, its superblock's CDEF
/// index, whether it is copied, its luma mode in the context of its
/// neighbours', and the rest.
pub fn write_intra_mode(
    tile: &mut Tile,
    plan: &FramePlan,
    block: &BlockCoeffs,
    mi: (usize, usize),
    side: usize,
    above_mode: usize,
    left_mode: usize,
)
    requires
        state::is_tile(old(tile)@),
        is_place(*plan, old(tile)@.bands, mi.0 as int, mi.1 as int, side as int),
        intra::is_intra(*plan, *block, side as int, side < 64),
        block.mode < INTRA_MODES,
        above_mode < INTRA_MODES,
        left_mode < INTRA_MODES,
    ensures
        state::is_tile(final(tile)@),
        state::same_frame(old(tile)@.bands, final(tile)@.bands),
        final(tile)@ == key_modes(
            *plan,
            old(tile)@,
            *block,
            mi.0 as int,
            mi.1 as int,
            side as int,
            above_mode as int,
            left_mode as int,
        ),
{
    proof {
        reveal(key_modes);
    }
    let ctx: usize = tile.bands.skip_ctx(mi);
    put(&mut tile.ops, 0, Cdf::Skip(ctx));
    write_cdef_idx(&mut tile.ops, &plan.cdef, &mut tile.cdef_last, mi, false);
    if plan.intrabc {
        put(&mut tile.ops, 0, Cdf::Intrabc);
    }
    proof {
        assert(tile@.ops =~= old(tile)@.ops.push(ops::symbol(0, Cdf::Skip(ctx)))
            + plans::cdef_ops(
            plan.cdef,
            old(tile)@.cdef_last,
            mi.0 as int,
            mi.1 as int,
            false,
        ) + (if plan.intrabc {
            seq![ops::symbol(0, Cdf::Intrabc)]
        } else {
            Seq::empty()
        }));
    }
    put(
        &mut tile.ops,
        block.mode as usize,
        Cdf::KfYMode(INTRA_MODE_CTX[above_mode], INTRA_MODE_CTX[left_mode]),
    );
    write_modes(&mut tile.ops, plan, &mut tile.bands, block, side < 64, mi, side);
}

fn sets_of(side: usize) -> (sets: PlaneSets)
    ensures
        sets == key_sets(side as int),
{
    if side == 64 {
        PlaneSets { y: TxbSet::Luma64, uv: TxbSet::Chroma32 }
    } else if side == 32 {
        PlaneSets { y: TxbSet::Luma32, uv: TxbSet::Chroma16 }
    } else if side == 16 {
        PlaneSets { y: TxbSet::Luma16, uv: TxbSet::Chroma8 }
    } else {
        PlaneSets { y: TxbSet::Luma8, uv: TxbSet::Chroma4 }
    }
}

/// The type of a block's only luma transform, the DCT where it names none.
pub fn block_tx_type(block: &BlockCoeffs) -> (tx: TxType)
    ensures
        tx == residual::type_at(block.luma_tx_types@, 0),
{
    if block.luma_tx_types.len() > 0 {
        block.luma_tx_types[0]
    } else {
        TxType::DctDct
    }
}

/// Lays out the levels of a block's three planes.
pub fn block_grids(block: &BlockCoeffs, y_side: usize, uv_side: usize) -> (r: Result<
    [Vec<i32>; 3],
    TileError,
>)
    requires
        y_side <= 64,
        uv_side <= 32,
    ensures
        match r {
            Ok(grids) => {
                &&& block_levels(*block, y_side as int, uv_side as int) == Ok::<
                    (Seq<i32>, Seq<i32>, Seq<i32>),
                    TileError,
                >((grids@[0]@, grids@[1]@, grids@[2]@))
                &&& levels::is_grid(grids@[0]@, y_side as int)
                &&& levels::is_grid(grids@[1]@, uv_side as int)
                &&& levels::is_grid(grids@[2]@, uv_side as int)
            },
            Err(e) => block_levels(*block, y_side as int, uv_side as int) == Err::<
                (Seq<i32>, Seq<i32>, Seq<i32>),
                TileError,
            >(e),
        },
{
    let y: Vec<i32> = match level_grid(&block.luma, y_side) {
        Ok(g) => g,
        Err(e) => {
            return Err(e);
        },
    };
    let u: Vec<i32> = match level_grid(&block.u, uv_side) {
        Ok(g) => g,
        Err(e) => {
            return Err(e);
        },
    };
    let v: Vec<i32> = match level_grid(&block.v, uv_side) {
        Ok(g) => g,
        Err(e) => {
            return Err(e);
        },
    };
    Ok([y, u, v])
}

/// A grid of a transform's size holds levels that can be left behind.
pub proof fn lemma_grid_levels(grid: Seq<i32>, side: int)
    requires
        levels::is_grid(grid, side),
        1 <= side <= 64,
    ensures
        neighbours::is_levels(grid),
{
    assert(1 <= side * side <= 4096) by (nonlinear_arith)
        requires
            1 <= side <= 64,
    ;
}

fn write_residual(
    tile: &mut Tile,
    plan: &FramePlan,
    block: &BlockCoeffs,
    mi: (usize, usize),
    side: usize,
    grids: &[Vec<i32>; 3],
    scans: &Scans,
) -> (r: Result<(), TileError>)
    requires
        state::is_tile(old(tile)@),
        is_place(*plan, old(tile)@.bands, mi.0 as int, mi.1 as int, side as int),
        is_key_block(*plan, *block, side as int),
        block.dv is None,
        block.mode < INTRA_MODES,
        residual::are_scans(*scans),
        levels::is_grid(grids@[0]@, luma_side(side as int)),
        levels::is_grid(grids@[1]@, side as int / 2),
        levels::is_grid(grids@[2]@, side as int / 2),
    ensures
        state::is_step(
            old(tile)@,
            final(tile)@,
            r,
            key_residual(
                *plan,
                old(tile)@,
                *block,
                mi.0 as int,
                mi.1 as int,
                side as int,
                grids@[0]@,
                grids@[1]@,
                grids@[2]@,
            ),
        ),
{
    proof {
        reveal(key_residual);
        lemma_grid_levels(grids@[0]@, luma_side(side as int));
        lemma_grid_levels(grids@[1]@, side as int / 2);
        lemma_grid_levels(grids@[2]@, side as int / 2);
    }
    let ghost start = Written { ops: tile@.ops, bands: tile@.bands };
    let row: usize = tx_row(block.mode as usize, block.filter_intra);
    let depth: usize = block.tx_depth as usize;
    let tx: usize = halve(side, depth);
    if plan.tx_select {
        let l = LumaBlock {
            mi,
            side,
            tx,
            mode: row,
            inter: false,
            grid: &grids[0],
            types: &block.luma_tx_types,
        };
        proof {
            assert(l@ == key_units(
                *block,
                mi.0 as int,
                mi.1 as int,
                side as int,
                row,
                grids@[0]@,
            ));
        }
        let done = write_luma_select(&mut tile.ops, plan, &mut tile.bands, &l, depth, scans);
        proof {
            residual::select_keeps_the_frame(*plan, start, l@, depth as int);
        }
        if done.is_err() {
            return Err(TileError::LumaSplit);
        }
    }
    let whole: bool = !(plan.tx_select && tx < side);
    let sets: PlaneSets = sets_of(side);
    write_block_planes(
        &mut tile.ops,
        plan,
        &tile.bands,
        mi,
        side,
        &sets,
        row,
        plan.tx_select,
        block_tx_type(block),
        grids,
        scans,
    );
    tile.bands.record_mode((mi.0 / 4, mi.1 / 4), side / 16, block.mode as usize);
    tile.bands.record_mi_planes(mi, side, grids, whole, plan.screen);
    if plan.intrabc {
        tile.bands.record_skip(mi, side, false);
    }
    offer(tile, plan, mi, side, None);
    Ok(())
}

/// Writes one block of a key frame, whose partition is already written.
pub fn write_block(
    tile: &mut Tile,
    plan: &FramePlan,
    motion: &Vec<MotionContext>,
    block: &BlockCoeffs,
    mi: (usize, usize),
    side: usize,
    above_mode: usize,
    left_mode: usize,
    scans: &Scans,
) -> (r: Result<(), TileError>)
    requires
        state::is_tile(old(tile)@),
        are_motions(motion@),
        is_place(*plan, old(tile)@.bands, mi.0 as int, mi.1 as int, side as int),
        is_key_block(*plan, *block, side as int),
        block.mode < INTRA_MODES,
        above_mode < INTRA_MODES,
        left_mode < INTRA_MODES,
        residual::are_scans(*scans),
    ensures
        state::is_step(
            old(tile)@,
            final(tile)@,
            r,
            key_block(
                *plan,
                motion@,
                old(tile)@,
                *block,
                mi.0 as int,
                mi.1 as int,
                side as int,
                above_mode as int,
                left_mode as int,
            ),
        ),
{
    proof {
        reveal(key_block);
    }
    let y_side: usize = if side < 32 {
        side
    } else {
        32
    };
    let grids: [Vec<i32>; 3] = match block_grids(block, y_side, side / 2) {
        Ok(g) => g,
        Err(e) => {
            return Err(e);
        },
    };
    if let Some(dv) = block.dv {
        return write_intrabc_block(tile, plan, motion, dv, mi, side);
    }
    write_intra_mode(tile, plan, block, mi, side, above_mode, left_mode);
    write_residual(tile, plan, block, mi, side, &grids, scans)
}

} // verus!
