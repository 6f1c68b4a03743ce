//! Which table and context each symbol of a block is coded with.
use crate::tile::blocks::{BlockCoeffs, InterInfo, InterMode};
use crate::tile::coeffs;
use crate::tile::context;
use crate::tile::golomb;
use crate::tile::inter_block;
use crate::tile::intra;
use crate::tile::intra::{FILTER_INTRA_DIR, INTRA_MODE_CTX};
use crate::tile::key_block;
use crate::tile::motion;
use crate::tile::motion::{CompoundStack, MotionContext, MvStack, COMPOUND_MODE_CTX_MAP};
use crate::tile::neighbour_laws;
use crate::tile::neighbours;
use crate::tile::neighbours::{Bands, PlaneStates};
use crate::tile::ops;
use crate::tile::ops::{Cdf, MvTable, Note, Op, TxbSet};
use crate::tile::plans;
use crate::tile::plans::FramePlan;
use crate::tile::residual;
use crate::tile::residual::Written;
use crate::tile::state::TileView;
use crate::tile::vectors;
use crate::tile::vectors::VectorKind;
use crate::transform::tx_type;
use crate::transform::tx_type::TxType;
use vstd::prelude::*;

verus! {

/// The symbol of a flag.
pub open spec fn told(value: bool, table: Cdf) -> Op {
    Op::Symbol { cdf: table, value: if value { 1usize } else { 0usize } }
}

/// How many of two things hold.
pub open spec fn count2(a: bool, b: bool) -> usize {
    if a && b {
        2
    } else if a || b {
        1
    } else {
        0
    }
}

/// A block of an inter frame starts with its skip flag, in the table of how many
/// of its neighbours are skipped, and ends its flags with whether it is predicted
/// from another frame, in the table of its neighbours that are: 0 with none that
/// is intra, 1 with one of two, 2 with the only one and 3 with both. In between
/// come the frame's own indices and steps, where it has them.
pub proof fn inter_flags_count_their_neighbours(
    plan: FramePlan,
    t: TileView,
    block: BlockCoeffs,
    mi_r: int,
    mi_c: int,
    side: int,
)
    ensures
        ({
            let said = inter_block::head(plan, t, block, mi_r, mi_c, side).ops;
            let (above, left) = (t.bands.above[mi_c], t.bands.left[mi_r]);
            let (up, aside) = (mi_r > t.bands.row0, mi_c > t.bands.col0);
            let ctx = if up && aside {
                if !above.inter && !left.inter {
                    3usize
                } else {
                    count2(!above.inter, !left.inter)
                }
            } else if up && !above.inter || aside && !left.inter {
                2
            } else {
                0
            };
            &&& said.take(t.ops.len() as int) == t.ops
            &&& said[t.ops.len() as int] == told(
                block.skip,
                Cdf::Skip(count2(above.skip, left.skip)),
            )
            &&& said.last() == told(block.inter is Some, Cdf::IntraInter(ctx))
            &&& plan.cdef is None && plan.delta_q is None ==> said.len() == t.ops.len() + 2
            &&& plan.delta_q is None || mi_r % 16 != 0 || mi_c % 16 != 0 ==> said.len()
                <= t.ops.len() + 3
        }),
{
    reveal(inter_block::head);
    let skip = ops::symbol(
        ops::flag(block.skip),
        Cdf::Skip(neighbours::spec_skip_ctx(t.bands, mi_r, mi_c) as usize),
    );
    assert(inter_block::head(plan, t, block, mi_r, mi_c, side).ops.take(t.ops.len() as int)
        =~= t.ops);
}

/// A key frame's block that is not copied starts with a skip flag that is off, in the table of
/// how many of its neighbours are skipped; then come the frame's own index, where it is due,
/// that it is not copied, where it could be, and its luma mode in the table of the classes of
/// its neighbours' modes.
pub proof fn key_flags_count_their_neighbours(
    plan: FramePlan,
    t: TileView,
    block: BlockCoeffs,
    mi_r: int,
    mi_c: int,
    side: int,
    above_mode: int,
    left_mode: int,
)
    ensures
        ({
            let said = key_block::key_modes(
                plan,
                t,
                block,
                mi_r,
                mi_c,
                side,
                above_mode,
                left_mode,
            ).ops;
            let (above, left) = (t.bands.above[mi_c], t.bands.left[mi_r]);
            let n = t.ops.len() as int;
            let cdef = plans::cdef_ops(plan.cdef, t.cdef_last, mi_r, mi_c, false);
            let at = n + 1 + cdef.len();
            let mode = ops::symbol(
                block.mode as int,
                Cdf::KfYMode(INTRA_MODE_CTX[above_mode], INTRA_MODE_CTX[left_mode]),
            );
            &&& said.take(n) == t.ops
            &&& said[n] == told(false, Cdf::Skip(count2(above.skip, left.skip)))
            &&& cdef.len() <= 1 && (cdef.len() == 1 ==> said[n + 1] == cdef[0])
            &&& !plan.intrabc ==> said.len() > at && said[at] == mode
            &&& plan.intrabc ==> said.len() > at + 1 && said[at] == told(false, Cdf::Intrabc)
                && said[at + 1] == mode
            &&& plan.cdef is None ==> cdef.len() == 0
        }),
{
    reveal(key_block::key_modes);
    assert(key_block::key_modes(plan, t, block, mi_r, mi_c, side, above_mode, left_mode).ops.take(
        t.ops.len() as int,
    ) =~= t.ops);
}

/// The modes fall into five classes by their direction: none (the DC, the smooth
/// and the Paeth ones), vertical, horizontal, the two diagonals towards the upper
/// right, and the other four directions.
pub proof fn modes_are_classed_by_direction(mode: int)
    requires
        0 <= mode < 13,
    ensures
        INTRA_MODE_CTX[mode] == 0 <==> mode == 0 || mode == 9 || mode == 12,
        INTRA_MODE_CTX[mode] == 1 <==> mode == 1 || mode == 10,
        INTRA_MODE_CTX[mode] == 2 <==> mode == 2 || mode == 11,
        INTRA_MODE_CTX[mode] == 3 <==> mode == 3 || mode == 8,
        INTRA_MODE_CTX[mode] == 4 <==> 4 <= mode <= 7,
        intra::is_directional(mode) <==> 1 <= mode <= 8,
{
}

/// A recursive filter stands for the direction it works in: the DC, vertical,
/// horizontal, the flat diagonal and the DC again; any other block for its mode.
pub proof fn filters_stand_for_directions(mode: int, f: u8)
    requires
        f < 5,
    ensures
        intra::spec_tx_row(mode, None) == mode,
        intra::spec_tx_row(mode, Some(f)) == if f == 1 {
            1int
        } else if f == 2 {
            2
        } else if f == 3 {
            6
        } else {
            0
        },
{
    assert(FILTER_INTRA_DIR[0] == 0 && FILTER_INTRA_DIR[1] == 1 && FILTER_INTRA_DIR[2] == 2
        && FILTER_INTRA_DIR[3] == 6 && FILTER_INTRA_DIR[4] == 0);
}

/// The two scales of chroma from luma are coded together as the one of nine sign
/// pairs that is not both zero; each magnitude in the table of its own sign, then
/// the other's: 0 to 2 where it is negative and 3 to 5 where it is positive, by
/// whether the other is zero, negative or positive.
pub proof fn scales_are_coded_by_their_signs(u: int, v: int)
    requires
        u != 0 || v != 0,
    ensures
        ({
            let said = intra::cfl_ops(u, v);
            let class = |x: int|
                if x == 0 {
                    0int
                } else if x < 0 {
                    1
                } else {
                    2
                };
            let ctx = |own: int, other: int| (if own < 0 { 0int } else { 3 }) + class(other);
            let size = |x: int| if x < 0 { -x } else { x };
            &&& said[0] == ops::symbol(3 * class(u) + class(v) - 1, Cdf::CflSign)
            &&& u != 0 ==> said[1] == ops::symbol(size(u) - 1, Cdf::CflAlpha(ctx(u, v) as usize))
            &&& u == 0 ==> said.len() == 2
            &&& v != 0 ==> said.last() == ops::symbol(
                size(v) - 1,
                Cdf::CflAlpha(ctx(v, u) as usize),
            )
            &&& u != 0 && v != 0 ==> said.len() == 3
            &&& v == 0 ==> said.len() == 2
        }),
{
}

/// After the luma mode comes the angle of a directional one, three for none, in
/// that direction's table; then the chroma mode in the table of the luma mode;
/// then the scales or the plain angle that the chroma mode asks for.
pub proof fn modes_are_followed_by_their_angles(
    plan: FramePlan,
    b: Bands,
    block: BlockCoeffs,
    cfl: bool,
    mi_r: int,
    mi_c: int,
    side: int,
)
    requires
        !plan.screen,
        !plan.filter_intra,
        -3 <= block.angle_delta_y <= 3,
    ensures
        ({
            let said = intra::modes_ops(plan, b, block, cfl, mi_r, mi_c, side);
            let m = block.mode as usize;
            let uv = block.uv_mode as usize;
            let turned = 1 <= m <= 8;
            let at = if turned {
                1int
            } else {
                0
            };
            &&& turned ==> said[0] == ops::symbol(
                3 + block.angle_delta_y,
                Cdf::AngleDelta((m - 1) as usize),
            )
            &&& said[at] == ops::symbol(
                uv as int,
                if cfl {
                    Cdf::UvModeCfl(m)
                } else {
                    Cdf::UvModeNoCfl(m)
                },
            )
            &&& 1 <= uv <= 8 ==> said.len() == at + 2 && said[at + 1] == ops::symbol(
                3,
                Cdf::AngleDelta((uv - 1) as usize),
            )
            &&& uv == 0 || 9 <= uv <= 12 ==> said.len() == at + 1
            &&& uv == 13 ==> said.skip(at + 1) == intra::cfl_ops(
                (block.cfl_alphas->0).0 as int,
                (block.cfl_alphas->0).1 as int,
            )
        }),
{
    reveal(intra::palette_syntax_ops);
    let said = intra::modes_ops(plan, b, block, cfl, mi_r, mi_c, side);
    let at = if 1 <= block.mode <= 8 {
        1int
    } else {
        0
    };
    if block.uv_mode == 13 {
        assert(said.skip(at + 1) =~= intra::cfl_ops(
            (block.cfl_alphas->0).0 as int,
            (block.cfl_alphas->0).1 as int,
        ));
    }
}

/// A luma mode of an inter frame is coded by the block's size: 8, 16 and 32 in
/// groups 1, 2 and 3.
pub proof fn modes_are_grouped_by_size(side: int)
    requires
        side == 8 || side == 16 || side == 32,
    ensures
        side == 8 <==> inter_block::size_group(side) == 1,
        side == 16 <==> inter_block::size_group(side) == 2,
        side == 32 <==> inter_block::size_group(side) == 3,
{
}

/// The tables of a transform are those of its size, of what it predicts and of how:
/// luma has its own for either kind of prediction below 64, and chroma is half as
/// wide as the block. No table is shared by two sizes below 64.
pub proof fn tables_go_by_size(side: int, inter: bool)
    requires
        side == 8 || side == 16 || side == 32 || side == 64,
    ensures
        ({
            let y = residual::luma_set(side, inter);
            let key = key_block::key_sets(side);
            let sets = inter_block::inter_sets(side, inter);
            &&& ops::coeff_side(y) == if side == 64 {
                32int
            } else {
                side
            }
            &&& ops::coeff_side(key.uv) == side / 2
            &&& sets.y == y && sets.uv == key.uv
            &&& key.y == residual::luma_set(side, false)
            &&& side == 64 ==> y == TxbSet::Luma64 && key.uv == TxbSet::Chroma32
            &&& side == 32 ==> key.uv == TxbSet::Chroma16 && y == if inter {
                TxbSet::Luma32Inter
            } else {
                TxbSet::Luma32
            }
            &&& side == 16 ==> key.uv == TxbSet::Chroma8 && y == if inter {
                TxbSet::Luma16Inter
            } else {
                TxbSet::Luma16
            }
            &&& side == 8 ==> key.uv == TxbSet::Chroma4 && y == if inter {
                TxbSet::Luma8Inter
            } else {
                TxbSet::Luma8
            }
        }),
        residual::luma_set(4, inter) == if inter {
            TxbSet::Luma4Inter
        } else {
            TxbSet::Luma4
        },
{
}

/// A luma transform offers its types by its size and prediction: an intra one of up
/// to 8 all seven, or five of a reduced set as one of 16 does; an inter one of up to
/// 8 all sixteen and one of 16 twelve, or the identity and the cosine of a reduced
/// set as one of 32 does. Anything larger, and chroma, offers none.
pub proof fn types_are_offered_by_size(set: TxbSet, reduced: bool)
    ensures
        ({
            let offered = coeffs::tx_set(set, reduced);
            let small = set == TxbSet::Luma4 || set == TxbSet::Luma8;
            let small_inter = set == TxbSet::Luma4Inter || set == TxbSet::Luma8Inter;
            &&& small && !reduced ==> offered == Some(tx_type::intra_set1())
            &&& small && reduced || set == TxbSet::Luma16 ==> offered == Some(
                tx_type::intra_set2(),
            )
            &&& small_inter && !reduced ==> offered == Some(tx_type::inter_set1())
            &&& set == TxbSet::Luma16Inter && !reduced ==> offered == Some(tx_type::inter_set2())
            &&& (small_inter || set == TxbSet::Luma16Inter) && reduced || set
                == TxbSet::Luma32Inter ==> offered == Some(seq![TxType::Idtx, TxType::DctDct])
            &&& set == TxbSet::Luma32 || set == TxbSet::Luma64 || set == TxbSet::Chroma4 || set
                == TxbSet::Chroma8 || set == TxbSet::Chroma16 || set == TxbSet::Chroma32
                ==> offered is None
        }),
{
}

/// A plane is coded by what lies around it: luma's all-zero flag of a whole block in
/// context 0, chroma's in that of how many sides carried a coefficient of the same
/// plane; the DC's sign by the majority around; luma with its own type, and chroma
/// with the cosine transform.
pub proof fn planes_are_coded_by_their_surroundings(
    plan: FramePlan,
    b: Bands,
    mi_r: int,
    mi_c: int,
    side: int,
    set: TxbSet,
    mode: usize,
    plane: int,
    tx: TxType,
)
    requires
        0 <= plane <= 2,
        0 <= side <= 128,
        side % 4 == 0,
    ensures
        ({
            let coding = residual::plane_coding(plan, b, mi_r, mi_c, side, set, mode, plane, tx);
            let around = neighbours::around_of(b, mi_r, mi_c, side / 4, plane);
            let positive = neighbour_laws::dcs(b.above, mi_c, side / 4, plane, false)
                + neighbour_laws::dcs(b.left, mi_r, side / 4, plane, false);
            let negative = neighbour_laws::dcs(b.above, mi_c, side / 4, plane, true)
                + neighbour_laws::dcs(b.left, mi_r, side / 4, plane, true);
            &&& coding.set == set && coding.mode == mode && coding.reduced == plan.reduced_tx_set
            &&& plane == 0 ==> coding.skip_ctx == 0 && coding.tx_type == tx
            &&& plane != 0 ==> coding.skip_ctx == count2(around.above_coded, around.left_coded)
                && coding.tx_type == TxType::DctDct
            &&& coding.sign_ctx == if positive > negative {
                2usize
            } else if positive < negative {
                1
            } else {
                0
            }
        }),
{
    neighbour_laws::sign_contexts_follow_the_majority(b, mi_r, mi_c, side / 4, plane);
}

/// Three planes are coded in the order Y, U, V, each with its own levels and
/// surroundings; luma is left out where its units were coded before.
pub proof fn planes_are_coded_in_order(
    plan: FramePlan,
    b: Bands,
    mi_r: int,
    mi_c: int,
    side: int,
    sets: residual::PlaneSets,
    mode: usize,
    tx: TxType,
    y: Seq<i32>,
    u: Seq<i32>,
    v: Seq<i32>,
)
    ensures
        ({
            let yc = residual::plane_coding(plan, b, mi_r, mi_c, side, sets.y, mode, 0, tx);
            let uc = residual::plane_coding(plan, b, mi_r, mi_c, side, sets.uv, mode, 1, tx);
            let vc = residual::plane_coding(plan, b, mi_r, mi_c, side, sets.uv, mode, 2, tx);
            let chroma = coeffs::coeffs_ops(uc, u) + coeffs::coeffs_ops(vc, v);
            &&& residual::planes_ops(plan, b, mi_r, mi_c, side, sets, mode, true, tx, y, u, v)
                == chroma
            &&& residual::planes_ops(plan, b, mi_r, mi_c, side, sets, mode, false, tx, y, u, v)
                == coeffs::coeffs_ops(yc, y) + chroma
        }),
{
    reveal(residual::planes_ops);
    let yc = residual::plane_coding(plan, b, mi_r, mi_c, side, sets.y, mode, 0, tx);
    let uc = residual::plane_coding(plan, b, mi_r, mi_c, side, sets.uv, mode, 1, tx);
    let vc = residual::plane_coding(plan, b, mi_r, mi_c, side, sets.uv, mode, 2, tx);
    let (p, q, r) = (
        coeffs::coeffs_ops(yc, y),
        coeffs::coeffs_ops(uc, u),
        coeffs::coeffs_ops(vc, v),
    );
    assert(Seq::<Op>::empty() + q + r =~= q + r);
    assert(p + q + r =~= p + (q + r));
}

/// A transform is halved once for each step of its depth, and the largest one of a
/// block falls into one of four categories by its size.
pub proof fn depths_halve_the_transform(side: int, depth: int)
    requires
        side == 8 || side == 16 || side == 32 || side == 64,
        0 <= depth <= 2,
    ensures
        depth == 0 ==> residual::halved(side, depth) == side,
        depth > 0 ==> 2 * residual::halved(side, depth) == residual::halved(side, depth - 1),
        residual::tx_category(side) == 0 <==> side == 8,
        residual::tx_category(side) == 1 <==> side == 16,
        residual::tx_category(side) == 2 <==> side == 32,
        residual::tx_category(side) == 3 <==> side == 64,
        residual::is_depth(side, depth) <==> !(side == 8 && depth == 2),
{
}

/// The table of whether an inter block's transform is halved: a third of it for each
/// number of neighbours whose transform is smaller, and of these three for each size
/// of block, from 64 down to 8, with one more for a quarter of a block larger than 8.
pub proof fn halvings_go_by_smaller_neighbours(above: int, left: int, side: int, half: bool)
    requires
        side == 8 || side == 16 || side == 32 || side == 64,
    ensures
        ({
            let tx = if half {
                side / 2
            } else {
                side
            };
            let ctx = residual::spec_txfm_partition_ctx(above, left, side, tx);
            let first = if side == 64 {
                0int
            } else if side == 32 {
                6
            } else if side == 16 {
                12
            } else {
                18
            };
            let quarter = if half && side > 8 {
                3int
            } else {
                0
            };
            ctx == first + quarter + count2(above < tx, left < tx)
        }),
{
}

/// The depth of an inter frame's block: an intra one codes it in the table of its
/// size and of the neighbours at least as large, a skipped inter one codes nothing
/// and is whole, and any other inter one says whether it is halved and, for each
/// quarter above 4 samples, that it is not halved again. What it leaves is the size
/// of its transform.
pub proof fn inter_depths_are_coded_by_their_kind(
    w: Written,
    mi_r: int,
    mi_c: int,
    side: int,
    depth: int,
)
    requires
        side == 8 || side == 16 || side == 32 || side == 64,
    ensures
        ({
            let skipped = residual::tx_inter_written(w, mi_r, mi_c, side, true, true, depth);
            let intra = residual::tx_inter_written(w, mi_r, mi_c, side, false, false, depth);
            let whole = residual::tx_inter_written(w, mi_r, mi_c, side, true, false, 0);
            let split = residual::tx_inter_written(w, mi_r, mi_c, side, true, false, 1);
            let (a, l) = (w.bands.above[mi_c].txfm as int, w.bands.left[mi_r].txfm as int);
            let ctx = residual::spec_txfm_partition_ctx(a, l, side, side) as usize;
            &&& skipped.w.ops == w.ops && skipped.tx == side
            &&& skipped.w.bands == neighbours::after_txfm(w.bands, mi_r, mi_c, side, side)
            &&& intra.w.ops == w.ops.push(
                ops::symbol(
                    depth,
                    Cdf::TxSize(
                        residual::tx_category(side) as usize,
                        neighbours::spec_tx_size_ctx_txfm(w.bands, mi_r, mi_c, side) as usize,
                    ),
                ),
            )
            &&& intra.tx == residual::halved(side, depth)
            &&& intra.w.bands == neighbours::after_txfm(w.bands, mi_r, mi_c, intra.tx, side)
            &&& whole.w.ops == w.ops.push(told(false, Cdf::TxfmPartition(ctx)))
            &&& whole.tx == side
            &&& whole.w.bands == neighbours::after_txfm(w.bands, mi_r, mi_c, side, side)
            &&& split.tx == side / 2
            &&& split.w.ops.len() == w.ops.len() + if side == 8 {
                1int
            } else {
                5
            }
            &&& split.w.ops[w.ops.len() as int] == told(true, Cdf::TxfmPartition(ctx))
        }),
{
    reveal(residual::tx_inter_written);
}

/// A vector's difference says which of its two components are not zero, then codes
/// each that is not, the row first and in its own tables.
pub proof fn differences_are_coded_row_first(mv: (i32, i32), pred: (i32, i32))
    ensures
        ({
            let said = vectors::mv_said(mv, pred);
            let (row, col) = (mv.0 - pred.0, mv.1 - pred.1);
            let joint = |v: int| ops::symbol(v, Cdf::MvJoint);
            &&& row == 0 && col == 0 ==> said.ops =~= seq![joint(0)] && said.fault is None
            &&& row == 0 && col != 0 ==> said.ops == seq![joint(1)] + vectors::mv_component(
                1,
                col,
            ).ops
            &&& row != 0 && col == 0 ==> said.ops == seq![joint(2)] + vectors::mv_component(
                0,
                row,
            ).ops
            &&& row % 2 == 0 && col % 2 == 0 ==> said.fault is None
            &&& row % 2 == 0 && col % 2 == 0 && row != 0 && col != 0 ==> said.ops == seq![joint(3)]
                + vectors::mv_component(0, row).ops + vectors::mv_component(1, col).ops
        }),
{
    reveal(vectors::mv_said);
    let (row, col) = (mv.0 - pred.0, mv.1 - pred.1);
    let j0 = seq![ops::symbol(0, Cdf::MvJoint)];
    let j1 = seq![ops::symbol(1, Cdf::MvJoint)];
    let j2 = seq![ops::symbol(2, Cdf::MvJoint)];
    let r = vectors::mv_component(0, row).ops;
    let c = vectors::mv_component(1, col).ops;
    assert(j0 + Seq::<Op>::empty() + Seq::<Op>::empty() =~= j0);
    assert(j1 + Seq::<Op>::empty() + c =~= j1 + c);
    assert(j2 + r + Seq::<Op>::empty() =~= j2 + r);
}

/// A component starts with its sign and its class, in tables of its own: a small one
/// has class 0, and from 16 eighths on each class is twice as long as the one
/// before.
pub proof fn components_are_classed_by_size(kind: VectorKind, comp: usize, diff: int)
    requires
        diff != 0,
        -16384 <= diff <= 16384,
    ensures
        ({
            let said = vectors::component_ops(kind, comp, diff);
            let table = |t: MvTable|
                if kind == VectorKind::Mv {
                    Cdf::Mv(comp, t)
                } else {
                    Cdf::Dv(comp, t)
                };
            let z = (if diff < 0 { -diff } else { diff }) - 1;
            let class = vectors::class_of(z);
            &&& said[0] == told(diff < 0, table(MvTable::Sign))
            &&& said[1] == ops::symbol(class, table(MvTable::Class))
            &&& class == 0 <==> z < 16
            &&& class == 1 <==> 16 <= z < 32
            &&& class == 2 <==> 32 <= z < 64
            &&& class == 3 <==> 64 <= z < 128
            &&& class == 4 <==> 128 <= z < 256
            &&& class == 5 <==> 256 <= z < 512
            &&& class == 6 <==> 512 <= z < 1024
            &&& class == 7 <==> 1024 <= z < 2048
            &&& class == 8 <==> 2048 <= z < 4096
            &&& class == 9 <==> 4096 <= z < 8192
            &&& class == 10 <==> 8192 <= z
        }),
{
    reveal_with_fuel(vectors::class_from, 12);
}

/// The first symbols of a mode of one reference say, each in the stack's own context,
/// whether the vector is coded, else whether it is not zero, else whether it is past
/// the nearest candidate. The vector a block ends up with is the one coded, zero, the
/// nearest candidate's, or the one that the index reaches.
pub proof fn modes_are_walked_in_order(info: InterInfo, s: MvStack)
    requires
        info.mode == InterMode::NewMv || info.mode == InterMode::GlobalMv || info.mode
            == InterMode::NearestMv || info.mode == InterMode::NearMv,
    ensures
        ({
            let done = motion::inter_mode(info, s);
            let said = done.said.ops;
            let (new, zero, near) = (
                Cdf::NewMv(s.new_mv_ctx),
                Cdf::ZeroMv(s.zero_mv_ctx),
                Cdf::RefMv(s.ref_mv_ctx),
            );
            &&& said[0] == told(info.mode != InterMode::NewMv, new)
            &&& info.mode != InterMode::NewMv ==> said[1] == told(
                info.mode != InterMode::GlobalMv,
                zero,
            )
            &&& info.mode == InterMode::NearestMv || info.mode == InterMode::NearMv ==> said[2]
                == told(info.mode == InterMode::NearMv, near)
            &&& done.is_new <==> info.mode == InterMode::NewMv
            &&& info.mode == InterMode::NewMv ==> done.mv == info.mv
            &&& info.mode == InterMode::GlobalMv ==> done.mv == (0i32, 0i32)
            &&& info.mode == InterMode::NearestMv ==> done.mv == s.nearest_mv
            &&& info.mode == InterMode::NearMv && s.entries@.len() <= 1 ==> done.mv == s.near_mv
            &&& info.mode == InterMode::NearMv && s.entries@.len() > 1 && info.ref_mv_idx <= 1
                ==> done.mv == s.entries@[1]
            &&& info.mode == InterMode::NearMv && 2 <= info.ref_mv_idx <= 3 && s.entries@.len()
                > info.ref_mv_idx ==> done.mv == s.entries@[info.ref_mv_idx as int]
        }),
{
    reveal(motion::drl_ops);
    if info.mode == InterMode::NewMv {
        let idx = info.ref_mv_idx as int;
        let len = s.entries@.len() as int;
        let end = motion::drl_end(len, 0, idx);
        let base = motion::candidate(s.entries@, end, s.pred_mv);
        let head = seq![ops::symbol(0, Cdf::NewMv(s.new_mv_ctx))] + motion::drl_ops(
            s.drl_ctx@,
            len,
            0,
            idx,
        ) + motion::clamp_ops(
            end != idx && base != motion::candidate(s.entries@, idx, s.pred_mv),
        );
        assert(head[0] == ops::symbol(0, Cdf::NewMv(s.new_mv_ctx)));
        assert((head + vectors::mv_said(info.mv, base).ops)[0] == head[0]);
    }
}

/// The vectors a pair ends up with: each is coded, zero, or a candidate's, as its half
/// of the mode's name says; and where one is coded, it is coded against the candidate
/// that the index reaches, or the first one for a mode of a single coded vector.
pub proof fn pairs_are_what_their_modes_say(info: InterInfo, s: CompoundStack)
    ensures
        ({
            let done = motion::pair_of(info, s);
            let first = if s.entries@.len() > 0 {
                s.entries@[0]
            } else {
                s.nearest_mv
            };
            &&& info.mode == InterMode::NearestNearestMv ==> done.mvs == s.nearest_mv
                && done.said.ops.len() == 0
            &&& info.mode == InterMode::GlobalGlobalMv ==> done.mvs == (
                (0i32, 0i32),
                (0i32, 0i32),
            ) && done.said.ops.len() == 0
            &&& info.mode == InterMode::NearestNewMv ==> done.mvs == (s.nearest_mv.0, info.mv1)
                && done.said == vectors::mv_said(info.mv1, first.1)
            &&& info.mode == InterMode::NewNearestMv ==> done.mvs == (info.mv, s.nearest_mv.1)
                && done.said == vectors::mv_said(info.mv, first.0)
            &&& info.mode == InterMode::NewNewMv ==> done.mvs == (info.mv, info.mv1)
            &&& info.mode == InterMode::NearNearMv && s.entries@.len() <= 1 ==> done.mvs
                == s.near_mv
            &&& info.mode == InterMode::NearNearMv && info.ref_mv_idx <= 2 && s.entries@.len()
                > info.ref_mv_idx + 1 ==> done.mvs == s.entries@[info.ref_mv_idx + 1]
        }),
{
}

/// The context of a pair's mode: by how many of the neighbours' candidates are near,
/// in three groups of two, and new, up to four. It never falls as either grows.
pub proof fn pair_contexts_grow(s: CompoundStack)
    requires
        s.ref_mv_ctx < 6,
    ensures
        ({
            let ctx = motion::compound_ctx(s);
            let (near, new) = (s.ref_mv_ctx, s.new_mv_ctx);
            &&& near <= 1 ==> ctx == if new == 0 {
                0usize
            } else {
                1
            }
            &&& 2 <= near <= 3 ==> ctx == if new >= 3 {
                4usize
            } else {
                (new + 1) as usize
            }
            &&& near >= 4 ==> ctx == if new <= 1 {
                4usize
            } else if new >= 4 {
                7
            } else {
                (new + 3) as usize
            }
        }),
{
    let (r, n) = (s.ref_mv_ctx as int / 2, context::min(s.new_mv_ctx as int, 4));
    assert(r == 0 || r == 1 || r == 2);
    assert(n == 0 || n == 1 || n == 2 || n == 3 || n == 4);
    assert(COMPOUND_MODE_CTX_MAP[0][0] == 0 && COMPOUND_MODE_CTX_MAP[0][1] == 1
        && COMPOUND_MODE_CTX_MAP[0][2] == 1 && COMPOUND_MODE_CTX_MAP[0][3] == 1
        && COMPOUND_MODE_CTX_MAP[0][4] == 1);
    assert(COMPOUND_MODE_CTX_MAP[1][0] == 1 && COMPOUND_MODE_CTX_MAP[1][1] == 2
        && COMPOUND_MODE_CTX_MAP[1][2] == 3 && COMPOUND_MODE_CTX_MAP[1][3] == 4
        && COMPOUND_MODE_CTX_MAP[1][4] == 4);
    assert(COMPOUND_MODE_CTX_MAP[2][0] == 4 && COMPOUND_MODE_CTX_MAP[2][1] == 4
        && COMPOUND_MODE_CTX_MAP[2][2] == 5 && COMPOUND_MODE_CTX_MAP[2][3] == 6
        && COMPOUND_MODE_CTX_MAP[2][4] == 7);
}

/// The motion mode is coded where the frame switches it and the block's neighbours
/// overlap it: one of three where warping is on offer and a sample was found, else
/// whether it is overlapped; each by the block's side.
pub proof fn motion_modes_are_coded_where_they_are_open(
    plan: FramePlan,
    m: MotionContext,
    side: int,
    how: u8,
)
    requires
        side >= 8,
    ensures
        ({
            let said = motion::motion_mode_ops(plan, m, side, how);
            &&& said.len() == 0 <==> !plan.motion_mode || !m.overlappable
            &&& plan.motion_mode && m.overlappable && plan.warped_motion && m.warp_samples > 0
                ==> said[0] == ops::symbol(how as int, Cdf::MotionMode(side as usize))
            &&& plan.motion_mode && m.overlappable && (!plan.warped_motion || m.warp_samples == 0)
                ==> said[0] == told(how == 1, Cdf::Obmc(side as usize))
        }),
{
}

/// A block copied from its own frame is coded against the nearest candidate, else the
/// near one, else a block of its own above it or, in the first row of superblocks, to
/// the left of it; each taken down to whole samples.
pub proof fn copies_are_predicted_in_whole_samples(s: MvStack, mi_r: int)
    requires
        motion::is_stack(s),
    ensures
        ({
            let none = (0i32, 0i32);
            let candidate = key_block::copy_candidate(s);
            let p = key_block::spec_dv_pred(candidate, mi_r);
            &&& s.nearest_mv != none ==> candidate == s.nearest_mv
            &&& s.nearest_mv == none ==> candidate == s.near_mv
            &&& p.0 % 8 == 0 && p.1 % 8 == 0
            &&& candidate != none ==> 0 <= candidate.0 - p.0 < 8 && 0 <= candidate.1 - p.1 < 8
            &&& candidate == none && mi_r < 16 ==> p == (0i32, -2560i32)
            &&& candidate == none && mi_r >= 16 ==> p == (-512i32, 0i32)
        }),
{
}

/// What an inter frame's block leaves behind it, once its residual is written: in
/// each of its units the block's side, its skip flag, whether it is predicted from
/// another frame and from which ones, and the coefficients of its planes as far as
/// the frame goes; and nothing anywhere else.
pub proof fn inter_blocks_leave_what_they_are(
    plan: FramePlan,
    b: Bands,
    block: BlockCoeffs,
    mi_r: int,
    mi_c: int,
    side: int,
    states: PlaneStates,
    i: int,
)
    requires
        side == 8 || side == 16 || side == 32 || side == 64,
        0 <= i,
        0 <= b.mi_cols <= 0xffff_ffff,
        0 <= b.mi_rows <= 0xffff_ffff,
    ensures
        ({
            let done = inter_block::left_behind(plan, b, block, mi_r, mi_c, side, states, true);
            &&& i < b.above.len() && neighbour_laws::is_own(i, mi_c, side) ==> {
                let c = done.above[i];
                &&& c.side == side && c.skip == block.skip && c.inter == (block.inter is Some)
                &&& block.inter is None ==> c.ref0 == -1 && c.ref1 is None
                &&& block.inter matches Some(info) ==> c.ref0 == info.ref_frame && c.ref1
                    == info.ref1
                &&& i < b.mi_cols ==> c.y == states.y && c.u == states.u && c.v == states.v
                &&& c.txfm == b.above[i].txfm
            }
            &&& i < b.left.len() && neighbour_laws::is_own(i, mi_r, side) ==> {
                let c = done.left[i];
                &&& c.side == side && c.skip == block.skip && c.inter == (block.inter is Some)
                &&& block.inter is None ==> c.ref0 == -1 && c.ref1 is None
                &&& block.inter matches Some(info) ==> c.ref0 == info.ref_frame && c.ref1
                    == info.ref1
                &&& i < b.mi_rows ==> c.y == states.y && c.u == states.u && c.v == states.v
                &&& c.txfm == b.left[i].txfm
            }
            &&& i < b.above.len() && !neighbour_laws::is_own(i, mi_c, side) ==> done.above[i]
                == b.above[i]
            &&& i < b.left.len() && !neighbour_laws::is_own(i, mi_r, side) ==> done.left[i]
                == b.left[i]
        }),
{
    let moded = neighbours::after_mode(
        b,
        mi_r / 4,
        mi_c / 4,
        side / 16,
        inter_block::row_of(block),
    );
    let planes = neighbours::after_planes(moded, mi_r, mi_c, side, states, true, plan.screen);
    lemma_planes_left(plan, moded, mi_r, mi_c, side, states, i);
    let (inter, name) = (block.inter is Some, inter_block::spec_block_ref(block));
    let second = match block.inter {
        Some(info) => match info.ref1 {
            Some(r) => r,
            None => 0i8,
        },
        None => 0i8,
    };
    neighbour_laws::inter_blocks_leave_their_references(
        planes,
        mi_r,
        mi_c,
        side,
        block.skip,
        inter,
        (name, second),
        i,
    );
    lemma_names_left(planes, mi_r, mi_c, side, block.skip, inter, (name, second), i);
}

/// References leave the rest of a unit as it was.
proof fn lemma_names_left(
    b: Bands,
    mi_r: int,
    mi_c: int,
    side: int,
    skip: bool,
    inter: bool,
    names: (i8, i8),
    i: int,
)
    requires
        0 <= i,
    ensures
        ({
            let one = neighbours::after_inter(b, mi_r, mi_c, side, skip, inter, names.0);
            let two = neighbours::after_compound(one, mi_r, mi_c, side, names.1, 0, 1);
            &&& i < b.above.len() ==> {
                let (c, d, e) = (b.above[i], one.above[i], two.above[i]);
                &&& d.side == c.side && d.y == c.y && d.u == c.u && d.v == c.v && d.txfm == c.txfm
                &&& e.side == c.side && e.y == c.y && e.u == c.u && e.v == c.v && e.txfm == c.txfm
            }
            &&& i < b.left.len() ==> {
                let (c, d, e) = (b.left[i], one.left[i], two.left[i]);
                &&& d.side == c.side && d.y == c.y && d.u == c.u && d.v == c.v && d.txfm == c.txfm
                &&& e.side == c.side && e.y == c.y && e.u == c.u && e.v == c.v && e.txfm == c.txfm
            }
        }),
{
}

/// Planes leave their side and their coefficients, with or without palettes.
proof fn lemma_planes_left(
    plan: FramePlan,
    b: Bands,
    mi_r: int,
    mi_c: int,
    side: int,
    states: PlaneStates,
    i: int,
)
    requires
        side == 8 || side == 16 || side == 32 || side == 64,
        0 <= i,
        0 <= b.mi_cols <= 0xffff_ffff,
        0 <= b.mi_rows <= 0xffff_ffff,
    ensures
        ({
            let done = neighbours::after_planes(b, mi_r, mi_c, side, states, true, plan.screen);
            &&& done.above.len() == b.above.len() && done.left.len() == b.left.len()
            &&& i < b.above.len() && neighbour_laws::is_own(i, mi_c, side) ==> {
                let c = done.above[i];
                &&& c.side == side && c.txfm == b.above[i].txfm
                &&& i < b.mi_cols ==> c.y == states.y && c.u == states.u && c.v == states.v
            }
            &&& i < b.left.len() && neighbour_laws::is_own(i, mi_r, side) ==> {
                let c = done.left[i];
                &&& c.side == side && c.txfm == b.left[i].txfm
                &&& i < b.mi_rows ==> c.y == states.y && c.u == states.u && c.v == states.v
            }
            &&& i < b.above.len() && !neighbour_laws::is_own(i, mi_c, side) ==> done.above[i]
                == b.above[i]
            &&& i < b.left.len() && !neighbour_laws::is_own(i, mi_r, side) ==> done.left[i]
                == b.left[i]
        }),
{
    let p = neighbours::after_palettes(b, mi_r, mi_c, side / 4);
    assert(p.above.len() == b.above.len() && p.left.len() == b.left.len());
    if i < b.above.len() {
        assert(p.above[i].txfm == b.above[i].txfm);
        if !neighbour_laws::is_own(i, mi_c, side) {
            assert(p.above[i] == b.above[i]);
        }
    }
    if i < b.left.len() {
        assert(p.left[i].txfm == b.left[i].txfm);
        if !neighbour_laws::is_own(i, mi_r, side) {
            assert(p.left[i] == b.left[i]);
        }
    }
}

/// What follows a component's class, in tables of its own: a small one's whole sample as one
/// bit, and a larger one's from the lowest bit up, each in its own table; then, but for a
/// copy, the quarter of a sample, a small one's in the table of its bit.
pub proof fn components_are_coded_bit_by_bit(kind: VectorKind, comp: usize, diff: int, i: int)
    requires
        diff != 0,
        -16384 <= diff <= 16384,
        0 <= i < vectors::class_of((if diff < 0 { -diff } else { diff }) - 1),
    ensures
        ({
            let said = vectors::component_ops(kind, comp, diff);
            let table = |t: MvTable|
                if kind == VectorKind::Mv {
                    Cdf::Mv(comp, t)
                } else {
                    Cdf::Dv(comp, t)
                };
            let z = (if diff < 0 { -diff } else { diff }) - 1;
            let class = vectors::class_of(z);
            let local = z - vectors::MV_CLASS_BASE[class];
            &&& said[2 + i] == ops::symbol(
                golomb::bit_of(local / 8, i),
                table(MvTable::Bit(i as usize)),
            )
            &&& kind == VectorKind::Dv ==> said.len() == 2 + class
            &&& kind == VectorKind::Mv ==> said.len() == 3 + class && said.last() == ops::symbol(
                (local / 2) % 4,
                table(MvTable::Fr),
            )
        }),
{
    reveal_with_fuel(vectors::class_from, 12);
}

/// The same of a small component.
pub proof fn small_components_have_one_bit(kind: VectorKind, comp: usize, diff: int)
    requires
        diff != 0,
        -16 <= diff <= 16,
    ensures
        ({
            let said = vectors::component_ops(kind, comp, diff);
            let table = |t: MvTable|
                if kind == VectorKind::Mv {
                    Cdf::Mv(comp, t)
                } else {
                    Cdf::Dv(comp, t)
                };
            let z = (if diff < 0 { -diff } else { diff }) - 1;
            let whole = if z >= 8 {
                1int
            } else {
                0
            };
            &&& said[2] == ops::symbol(whole, table(MvTable::Class0Bit))
            &&& kind == VectorKind::Dv ==> said.len() == 3
            &&& kind == VectorKind::Mv ==> said.len() == 4 && said[3] == ops::symbol(
                (z - 8 * whole) / 2,
                table(MvTable::Class0Fr(whole as usize)),
            )
        }),
{
    reveal_with_fuel(vectors::class_from, 12);
}

/// A candidate index is coded as a flag for each candidate that is passed, in the context
/// between it and the next, and one more that is off where another candidate could follow;
/// at most two flags in all.
pub proof fn candidate_indices_are_flags(ctx: Seq<usize>, len: int, start: int, target: int, k: int)
    requires
        start <= target,
        0 <= k,
    ensures
        ({
            let said = motion::drl_ops(ctx, len, start, target);
            let passed = |n: int| n < target && n < start + 2 && n < len - 1;
            &&& said.len() <= 2
            &&& k < 2 && passed(start + k) ==> said[k] == told(true, Cdf::DrlMode(ctx[start + k]))
            &&& target < start + 2 && target < len - 1 ==> said.len() == target - start + 1
                && said.last() == told(false, Cdf::DrlMode(ctx[target]))
            &&& len <= start + 1 ==> said.len() == 0
        }),
{
    reveal(motion::drl_ops);
}

/// A coded vector is coded against the candidate its index names, after the flags of that
/// index, and against the predicted one where there is no candidate. A pair's are each coded
/// against their own half of the candidate, the first one first.
pub proof fn coded_vectors_start_from_their_candidate(info: InterInfo, m: MotionContext)
    requires
        info.ref_mv_idx <= 2,
    ensures
        ({
            let (idx, s) = (info.ref_mv_idx as int, m.single);
            let done = motion::inter_mode(info, s).said;
            let flags = motion::drl_ops(s.drl_ctx@, s.entries@.len() as int, 0, idx);
            let head = seq![told(false, Cdf::NewMv(s.new_mv_ctx))] + flags;
            &&& info.mode == InterMode::NewMv && idx < s.entries@.len() && done.fault is None
                ==> done.ops == (head + vectors::mv_said(info.mv, s.entries@[idx]).ops).push(
                Op::Note(Note::InterMode(3, info.ref_mv_idx as usize)),
            )
            &&& info.mode == InterMode::NewMv && s.entries@.len() == 0 && done.fault is None
                ==> done.ops == (head + vectors::mv_said(info.mv, s.pred_mv).ops).push(
                Op::Note(Note::InterMode(3, 0)),
            )
        }),
        ({
            let (idx, s) = (info.ref_mv_idx as int, m.compound);
            let done = motion::pair_of(info, s).said;
            let flags = motion::drl_ops(s.drl_ctx@, s.entries@.len() as int, 0, idx);
            info.mode == InterMode::NewNewMv && idx < s.entries@.len() && done.fault is None
                ==> done.ops == flags + vectors::mv_said(info.mv, s.entries@[idx].0).ops
                + vectors::mv_said(info.mv1, s.entries@[idx].1).ops
        }),
{
    let idx = info.ref_mv_idx as int;
    let none = Seq::<Op>::empty();
    if info.mode == InterMode::NewMv {
        let s = m.single;
        let flags = motion::drl_ops(s.drl_ctx@, s.entries@.len() as int, 0, idx);
        let head = seq![told(false, Cdf::NewMv(s.new_mv_ctx))] + flags;
        assert(head + none =~= head);
        if s.entries@.len() == 0 {
            assert(motion::drl_end(0, 0, idx) == 0);
        } else if idx < s.entries@.len() {
            assert(motion::drl_end(s.entries@.len() as int, 0, idx) == idx);
        }
    }
    if info.mode == InterMode::NewNewMv {
        let s = m.compound;
        let flags = motion::drl_ops(s.drl_ctx@, s.entries@.len() as int, 0, idx);
        assert(flags + none =~= flags);
    }
}

/// A block's residual that is not split is coded with its own tables: luma's of its size and
/// of how it is predicted, chroma's of half its size; by its own mode, or the DC one where it
/// is predicted from another frame; with its own first type and its own levels.
pub proof fn residuals_are_coded_with_their_own_tables(
    plan: FramePlan,
    t: TileView,
    block: BlockCoeffs,
    mi_r: int,
    mi_c: int,
    side: int,
    levels: (Seq<i32>, Seq<i32>, Seq<i32>),
)
    requires
        side == 8 || side == 16 || side == 32 || side == 64,
        side == 64 ==> block.tx_depth != 1,
    ensures
        ({
            let (y, u, v) = levels;
            let inter = block.inter is Some;
            let done = inter_block::inter_planes(
                plan,
                t,
                block,
                mi_r,
                mi_c,
                side,
                side,
                y,
                u,
                v,
            );
            let sets = residual::PlaneSets {
                y: residual::luma_set(side, inter),
                uv: key_block::key_sets(side).uv,
            };
            let mode = if inter {
                0usize
            } else {
                intra::spec_tx_row(block.mode as int, block.filter_intra) as usize
            };
            let first = if block.luma_tx_types@.len() > 0 {
                block.luma_tx_types@[0]
            } else {
                TxType::DctDct
            };
            &&& done.ops == t.ops + residual::planes_ops(
                plan,
                t.bands,
                mi_r,
                mi_c,
                side,
                sets,
                mode,
                false,
                first,
                y,
                u,
                v,
            )
            &&& done.bands == inter_block::left_behind(
                plan,
                t.bands,
                block,
                mi_r,
                mi_c,
                side,
                neighbours::states_of(y, u, v),
                true,
            )
        }),
{
    reveal(inter_block::inter_planes);
}

/// The same of a key frame's block in a frame that has one transform size: luma's tables of its
/// size, by its mode or its filter's direction. What it leaves is its mode, its side and its
/// coefficients.
pub proof fn key_residuals_are_coded_with_their_own_tables(
    plan: FramePlan,
    t: TileView,
    block: BlockCoeffs,
    mi_r: int,
    mi_c: int,
    side: int,
    levels: (Seq<i32>, Seq<i32>, Seq<i32>),
)
    requires
        side == 8 || side == 16 || side == 32 || side == 64,
        !plan.tx_select,
        !plan.intrabc,
    ensures
        ({
            let (y, u, v) = levels;
            let done = key_block::key_residual(plan, t, block, mi_r, mi_c, side, y, u, v);
            let sets = residual::PlaneSets {
                y: residual::luma_set(side, false),
                uv: inter_block::inter_sets(side, false).uv,
            };
            let mode = match block.filter_intra {
                None => block.mode as usize,
                Some(f) => FILTER_INTRA_DIR[f as int],
            };
            let first = if block.luma_tx_types@.len() > 0 {
                block.luma_tx_types@[0]
            } else {
                TxType::DctDct
            };
            &&& done.fault is None
            &&& done.tile.ops == t.ops + residual::planes_ops(
                plan,
                t.bands,
                mi_r,
                mi_c,
                side,
                sets,
                mode,
                false,
                first,
                y,
                u,
                v,
            )
            &&& done.tile.bands == neighbours::after_planes(
                neighbours::after_mode(
                    t.bands,
                    mi_r / 4,
                    mi_c / 4,
                    side / 16,
                    block.mode as usize,
                ),
                mi_r,
                mi_c,
                side,
                neighbours::states_of(y, u, v),
                true,
                plan.screen,
            )
            &&& done.tile.records == t.records && done.tile.asked == t.asked
        }),
{
    reveal(key_block::key_residual);
}

} // verus!
