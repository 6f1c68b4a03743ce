//! Where in a frame its plans are coded, and what they come to.
use crate::bits;
use crate::tile::children;
use crate::tile::layout;
use crate::tile::ops;
use crate::tile::ops::{Alike, Cdf, Op};
use crate::tile::plans;
use crate::tile::plans::{CdefIdxPlan, DeltaQPlan, FramePlan, LrPlan};
use vstd::prelude::*;

verus! {

/// Two units have one superblock's index exactly where they lie in the same 64x64
/// superblock.
pub proof fn superblocks_are_told_apart(a: (int, int), b: (int, int), sb_cols: int)
    requires
        0 <= a.0,
        0 <= b.0,
        0 <= a.1 < 16 * sb_cols,
        0 <= b.1 < 16 * sb_cols,
    ensures
        plans::superblock_of(a.0, a.1, sb_cols) == plans::superblock_of(b.0, b.1, sb_cols) <==> a.0
            / 16 == b.0 / 16 && a.1 / 16 == b.1 / 16,
        a.0 < 16 && a.1 < 16 ==> plans::superblock_of(a.0, a.1, sb_cols) == 0,
        a.1 + 16 < 16 * sb_cols ==> plans::superblock_of(a.0, a.1 + 16, sb_cols)
            == plans::superblock_of(a.0, a.1, sb_cols) + 1,
        plans::superblock_of(a.0 + 16, a.1, sb_cols) == plans::superblock_of(a.0, a.1, sb_cols)
            + sb_cols,
{
    let (r, s) = (a.0 / 16, b.0 / 16);
    let (c, d) = (a.1 / 16, b.1 / 16);
    assert(r * sb_cols + c == s * sb_cols + d ==> r == s && c == d) by (nonlinear_arith)
        requires
            0 <= c < sb_cols,
            0 <= d < sb_cols,
    ;
    assert((r + 1) * sb_cols == r * sb_cols + sb_cols) by (nonlinear_arith);
    assert((a.0 + 16) / 16 == r + 1);
    assert(0 * sb_cols == 0);
}

/// The index of a superblock is coded by its first block that is not skipped, as the
/// plan has it, and by no other block until the next superblock.
pub proof fn indices_are_coded_by_the_first_block(
    p: CdefIdxPlan,
    last: Option<u64>,
    mi_r: int,
    mi_c: int,
    skip: bool,
)
    requires
        0 <= plans::superblock_of(mi_r, mi_c, p.sb_cols as int) <= u64::MAX,
        p.bits <= 32,
    ensures
        ({
            let plan = Some(p);
            let sb = plans::superblock_of(mi_r, mi_c, p.sb_cols as int);
            let said = plans::cdef_ops(plan, last, mi_r, mi_c, skip);
            let next = plans::cdef_last(plan, last, mi_r, mi_c, skip);
            let known = last matches Some(l) && l == sb;
            &&& skip || known ==> said.len() == 0 && next == last
            &&& !skip && !known ==> said.len() == 1 && next == Some(sb as u64)
            &&& !skip && !known && sb < p.grid@.len() ==> said[0] == ops::literal(
                p.grid@[sb] as int,
                p.bits as int,
            )
            &&& !skip && !known && sb >= p.grid@.len() ==> said[0] == ops::literal(
                0,
                p.bits as int,
            )
            &&& !skip ==> plans::cdef_ops(plan, next, mi_r, mi_c, skip).len() == 0
        }),
        plans::cdef_ops(None, last, mi_r, mi_c, skip).len() == 0,
{
}

/// The quantizer of a superblock is coded by the block at its first unit, unless that is
/// the whole superblock and skipped. It moves towards the plan's, never past it, and ends
/// less than one step away from it; a plan that is a whole number of steps away is met.
pub proof fn quantizers_move_towards_their_plan(
    p: DeltaQPlan,
    cur: int,
    mi_r: int,
    mi_c: int,
    whole: bool,
    skip: bool,
)
    requires
        p.res > 0,
        1 <= cur <= 255,
        0 <= plans::superblock_of(mi_r, mi_c, p.sb_cols as int) < p.grid@.len(),
        p.grid@[plans::superblock_of(mi_r, mi_c, p.sb_cols as int)] >= 1,
    ensures
        ({
            let target = p.grid@[plans::superblock_of(mi_r, mi_c, p.sb_cols as int)] as int;
            let next = plans::next_q(Some(p), cur, mi_r, mi_c, whole, skip);
            let said = plans::delta_q_ops(Some(p), cur, mi_r, mi_c, whole, skip);
            let coded = mi_r % 16 == 0 && mi_c % 16 == 0 && !(whole && skip);
            &&& !coded ==> said.len() == 0 && next == cur
            &&& coded ==> said.len() > 0
            &&& coded && target >= cur ==> cur <= next <= target && target - next < p.res
            &&& coded && target <= cur ==> target <= next <= cur && next - target < p.res
            &&& coded ==> (next - cur) % (p.res as int) == 0
        }),
{
    let target = p.grid@[plans::superblock_of(mi_r, mi_c, p.sb_cols as int)] as int;
    let res = p.res as int;
    let far = if target >= cur {
        target - cur
    } else {
        cur - target
    };
    let n = far / res;
    bits::lemma_floor_bounds(far, res);
    assert(n >= 0) by (nonlinear_arith)
        requires
            res * n <= far < res * n + res,
            far >= 0,
            res > 0,
    ;
    assert(n * res == res * n) by (nonlinear_arith);
    assert((-n) * res == -(n * res)) by (nonlinear_arith);
    assert(n * res >= 0) by (nonlinear_arith)
        requires
            n >= 0,
            res > 0,
    ;
    vstd::arithmetic::div_mod::lemma_mod_multiples_basic(n, res);
    vstd::arithmetic::div_mod::lemma_mod_multiples_basic(-n, res);
    let steps = plans::q_steps(p, cur, mi_r, mi_c);
    assert(steps == if target >= cur {
        n
    } else {
        -n
    });
}

/// A step count of up to two is coded as it is, a larger one as three and its rest; its
/// sign follows where it is not zero.
pub proof fn steps_are_coded_up_to_three(steps: int)
    ensures
        ({
            let said = plans::steps_ops(steps);
            let size = if steps < 0 {
                -steps
            } else {
                steps
            };
            let sign = ops::literal(
                if steps < 0 {
                    1
                } else {
                    0
                },
                1,
            );
            &&& said[0] == ops::symbol(
                if size < 3 {
                    size
                } else {
                    3
                },
                Cdf::DeltaQ,
            )
            &&& size == 0 ==> said.len() == 1
            &&& size > 0 ==> said.last() == sign
            &&& 0 < size < 3 ==> said.len() == 2
            &&& size >= 3 ==> said.len() == 4
        }),
{
}

proof fn lemma_ceil(n: int, d: int, u: int)
    requires
        d > 0,
    ensures
        layout::ceil_div(n, d) <= u <==> n <= u * d,
{
    let q = layout::ceil_div(n, d);
    bits::lemma_floor_bounds(n + d - 1, d);
    if q <= u {
        assert(n <= u * d) by (nonlinear_arith)
            requires
                q <= u,
                d > 0,
                n + d - 1 < d * q + d,
        ;
    }
    if n <= u * d {
        assert(q <= u) by (nonlinear_arith)
            requires
                n <= u * d,
                d > 0,
                d * q <= n + d - 1,
        ;
    }
}

/// A restoration unit is coded with the superblock that its upper left corner lies in: the
/// rows and columns of units that a superblock of `span` units at `mi` codes are those
/// whose first sample lies in it.
pub proof fn units_are_coded_where_they_start(p: LrPlan, mi: int, span: int, u: int, end: int)
    requires
        p.unit_size > 0,
        0 <= u < end,
    ensures
        layout::ceil_div(mi * 4, p.unit_size as int) <= u && u < plans::unit_at(p, mi + span, end)
            <==> 4 * mi <= u * p.unit_size && u * p.unit_size < 4 * (mi + span),
{
    lemma_ceil(mi * 4, p.unit_size as int, u);
    lemma_ceil((mi + span) * 4, p.unit_size as int, u);
}

/// The units of a superblock are coded row by row, each as whether it is filtered and, if
/// it is, its taps.
pub proof fn units_are_coded_row_by_row(p: LrPlan, row: int, from: int, to: int)
    requires
        from < to,
    ensures
        ({
            let unit = p.units@[(to - 1) + row * p.horz_units];
            let last = plans::unit_row_ops(p, row, from, to).last();
            let said = plans::unit_ops(unit);
            &&& unit is None ==> said =~= seq![ops::symbol(0, Cdf::RestoreWiener)]
            &&& unit matches Some(taps) ==> said =~= seq![
                ops::symbol(1, Cdf::RestoreWiener),
                Op::Wiener(taps),
            ]
            &&& last == said.last()
            &&& plans::unit_row_ops(p, row, from, from).len() == 0
        }),
{
}

/// A split that leaves the frame is not coded as one: where the lower half is outside, it
/// is a flag in the mass of the types that cut the block from top to bottom; where the
/// right half is, of those that cut it from side to side; where both are, it goes without
/// saying.
pub proof fn splits_at_the_edge_are_gathered(table: Cdf)
    ensures
        plans::split_ops(table, true, true) =~= seq![ops::symbol(3, table)],
        plans::split_ops(table, true, false) =~= seq![
            Op::Gathered { cdf: table, alike: Alike::Vert, value: 1 },
        ],
        plans::split_ops(table, false, true) =~= seq![
            Op::Gathered { cdf: table, alike: Alike::Horz, value: 1 },
        ],
        plans::split_ops(table, false, false).len() == 0,
{
}

/// The quarters of a block lie in raster order, and one is inside where its first unit is.
pub proof fn quarters_lie_in_raster_order(
    plan: FramePlan,
    mi_r: int,
    mi_c: int,
    half: int,
    i: int,
)
    requires
        0 <= i < 4,
    ensures
        children::child_r(mi_r, half, i) == mi_r + half * (i / 2),
        children::child_c(mi_c, half, i) == mi_c + half * (i % 2),
        children::is_inside(plan, mi_r, mi_c, half, i) <==> mi_r + half * (i / 2) < plan.mi_rows
            && mi_c + half * (i % 2) < plan.mi_cols,
{
    assert(half * 0 == 0 && half * 1 == half);
    assert(i / 2 == 0 || i / 2 == 1);
    assert(i % 2 == 0 || i % 2 == 1);
}

/// The default tables go by the quantizer: up to 20, 60, 120, and beyond.
pub proof fn default_tables_go_by_the_quantizer(q: int)
    ensures
        layout::spec_q_ctx(q) == 0 <==> q <= 20,
        layout::spec_q_ctx(q) == 1 <==> 20 < q <= 60,
        layout::spec_q_ctx(q) == 2 <==> 60 < q <= 120,
        layout::spec_q_ctx(q) == 3 <==> q > 120,
{
}

/// A frame has as many blocks of 32 and superblocks of 64 samples as it takes to cover
/// it, and a block's half is inside where its middle is.
pub proof fn grids_just_cover_the_frame(mi: int)
    requires
        mi > 0,
    ensures
        8 * (layout::ceil_div(mi, 8) - 1) < mi <= 8 * layout::ceil_div(mi, 8),
        16 * (layout::superblocks(mi) - 1) < mi <= 16 * layout::superblocks(mi),
        layout::spec_has_half(0, 16, mi) <==> mi > 8,
{
}

/// A superblock of `span` units codes the restoration units whose upper left corner lies in it,
/// row by row: those of the rows and columns named here.
pub proof fn superblocks_code_the_units_that_start_in_them(
    p: LrPlan,
    mi_row: int,
    mi_col: int,
    span: int,
    u: int,
    v: int,
) -> (range: ((int, int), (int, int)))
    requires
        p.unit_size > 0,
        0 <= u < p.vert_units,
        0 <= v < p.horz_units,
    ensures
        ({
            let (rows, cols) = range;
            &&& plans::lr_ops(Some(p), mi_row, mi_col, span) == plans::unit_rows_ops(
                p,
                rows.0,
                rows.1,
                cols.0,
                cols.1,
            )
            &&& rows.0 <= u < rows.1 <==> 4 * mi_row <= u * p.unit_size && u * p.unit_size < 4 * (
            mi_row + span)
            &&& cols.0 <= v < cols.1 <==> 4 * mi_col <= v * p.unit_size && v * p.unit_size < 4 * (
            mi_col + span)
        }),
{
    units_are_coded_where_they_start(p, mi_row, span, u, p.vert_units as int);
    units_are_coded_where_they_start(p, mi_col, span, v, p.horz_units as int);
    let size = p.unit_size as int;
    (
        (
            layout::ceil_div(mi_row * 4, size),
            plans::unit_at(p, mi_row + span, p.vert_units as int),
        ),
        (
            layout::ceil_div(mi_col * 4, size),
            plans::unit_at(p, mi_col + span, p.horz_units as int),
        ),
    )
}

/// Rows of units follow each other from the top, and in each the units follow each other from
/// the left.
pub proof fn unit_rows_follow_each_other(p: LrPlan, row0: int, row1: int, from: int, to: int)
    requires
        row0 < row1,
        from < to,
    ensures
        plans::unit_rows_ops(p, row0, row1, from, to) == plans::unit_rows_ops(
            p,
            row0,
            row1 - 1,
            from,
            to,
        ) + plans::unit_row_ops(p, row1 - 1, from, to),
        plans::unit_row_ops(p, row0, from, to) == plans::unit_row_ops(p, row0, from, to - 1)
            + plans::unit_ops(p.units@[row0 * p.horz_units + (to - 1)]),
        plans::unit_rows_ops(p, row0, row0, from, to).len() == 0,
        plans::lr_ops(None, row0, from, to).len() == 0,
{
}

} // verus!
