//! What a frame's header and its searches fix for a whole tile, and the
//! symbols that carry it: restoration units, CDEF indices, quantizer changes.
use crate::bits;
use crate::tile::golomb;
use crate::tile::layout;
use crate::tile::neighbours;
use crate::tile::neighbours::Neighbours;
use crate::tile::ops;
use crate::tile::ops::{bit, note, put, put_literal, Alike, Cdf, Note, Op, WienerInfo};
use vstd::prelude::*;

verus! {

/// The block left undivided.
pub const PARTITION_NONE: usize = 0;

/// The block cut into four quadrants.
pub const PARTITION_SPLIT: usize = 3;

/// One restoration decision per luma restoration unit.
#[derive(Debug)]
pub struct LrPlan {
    /// The side of a unit in luma samples.
    pub unit_size: u32,
    /// How many units there are across.
    pub horz_units: u32,
    /// How many there are down.
    pub vert_units: u32,
    /// The filter each takes, or nothing, row by row.
    pub units: Vec<Option<WienerInfo>>,
}

/// One CDEF index per 64x64 superblock.
#[derive(Debug)]
pub struct CdefIdxPlan {
    /// How many bits an index takes.
    pub bits: u8,
    /// How many superblocks there are across.
    pub sb_cols: u32,
    /// The indices, row by row.
    pub grid: Vec<u8>,
}

/// One quantizer per 64x64 superblock.
#[derive(Debug)]
pub struct DeltaQPlan {
    /// What one coded step is worth.
    pub res: i32,
    /// How many superblocks there are across.
    pub sb_cols: u32,
    /// The quantizers, row by row.
    pub grid: Vec<u8>,
    /// The quantizer the tile starts from.
    pub base: u8,
}

/// What is fixed for every tile of a frame.
#[derive(Debug)]
pub struct FramePlan {
    /// The frame's width in 4x4 units.
    pub mi_cols: u32,
    /// Its height.
    pub mi_rows: u32,
    /// Whether a block's transform may be smaller than it.
    pub tx_select: bool,
    /// Whether superblocks are 128x128.
    pub sb128: bool,
    /// Whether blocks may have palettes.
    pub screen: bool,
    /// Whether blocks may be copied from their own frame.
    pub intrabc: bool,
    /// Whether blocks may be predicted by recursive filtering.
    pub filter_intra: bool,
    /// Whether blocks may have two references.
    pub reference_select: bool,
    /// Whether blocks choose how they are predicted from their reference.
    pub motion_mode: bool,
    /// Whether that may be by warping.
    pub warped_motion: bool,
    /// Whether the sets of transform types are reduced.
    pub reduced_tx_set: bool,
    /// The restoration plan, or nothing.
    pub lr: Option<LrPlan>,
    /// The CDEF plan, or nothing.
    pub cdef: Option<CdefIdxPlan>,
    /// The quantizer plan, or nothing.
    pub delta_q: Option<DeltaQPlan>,
}

/// Whether a restoration plan has a decision for each of its units.
pub open spec fn is_lr(p: LrPlan) -> bool {
    &&& p.unit_size > 0
    &&& p.units@.len() == p.horz_units * p.vert_units
}

/// Whether a frame's plans are complete.
pub open spec fn is_plan(p: FramePlan) -> bool {
    &&& p.mi_cols <= layout::MAX_MI
    &&& p.mi_rows <= layout::MAX_MI
    &&& p.lr matches Some(lr) ==> is_lr(lr)
    &&& p.cdef matches Some(c) ==> c.bits <= 32
    &&& p.delta_q matches Some(q) ==> q.res > 0
}

/// A plan of one restoration decision per unit; nothing where there is none.
pub fn arm_lr(
    unit_size: u32,
    horz_units: u32,
    vert_units: u32,
    units: Vec<Option<WienerInfo>>,
) -> (plan: Option<LrPlan>)
    ensures
        units@.len() == 0 ==> plan is None,
        units@.len() > 0 ==> plan == Some(LrPlan { unit_size, horz_units, vert_units, units }),
{
    if units.len() == 0 {
        None
    } else {
        Some(LrPlan { unit_size, horz_units, vert_units, units })
    }
}

/// A plan of one CDEF index per superblock; nothing where an index takes no
/// bits.
pub fn arm_cdef_idx(bits: u8, sb_cols: u32, grid: Vec<u8>) -> (plan: Option<CdefIdxPlan>)
    ensures
        bits == 0 ==> plan is None,
        bits > 0 ==> plan == Some(CdefIdxPlan { bits, sb_cols, grid }),
{
    if bits == 0 {
        None
    } else {
        Some(CdefIdxPlan { bits, sb_cols, grid })
    }
}

/// A plan of one quantizer per superblock; nothing where a step is worth
/// nothing.
pub fn arm_delta_q(res: i32, sb_cols: u32, grid: Vec<u8>, base: u8) -> (plan: Option<DeltaQPlan>)
    ensures
        res <= 0 ==> plan is None,
        res > 0 ==> plan == Some(DeltaQPlan { res, sb_cols, grid, base }),
{
    if res <= 0 {
        None
    } else {
        Some(DeltaQPlan { res, sb_cols, grid, base })
    }
}

/// The symbols of one restoration unit.
pub open spec fn unit_ops(info: Option<WienerInfo>) -> Seq<Op> {
    match info {
        Some(taps) => seq![ops::symbol(1, Cdf::RestoreWiener), Op::Wiener(taps)],
        None => seq![ops::symbol(0, Cdf::RestoreWiener)],
    }
}

/// The symbols of the units `from..to` of a row.
pub open spec fn unit_row_ops(p: LrPlan, row: int, from: int, to: int) -> Seq<Op>
    decreases to - from,
{
    if from >= to {
        Seq::empty()
    } else {
        unit_row_ops(p, row, from, to - 1) + unit_ops(p.units@[(to - 1) + row * p.horz_units])
    }
}

/// The symbols of the units `from..to` of the rows `row0..row1`.
pub open spec fn unit_rows_ops(p: LrPlan, row0: int, row1: int, from: int, to: int) -> Seq<Op>
    decreases row1 - row0,
{
    if row0 >= row1 {
        Seq::empty()
    } else {
        unit_rows_ops(p, row0, row1 - 1, from, to) + unit_row_ops(p, row1 - 1, from, to)
    }
}

/// The first restoration unit that starts at or after a 4x4 unit, but no
/// further than `end`.
pub open spec fn unit_at(p: LrPlan, mi: int, end: int) -> int {
    let u = layout::ceil_div(mi * 4, p.unit_size as int);
    if u < end {
        u
    } else {
        end
    }
}

/// The symbols of the restoration units that start inside a square of `span`
/// 4x4 units.
pub open spec fn lr_ops(plan: Option<LrPlan>, mi_row: int, mi_col: int, span: int) -> Seq<Op> {
    match plan {
        Some(p) => unit_rows_ops(
            p,
            layout::ceil_div(mi_row * 4, p.unit_size as int),
            unit_at(p, mi_row + span, p.vert_units as int),
            layout::ceil_div(mi_col * 4, p.unit_size as int),
            unit_at(p, mi_col + span, p.horz_units as int),
        ),
        None => Seq::empty(),
    }
}

/// The superblock a 4x4 unit lies in, row by row.
pub open spec fn superblock_of(mi_r: int, mi_c: int, sb_cols: int) -> int {
    (mi_r / 16) * sb_cols + mi_c / 16
}

/// The entry of a superblock, zero past the end.
pub open spec fn entry(grid: Seq<u8>, sb: int) -> int {
    if sb < grid.len() {
        grid[sb] as int
    } else {
        0
    }
}

/// Whether a block carries its superblock's CDEF index: the first that is not
/// skipped does.
pub open spec fn codes_cdef(
    plan: Option<CdefIdxPlan>,
    last: Option<u64>,
    mi_r: int,
    mi_c: int,
    skip: bool,
) -> bool {
    !skip && (plan matches Some(p) && !(last matches Some(l) && l == superblock_of(
        mi_r,
        mi_c,
        p.sb_cols as int,
    )))
}

/// The bits of a CDEF index.
pub open spec fn cdef_ops(
    plan: Option<CdefIdxPlan>,
    last: Option<u64>,
    mi_r: int,
    mi_c: int,
    skip: bool,
) -> Seq<Op> {
    if codes_cdef(plan, last, mi_r, mi_c, skip) {
        let p = plan->0;
        seq![
            ops::literal(
                entry(p.grid@, superblock_of(mi_r, mi_c, p.sb_cols as int)),
                p.bits as int,
            ),
        ]
    } else {
        Seq::empty()
    }
}

/// The superblock whose index was written last, after a block.
pub open spec fn cdef_last(
    plan: Option<CdefIdxPlan>,
    last: Option<u64>,
    mi_r: int,
    mi_c: int,
    skip: bool,
) -> Option<u64> {
    if codes_cdef(plan, last, mi_r, mi_c, skip) {
        Some(superblock_of(mi_r, mi_c, (plan->0).sb_cols as int) as u64)
    } else {
        last
    }
}

/// A superblock's CDEF index is coded once: after a block that carries it, no
/// block of the same superblock does until another superblock's is coded, and
/// a block that carries none changes nothing.
pub proof fn cdef_indices_are_coded_once(
    plan: Option<CdefIdxPlan>,
    last: Option<u64>,
    mi: (usize, usize),
    next: (usize, usize),
    skip: bool,
    next_skip: bool,
)
    requires
        mi.0 <= 0xffff_ffff,
        mi.1 <= 0xffff_ffff,
        mi.0 / 16 == next.0 / 16,
        mi.1 / 16 == next.1 / 16,
    ensures
        codes_cdef(plan, last, mi.0 as int, mi.1 as int, skip) ==> cdef_ops(
            plan,
            cdef_last(plan, last, mi.0 as int, mi.1 as int, skip),
            next.0 as int,
            next.1 as int,
            next_skip,
        ).len() == 0,
        !codes_cdef(plan, last, mi.0 as int, mi.1 as int, skip) ==> cdef_last(
            plan,
            last,
            mi.0 as int,
            mi.1 as int,
            skip,
        ) == last,
{
    if plan is Some {
        let r = mi.0 as int / 16;
        let c = mi.1 as int / 16;
        let cols = (plan->0).sb_cols as int;
        assert(0 <= r * cols + c <= 0xffff_ffff_ffff_ffff) by (nonlinear_arith)
            requires
                0 <= r <= 0x0fff_ffff,
                0 <= c <= 0x0fff_ffff,
                0 <= cols <= 0xffff_ffff,
        ;
    }
}

/// A quotient rounded towards zero.
pub open spec fn toward_zero(a: int, b: int) -> int {
    if a >= 0 {
        a / b
    } else {
        -((-a) / b)
    }
}

/// Whether a block carries its superblock's quantizer: the one at its corner
/// does, unless it is the whole superblock and skipped.
pub open spec fn codes_q(mi_r: int, mi_c: int, whole: bool, skip: bool) -> bool {
    mi_r % 16 == 0 && mi_c % 16 == 0 && !(whole && skip)
}

/// The steps from the current quantizer to a superblock's.
pub open spec fn q_steps(p: DeltaQPlan, cur: int, mi_r: int, mi_c: int) -> int {
    toward_zero(
        entry(p.grid@, superblock_of(mi_r, mi_c, p.sb_cols as int)) - cur,
        p.res as int,
    )
}

/// The size of a number.
pub open spec fn size_of(x: int) -> int {
    if x < 0 {
        -x
    } else {
        x
    }
}

/// How many bits a step count past the small ones takes.
pub open spec fn rest_bits(steps: int) -> int {
    golomb::bit_length(steps - 1) - 1
}

/// The symbols of a step count: up to two directly, more as an escape with
/// its length and its rest, and the sign of any but zero.
pub open spec fn steps_ops(steps: int) -> Seq<Op> {
    let n = size_of(steps);
    let sign = ops::literal(ops::flag(steps < 0), 1);
    if n == 0 {
        seq![ops::symbol(0, Cdf::DeltaQ)]
    } else if n < 3 {
        seq![ops::symbol(n, Cdf::DeltaQ), sign]
    } else {
        seq![
            ops::symbol(3, Cdf::DeltaQ),
            ops::literal(rest_bits(n) - 1, 3),
            ops::literal(n - (bits::pow2(rest_bits(n) as nat) + 1), rest_bits(n)),
            sign,
        ]
    }
}

/// The symbols of a block's quantizer change.
pub open spec fn delta_q_ops(
    plan: Option<DeltaQPlan>,
    cur: int,
    mi_r: int,
    mi_c: int,
    whole: bool,
    skip: bool,
) -> Seq<Op> {
    match plan {
        Some(p) => if codes_q(mi_r, mi_c, whole, skip) {
            steps_ops(q_steps(p, cur, mi_r, mi_c))
        } else {
            Seq::empty()
        },
        None => Seq::empty(),
    }
}

/// The quantizer after a block.
pub open spec fn next_q(
    plan: Option<DeltaQPlan>,
    cur: int,
    mi_r: int,
    mi_c: int,
    whole: bool,
    skip: bool,
) -> int {
    match plan {
        Some(p) => if codes_q(mi_r, mi_c, whole, skip) {
            bits::spec_clamp(cur + q_steps(p, cur, mi_r, mi_c) * p.res, 1, 255)
        } else {
            cur
        },
        None => cur,
    }
}

/// The partition symbols of a split block, by how much of it is inside the
/// frame: a symbol where both halves are, a flag where one is, none where
/// neither is.
pub open spec fn split_ops(table: Cdf, has_cols: bool, has_rows: bool) -> Seq<Op> {
    if has_cols && has_rows {
        seq![ops::symbol(3, table)]
    } else if has_cols {
        seq![Op::Gathered { cdf: table, alike: Alike::Vert, value: 1 }]
    } else if has_rows {
        seq![Op::Gathered { cdf: table, alike: Alike::Horz, value: 1 }]
    } else {
        Seq::empty()
    }
}

/// The symbols of a 128x128 superblock's root, at the first of its cells.
pub open spec fn root_ops(p: FramePlan, b: neighbours::Bands, sb_r: int, sb_c: int) -> Seq<Op> {
    let mi_r = sb_r / 2 * 2 * 16;
    let mi_c = sb_c / 2 * 2 * 16;
    seq![Op::Note(Note::Sb128Root)] + lr_ops(p.lr, mi_r, mi_c, 32) + split_ops(
        Cdf::PartitionW128(neighbours::spec_partition_ctx(b, mi_r, mi_c, 128) as usize),
        mi_c + 16 < p.mi_cols,
        mi_r + 16 < p.mi_rows,
    )
}

/// A quantizer that is a whole number of steps away is reached exactly, and
/// the escaped rest of a step count fits its bits and adds back up to it.
pub proof fn quantizer_steps_read_back(cur: int, target: int, res: int, steps: int)
    requires
        res > 0,
        1 <= target <= 255,
        0 <= cur <= 255,
        target - cur == steps * res,
    ensures
        toward_zero(target - cur, res) == steps,
        bits::spec_clamp(cur + toward_zero(target - cur, res) * res, 1, 255) == target,
        size_of(steps) >= 3 ==> {
            let n = size_of(steps);
            let low = bits::pow2(rest_bits(n) as nat);
            &&& 1 <= rest_bits(n) <= 8
            &&& 0 <= n - (low + 1) < low
        },
{
    if steps >= 0 {
        assert(target - cur == steps * res + 0);
        vstd::arithmetic::div_mod::lemma_fundamental_div_mod_converse(
            target - cur,
            res,
            steps,
            0,
        );
        assert(target - cur >= 0) by (nonlinear_arith)
            requires
                target - cur == steps * res,
                steps >= 0,
                res > 0,
        ;
    } else {
        assert(cur - target == (-steps) * res + 0) by (nonlinear_arith)
            requires
                target - cur == steps * res,
        ;
        vstd::arithmetic::div_mod::lemma_fundamental_div_mod_converse(
            cur - target,
            res,
            -steps,
            0,
        );
        assert(target - cur < 0) by (nonlinear_arith)
            requires
                target - cur == steps * res,
                steps < 0,
                res > 0,
        ;
    }
    if size_of(steps) >= 3 {
        assert(size_of(steps) <= 255) by (nonlinear_arith)
            requires
                size_of(steps) == steps || size_of(steps) == -steps,
                -255 <= steps * res <= 255,
                res >= 1,
        ;
        lemma_rest_bits(size_of(steps));
    }
}

proof fn lemma_rest_bits(n: int)
    requires
        3 <= n <= 256,
    ensures
        1 <= rest_bits(n) <= 8,
        bits::pow2(rest_bits(n) as nat) + 1 <= n,
        n - (bits::pow2(rest_bits(n) as nat) + 1) < bits::pow2(rest_bits(n) as nat),
        bits::pow2(rest_bits(n) as nat) <= 256,
{
    golomb::bit_length_is_tight(n - 1);
    bits::lemma_pow2_values();
    golomb::lemma_bit_length_bound(n - 1, 8);
    let l = golomb::bit_length(n - 1);
    assert(bits::pow2(l as nat) == 2 * bits::pow2((l - 1) as nat));
    if l < 2 {
        bits::lemma_pow2_monotonic(l as nat, 1);
    }
    bits::lemma_pow2_monotonic((l - 1) as nat, 8);
}

fn write_unit(out: &mut Vec<Op>, info: Option<WienerInfo>)
    ensures
        final(out)@ == old(out)@ + unit_ops(info),
{
    match info {
        Some(taps) => {
            put(out, 1, Cdf::RestoreWiener);
            out.push(Op::Wiener(taps));
        },
        None => {
            put(out, 0, Cdf::RestoreWiener);
        },
    }
    proof {
        assert(out@ =~= old(out)@ + unit_ops(info));
    }
}

fn ceil_units(mi: u64, unit: u32) -> (u: u64)
    requires
        mi <= 0x1_0000_0000,
        unit > 0,
    ensures
        u == layout::ceil_div(mi * 4, unit as int),
        u <= 0x8_0000_0000,
{
    proof {
        let n = mi * 4 + unit - 1;
        vstd::arithmetic::div_mod::lemma_div_is_ordered_by_denominator(n, 1, unit as int);
    }
    (mi * 4 + (unit as u64 - 1)) / unit as u64
}

/// Writes the restoration units that start inside a square of `span` 4x4
/// units: whether each is filtered, and its taps.
pub fn write_lr(out: &mut Vec<Op>, plan: &Option<LrPlan>, mi_row: u32, mi_col: u32, span: u32)
    requires
        *plan matches Some(p) ==> is_lr(p),
        mi_row + span <= u32::MAX,
        mi_col + span <= u32::MAX,
    ensures
        final(out)@ == old(out)@ + lr_ops(*plan, mi_row as int, mi_col as int, span as int),
{
    match plan {
        None => {
            proof {
                assert(out@ =~= old(out)@ + lr_ops(
                    *plan,
                    mi_row as int,
                    mi_col as int,
                    span as int,
                ));
            }
        },
        Some(p) => {
            let unit: u32 = p.unit_size;
            let rcol0: u64 = ceil_units(mi_col as u64, unit);
            let rrow0: u64 = ceil_units(mi_row as u64, unit);
            let col_end: u64 = ceil_units(mi_col as u64 + span as u64, unit);
            let row_end: u64 = ceil_units(mi_row as u64 + span as u64, unit);
            let rcol1: u64 = if col_end < p.horz_units as u64 {
                col_end
            } else {
                p.horz_units as u64
            };
            let rrow1: u64 = if row_end < p.vert_units as u64 {
                row_end
            } else {
                p.vert_units as u64
            };
            let mut rrow: u64 = rrow0;
            proof {
                assert(out@ =~= old(out)@ + unit_rows_ops(
                    *p,
                    rrow0 as int,
                    rrow as int,
                    rcol0 as int,
                    rcol1 as int,
                ));
            }
            while rrow < rrow1
                invariant
                    is_lr(*p),
                    rrow0 <= rrow,
                    rrow <= rrow1 || rrow == rrow0,
                    rrow1 <= p.vert_units,
                    rcol1 <= p.horz_units,
                    out@ == old(out)@ + unit_rows_ops(
                        *p,
                        rrow0 as int,
                        rrow as int,
                        rcol0 as int,
                        rcol1 as int,
                    ),
                decreases rrow1 - rrow,
            {
                let ghost before = unit_rows_ops(
                    *p,
                    rrow0 as int,
                    rrow as int,
                    rcol0 as int,
                    rcol1 as int,
                );
                let mut rcol: u64 = rcol0;
                proof {
                    assert(out@ =~= old(out)@ + (before + unit_row_ops(
                        *p,
                        rrow as int,
                        rcol0 as int,
                        rcol as int,
                    )));
                }
                while rcol < rcol1
                    invariant
                        is_lr(*p),
                        rcol0 <= rcol,
                        rcol <= rcol1 || rcol == rcol0,
                        rrow < p.vert_units,
                        rcol1 <= p.horz_units,
                        out@ == old(out)@ + (before + unit_row_ops(
                            *p,
                            rrow as int,
                            rcol0 as int,
                            rcol as int,
                        )),
                    decreases rcol1 - rcol,
                {
                    proof {
                        assert(0 <= rrow * p.horz_units && rcol + rrow * p.horz_units
                            < p.horz_units * p.vert_units) by (nonlinear_arith)
                            requires
                                0 <= rrow <= p.vert_units - 1,
                                0 <= rcol < p.horz_units,
                        ;
                        assert(p.units@.len() == p.units.len());
                    }
                    let i: usize = (rcol + rrow * p.horz_units as u64) as usize;
                    write_unit(out, p.units[i]);
                    rcol += 1;
                    proof {
                        assert(out@ =~= old(out)@ + (before + unit_row_ops(
                            *p,
                            rrow as int,
                            rcol0 as int,
                            rcol as int,
                        )));
                    }
                }
                proof {
                    if rcol0 > rcol1 {
                        assert(unit_row_ops(*p, rrow as int, rcol0 as int, rcol1 as int)
                            =~= Seq::empty());
                        assert(unit_row_ops(*p, rrow as int, rcol0 as int, rcol as int)
                            =~= Seq::empty());
                    }
                    assert(out@ =~= old(out)@ + unit_rows_ops(
                        *p,
                        rrow0 as int,
                        rrow + 1,
                        rcol0 as int,
                        rcol1 as int,
                    ));
                }
                rrow += 1;
            }
            proof {
                if rrow0 > rrow1 {
                    assert(unit_rows_ops(
                        *p,
                        rrow0 as int,
                        rrow1 as int,
                        rcol0 as int,
                        rcol1 as int,
                    ) =~= Seq::empty());
                    assert(unit_rows_ops(
                        *p,
                        rrow0 as int,
                        rrow as int,
                        rcol0 as int,
                        rcol1 as int,
                    ) =~= Seq::empty());
                }
            }
        },
    }
}

fn superblock_at(mi: (usize, usize), sb_cols: u32) -> (sb: u64)
    requires
        mi.0 <= 0xffff_ffff,
        mi.1 <= 0xffff_ffff,
    ensures
        sb == superblock_of(mi.0 as int, mi.1 as int, sb_cols as int),
{
    proof {
        assert(0 <= (mi.0 / 16) * sb_cols <= 0xfff_ffff * 0xffff_ffff) by (nonlinear_arith)
            requires
                0 <= mi.0 / 16 <= 0xfff_ffff,
                0 <= sb_cols <= 0xffff_ffff,
        ;
    }
    (mi.0 / 16) as u64 * sb_cols as u64 + (mi.1 / 16) as u64
}

fn entry_at(grid: &Vec<u8>, sb: u64) -> (v: u8)
    ensures
        v == entry(grid@, sb as int),
{
    if sb < grid.len() as u64 {
        grid[sb as usize]
    } else {
        0
    }
}

/// Writes a superblock's CDEF index the first time a block of it that is not
/// skipped is coded.
pub fn write_cdef_idx(
    out: &mut Vec<Op>,
    plan: &Option<CdefIdxPlan>,
    last: &mut Option<u64>,
    mi: (usize, usize),
    skip: bool,
)
    requires
        mi.0 <= 0xffff_ffff,
        mi.1 <= 0xffff_ffff,
    ensures
        final(out)@ == old(out)@ + cdef_ops(*plan, *old(last), mi.0 as int, mi.1 as int, skip),
        *final(last) == cdef_last(*plan, *old(last), mi.0 as int, mi.1 as int, skip),
{
    let ghost said = cdef_ops(*plan, *last, mi.0 as int, mi.1 as int, skip);
    if !skip {
        if let Some(p) = plan {
            let sb: u64 = superblock_at(mi, p.sb_cols);
            let again: bool = match *last {
                Some(l) => l == sb,
                None => false,
            };
            if !again {
                *last = Some(sb);
                put_literal(out, entry_at(&p.grid, sb) as u32, p.bits as u32);
            }
        }
    }
    proof {
        assert(out@ =~= old(out)@ + said);
    }
}

fn write_steps(out: &mut Vec<Op>, steps: i32)
    requires
        -255 <= steps <= 255,
    ensures
        final(out)@ == old(out)@ + steps_ops(steps as int),
{
    let n: u32 = if steps < 0 {
        (-steps) as u32
    } else {
        steps as u32
    };
    put(
        out,
        if n < 3 {
            n as usize
        } else {
            3
        },
        Cdf::DeltaQ,
    );
    if n >= 3 {
        let mut rest: u32 = n - 1;
        let mut low: u32 = 1;
        let mut count: u32 = 0;
        proof {
            lemma_rest_bits(n as int);
            assert(bits::pow2(0) == 1);
        }
        while rest >= 2
            invariant
                1 <= rest <= 256,
                count <= 8,
                low == bits::pow2(count as nat),
                low <= 256,
                count + golomb::bit_length(rest as int) - 1 == rest_bits(n as int),
                1 <= rest_bits(n as int) <= 8,
                bits::pow2(rest_bits(n as int) as nat) <= 256,
            decreases rest,
        {
            proof {
                golomb::bit_length_is_tight((rest / 2) as int);
                assert(golomb::bit_length(rest as int) == 1 + golomb::bit_length(
                    (rest / 2) as int,
                ));
                assert(bits::pow2((count + 1) as nat) == 2 * bits::pow2(count as nat));
                bits::lemma_pow2_monotonic(
                    (count + 1) as nat,
                    rest_bits(n as int) as nat,
                );
            }
            rest = rest / 2;
            low = 2 * low;
            count += 1;
        }
        proof {
            assert(golomb::bit_length(0) == 0);
            assert(golomb::bit_length(1) == 1 + golomb::bit_length(0));
            assert(count == rest_bits(n as int));
        }
        put_literal(out, count - 1, 3);
        put_literal(out, n - (low + 1), count);
    }
    if n != 0 {
        put_literal(out, bit(steps < 0) as u32, 1);
    }
    proof {
        assert(out@ =~= old(out)@ + steps_ops(steps as int));
    }
}

/// Writes a superblock's quantizer as steps from the current one, at the
/// block in its corner; the one case without is a whole superblock that is
/// skipped.
pub fn write_delta_q(
    out: &mut Vec<Op>,
    plan: &Option<DeltaQPlan>,
    cur: &mut i32,
    mi: (usize, usize),
    is_whole_sb: bool,
    skip: bool,
)
    requires
        mi.0 <= 0xffff_ffff,
        mi.1 <= 0xffff_ffff,
        0 <= *old(cur) <= 255,
        plan matches Some(p) ==> p.res > 0,
    ensures
        final(out)@ == old(out)@ + delta_q_ops(
            *plan,
            *old(cur) as int,
            mi.0 as int,
            mi.1 as int,
            is_whole_sb,
            skip,
        ),
        *final(cur) == next_q(
            *plan,
            *old(cur) as int,
            mi.0 as int,
            mi.1 as int,
            is_whole_sb,
            skip,
        ),
        0 <= *final(cur) <= 255,
{
    let ghost said = delta_q_ops(
        *plan,
        *cur as int,
        mi.0 as int,
        mi.1 as int,
        is_whole_sb,
        skip,
    );
    if let Some(p) = plan {
        if mi.0 % 16 == 0 && mi.1 % 16 == 0 && !(is_whole_sb && skip) {
            let sb: u64 = superblock_at(mi, p.sb_cols);
            let target: i32 = entry_at(&p.grid, sb) as i32;
            let now: i32 = *cur;
            let steps: i32 = if target >= now {
                (target - now) / p.res
            } else {
                -((now - target) / p.res)
            };
            proof {
                let d = size_of(target - now);
                let res = p.res as int;
                let q = d / res;
                let part = d % res;
                vstd::arithmetic::div_mod::lemma_fundamental_div_mod(d, res);
                assert(0 <= q <= d && 0 <= q * res <= d) by (nonlinear_arith)
                    requires
                        d == res * q + part,
                        0 <= part < res,
                        d >= 0,
                        res >= 1,
                ;
                assert(steps == q || steps == -q);
                assert((-q) * p.res == -(q * p.res)) by (nonlinear_arith);
                assert(steps == q_steps(*p, now as int, mi.0 as int, mi.1 as int));
            }
            write_steps(out, steps);
            let next: i32 = now + steps * p.res;
            *cur = if next < 1 {
                1
            } else if next > 255 {
                255
            } else {
                next
            };
        }
    }
    proof {
        assert(out@ =~= old(out)@ + said);
    }
}

/// Writes the partition of a split block: a symbol where both its halves are
/// inside the frame, a flag where one is, nothing where neither is.
pub fn write_split(out: &mut Vec<Op>, table: Cdf, has_cols: bool, has_rows: bool)
    ensures
        final(out)@ == old(out)@ + split_ops(table, has_cols, has_rows),
{
    if has_cols && has_rows {
        put(out, PARTITION_SPLIT, table);
    } else if has_cols {
        out.push(Op::Gathered { cdf: table, alike: Alike::Vert, value: 1 });
    } else if has_rows {
        out.push(Op::Gathered { cdf: table, alike: Alike::Horz, value: 1 });
    }
    proof {
        assert(out@ =~= old(out)@ + split_ops(table, has_cols, has_rows));
    }
}

/// Writes the root of a 128x128 superblock: the restoration units its span
/// covers, then its partition, which is always a split.
pub fn write_sb128_root(
    out: &mut Vec<Op>,
    plan: &FramePlan,
    neighbours: &Neighbours,
    sb_r: u32,
    sb_c: u32,
)
    requires
        is_plan(*plan),
        neighbours::is_bands(neighbours@),
        16 * sb_r < neighbours@.left.len(),
        16 * sb_c < neighbours@.above.len(),
        16 * sb_r < plan.mi_rows,
        16 * sb_c < plan.mi_cols,
    ensures
        final(out)@ == old(out)@ + root_ops(*plan, neighbours@, sb_r as int, sb_c as int),
{
    note(out, Note::Sb128Root);
    let mi_r: u32 = sb_r / 2 * 2 * 16;
    let mi_c: u32 = sb_c / 2 * 2 * 16;
    write_lr(out, &plan.lr, mi_r, mi_c, 32);
    let ctx: usize = neighbours.partition_ctx_mi((mi_r as usize, mi_c as usize), 128);
    write_split(
        out,
        Cdf::PartitionW128(ctx),
        mi_c + 16 < plan.mi_cols,
        mi_r + 16 < plan.mi_rows,
    );
    proof {
        assert(out@ =~= old(out)@ + root_ops(*plan, neighbours@, sb_r as int, sb_c as int));
    }
}

} // verus!
