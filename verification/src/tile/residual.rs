//! A block's transform sizes and its residual.
use crate::tile::coeffs;
use crate::tile::coeffs::{write_coeffs, TxbCoding};
use crate::tile::error::TileError;
use crate::tile::levels;
use crate::tile::neighbours;
use crate::tile::neighbours::{Around, Bands, Neighbours};
use crate::tile::ops;
use crate::tile::ops::{bit, put, Cdf, Op, TxbSet};
use crate::tile::plans::FramePlan;
use crate::tile::scan;
use crate::tile::scan::default_scan;
use crate::tile::state;
use crate::transform::tx_type::TxType;
use vstd::prelude::*;

verus! {

/// The default scans of the four transform sizes that carry coefficients.
pub struct Scans {
    /// Of 32x32.
    pub s32: Vec<u16>,
    /// Of 16x16.
    pub s16: Vec<u16>,
    /// Of 8x8.
    pub s8: Vec<u16>,
    /// Of 4x4.
    pub s4: Vec<u16>,
}

/// Whether the scans are the default ones.
pub open spec fn are_scans(s: Scans) -> bool {
    &&& scan::positions(s.s32@) == scan::spec_default_scan(32)
    &&& scan::positions(s.s16@) == scan::spec_default_scan(16)
    &&& scan::positions(s.s8@) == scan::spec_default_scan(8)
    &&& scan::positions(s.s4@) == scan::spec_default_scan(4)
}

impl Scans {
    /// The default scans.
    pub fn new() -> (s: Scans)
        ensures
            are_scans(s),
    {
        Scans {
            s32: default_scan(32),
            s16: default_scan(16),
            s8: default_scan(8),
            s4: default_scan(4),
        }
    }

    fn of(&self, set: TxbSet) -> (s: &Vec<u16>)
        requires
            are_scans(*self),
        ensures
            scan::positions(s@) == scan::spec_default_scan(ops::coeff_side(set)),
    {
        let side: usize = set.side();
        if side == 32 {
            &self.s32
        } else if side == 16 {
            &self.s16
        } else if side == 8 {
            &self.s8
        } else {
            &self.s4
        }
    }
}

/// What a writer leaves: the symbols so far and the bands.
#[verifier::ext_equal]
pub struct Written {
    /// The symbols.
    pub ops: Seq<Op>,
    /// The bands.
    pub bands: Bands,
}

/// How one plane of a block is coded: luma, whose transform covers the whole
/// block, in the first all-zero context, chroma in one of those that say
/// whether its neighbours coded anything.
pub open spec fn plane_coding(
    plan: FramePlan,
    b: Bands,
    mi_r: int,
    mi_c: int,
    side: int,
    set: TxbSet,
    mode: usize,
    plane: int,
    tx: TxType,
) -> TxbCoding {
    let around = neighbours::around_of(b, mi_r, mi_c, side / 4, plane);
    TxbCoding {
        set,
        mode,
        reduced: plan.reduced_tx_set,
        skip_ctx: if plane == 0 {
            0
        } else {
            (ops::flag(around.above_coded) + ops::flag(around.left_coded)) as usize
        },
        sign_ctx: neighbours::spec_dc_sign_ctx(around.dc_vote as int) as usize,
        tx_type: if plane == 0 {
            tx
        } else {
            TxType::DctDct
        },
    }
}

/// The tables of a block's three planes.
pub struct PlaneSets {
    /// Luma's.
    pub y: TxbSet,
    /// Both chroma planes'.
    pub uv: TxbSet,
}

/// The symbols of a block's transform blocks, luma's unless it was written
/// already.
#[verifier::opaque]
pub open spec fn planes_ops(
    plan: FramePlan,
    b: Bands,
    mi_r: int,
    mi_c: int,
    side: int,
    sets: PlaneSets,
    mode: usize,
    skip_luma: bool,
    tx: TxType,
    y: Seq<i32>,
    u: Seq<i32>,
    v: Seq<i32>,
) -> Seq<Op> {
    let luma = if skip_luma {
        Seq::empty()
    } else {
        coeffs::coeffs_ops(plane_coding(plan, b, mi_r, mi_c, side, sets.y, mode, 0, tx), y)
    };
    luma + coeffs::coeffs_ops(
        plane_coding(plan, b, mi_r, mi_c, side, sets.uv, mode, 1, tx),
        u,
    ) + coeffs::coeffs_ops(plane_coding(plan, b, mi_r, mi_c, side, sets.uv, mode, 2, tx), v)
}

/// The tables of a luma transform unit.
pub open spec fn luma_set(tx: int, inter: bool) -> TxbSet {
    if tx == 32 {
        if inter {
            TxbSet::Luma32Inter
        } else {
            TxbSet::Luma32
        }
    } else if tx == 16 {
        if inter {
            TxbSet::Luma16Inter
        } else {
            TxbSet::Luma16
        }
    } else if tx == 8 {
        if inter {
            TxbSet::Luma8Inter
        } else {
            TxbSet::Luma8
        }
    } else if tx == 4 {
        if inter {
            TxbSet::Luma4Inter
        } else {
            TxbSet::Luma4
        }
    } else {
        TxbSet::Luma64
    }
}

/// The levels of one transform unit, cut out of its block's.
pub open spec fn unit_grid(grid: Seq<i32>, side: int, tx: int, r: int, c: int) -> Seq<i32> {
    if side == tx {
        grid
    } else {
        Seq::new((tx * tx) as nat, |p: int| grid[(r * tx + p / tx) * side + (c * tx + p % tx)])
    }
}

/// A block's luma transform units.
pub struct LumaUnits {
    /// The block's first unit row.
    pub mi_r: int,
    /// Its first unit column.
    pub mi_c: int,
    /// Its side.
    pub side: int,
    /// A transform's side.
    pub tx: int,
    /// The row of the transform type tables.
    pub mode: usize,
    /// Whether the block is inter.
    pub inter: bool,
    /// The block's levels.
    pub grid: Seq<i32>,
    /// The transform types, the DCT where there is none.
    pub types: Seq<TxType>,
}

/// The type of one of a block's transforms, the DCT where none is named.
pub open spec fn type_at(types: Seq<TxType>, i: int) -> TxType {
    if i < types.len() {
        types[i]
    } else {
        TxType::DctDct
    }
}

/// One transform unit: nothing outside the frame, else its coefficients in the
/// contexts the units before left, and what it leaves itself where there are
/// several.
pub open spec fn unit_written(
    plan: FramePlan,
    w: Written,
    l: LumaUnits,
    r: int,
    c: int,
) -> Written {
    let n = l.side / l.tx;
    let mi_r = l.mi_r + r * (l.tx / 4);
    let mi_c = l.mi_c + c * (l.tx / 4);
    if mi_r >= w.bands.mi_rows || mi_c >= w.bands.mi_cols {
        w
    } else {
        let unit = unit_grid(l.grid, l.side, l.tx, r, c);
        let around = neighbours::around_of(w.bands, mi_r, mi_c, l.tx / 4, 0);
        let coding = TxbCoding {
            set: luma_set(l.tx, l.inter),
            mode: l.mode,
            reduced: plan.reduced_tx_set,
            skip_ctx: if n == 1 {
                0
            } else {
                neighbours::spec_luma_skip_ctx(w.bands, mi_r, mi_c, l.tx / 4) as usize
            },
            sign_ctx: neighbours::spec_dc_sign_ctx(around.dc_vote as int) as usize,
            tx_type: type_at(l.types, r * n + c),
        };
        Written {
            ops: w.ops + coeffs::coeffs_ops(coding, unit),
            bands: if n > 1 {
                neighbours::after_luma(
                    w.bands,
                    mi_r,
                    mi_c,
                    l.tx,
                    neighbours::state_of(unit),
                )
            } else {
                w.bands
            },
        }
    }
}

/// The first `count` transform units of a row.
pub open spec fn unit_row_written(
    plan: FramePlan,
    w: Written,
    l: LumaUnits,
    r: int,
    count: int,
) -> Written
    decreases count,
{
    if count <= 0 {
        w
    } else {
        unit_written(plan, unit_row_written(plan, w, l, r, count - 1), l, r, count - 1)
    }
}

/// The first `count` rows of transform units.
pub open spec fn unit_rows_written(
    plan: FramePlan,
    w: Written,
    l: LumaUnits,
    count: int,
) -> Written
    decreases count,
{
    if count <= 0 {
        w
    } else {
        unit_row_written(
            plan,
            unit_rows_written(plan, w, l, count - 1),
            l,
            count - 1,
            l.side / l.tx,
        )
    }
}

/// All transform units of a block.
#[verifier::opaque]
pub open spec fn luma_written(plan: FramePlan, w: Written, l: LumaUnits) -> Written {
    unit_rows_written(plan, w, l, l.side / l.tx)
}

/// The category of a block's largest transform.
pub open spec fn tx_category(side: int) -> int {
    if side == 8 {
        0
    } else if side == 16 {
        1
    } else if side == 32 {
        2
    } else {
        3
    }
}

/// A side halved a number of times.
pub open spec fn halved(side: int, depth: int) -> int {
    if depth == 0 {
        side
    } else if depth == 1 {
        side / 2
    } else {
        side / 4
    }
}

/// Whether a block's transform can be halved that often.
pub open spec fn is_depth(side: int, depth: int) -> bool {
    0 <= depth <= 2 && halved(side, depth) >= 4
}

/// The context of whether an inter block's transform of side `tx` is halved.
pub open spec fn spec_txfm_partition_ctx(above: int, left: int, side: int, tx: int) -> int {
    let max = tx_category(side) + 1;
    let category = ops::flag(tx != side && side > 8) + (4 - max) * 2;
    3 * category + ops::flag(above < tx) + ops::flag(left < tx)
}

/// What an inter frame's transform syntax leaves, and the transform's side.
#[verifier::ext_equal]
pub struct TxWritten {
    /// The symbols and the bands.
    pub w: Written,
    /// The side of the luma transform.
    pub tx: int,
}

/// One quarter of an inter block's halved transform: a flag that it is not
/// halved again, except at 4x4, and its size left behind.
pub open spec fn quarter_written(
    w: Written,
    mi_r: int,
    mi_c: int,
    side: int,
    tx: int,
) -> Written {
    let ctx = spec_txfm_partition_ctx(
        w.bands.above[mi_c].txfm as int,
        w.bands.left[mi_r].txfm as int,
        side,
        tx,
    );
    Written {
        ops: if tx > 4 {
            w.ops.push(ops::symbol(0, Cdf::TxfmPartition(ctx as usize)))
        } else {
            w.ops
        },
        bands: neighbours::after_txfm(w.bands, mi_r, mi_c, tx, tx),
    }
}

/// The transform syntax of a block of an inter frame: a coded inter block says
/// whether its transform is halved, and if it is that no quarter is again; a
/// skipped one says nothing and counts as its own size; an intra block says
/// how often it is halved.
#[verifier::opaque]
pub open spec fn tx_inter_written(
    w: Written,
    mi_r: int,
    mi_c: int,
    side: int,
    inter: bool,
    skip: bool,
    depth: int,
) -> TxWritten {
    if inter && !skip {
        let ctx = spec_txfm_partition_ctx(
            w.bands.above[mi_c].txfm as int,
            w.bands.left[mi_r].txfm as int,
            side,
            side,
        );
        let root = Written {
            ops: w.ops.push(
                ops::symbol(ops::flag(depth != 0), Cdf::TxfmPartition(ctx as usize)),
            ),
            ..w
        };
        if depth == 0 {
            TxWritten {
                w: Written {
                    bands: neighbours::after_txfm(root.bands, mi_r, mi_c, side, side),
                    ..root
                },
                tx: side,
            }
        } else {
            let tx = side / 2;
            let step = tx / 4;
            let a = quarter_written(root, mi_r, mi_c, side, tx);
            let b = quarter_written(a, mi_r, mi_c + step, side, tx);
            let c = quarter_written(b, mi_r + step, mi_c, side, tx);
            TxWritten { w: quarter_written(c, mi_r + step, mi_c + step, side, tx), tx }
        }
    } else if inter {
        TxWritten {
            w: Written {
                bands: neighbours::after_txfm(w.bands, mi_r, mi_c, side, side),
                ..w
            },
            tx: side,
        }
    } else {
        let ctx = neighbours::spec_tx_size_ctx_txfm(w.bands, mi_r, mi_c, side);
        let tx = halved(side, depth);
        TxWritten {
            w: Written {
                ops: w.ops.push(
                    ops::symbol(depth, Cdf::TxSize(tx_category(side) as usize, ctx as usize)),
                ),
                bands: neighbours::after_txfm(w.bands, mi_r, mi_c, tx, side),
            },
            tx,
        }
    }
}

fn coding_of(
    plan: &FramePlan,
    neighbours: &Neighbours,
    mi: (usize, usize),
    side: usize,
    set: TxbSet,
    mode: usize,
    plane: usize,
    tx: TxType,
) -> (coding: TxbCoding)
    requires
        neighbours::is_bands(neighbours@),
        side <= 128,
        neighbours::is_at(neighbours@, mi.0 as int, mi.1 as int, side as int / 4),
    ensures
        coding == plane_coding(
            *plan,
            neighbours@,
            mi.0 as int,
            mi.1 as int,
            side as int,
            set,
            mode,
            plane as int,
            tx,
        ),
{
    let around: Around = neighbours.around_mi(mi, side, plane);
    TxbCoding {
        set,
        mode,
        reduced: plan.reduced_tx_set,
        skip_ctx: if plane == 0 {
            0
        } else {
            bit(around.above_coded) + bit(around.left_coded)
        },
        sign_ctx: neighbours::dc_sign_ctx(around.dc_vote),
        tx_type: if plane == 0 {
            tx
        } else {
            TxType::DctDct
        },
    }
}

/// Writes a block's transform blocks in the order a decoder reads them, luma's
/// unless it was written already.
pub fn write_block_planes(
    out: &mut Vec<Op>,
    plan: &FramePlan,
    neighbours: &Neighbours,
    mi: (usize, usize),
    side: usize,
    sets: &PlaneSets,
    mode: usize,
    skip_luma: bool,
    tx: TxType,
    grids: &[Vec<i32>; 3],
    scans: &Scans,
)
    requires
        neighbours::is_bands(neighbours@),
        side <= 128,
        neighbours::is_at(neighbours@, mi.0 as int, mi.1 as int, side as int / 4),
        are_scans(*scans),
        !skip_luma ==> levels::is_grid(grids@[0]@, ops::coeff_side(sets.y)),
        levels::is_grid(grids@[1]@, ops::coeff_side(sets.uv)),
        levels::is_grid(grids@[2]@, ops::coeff_side(sets.uv)),
    ensures
        final(out)@ == old(out)@ + planes_ops(
            *plan,
            neighbours@,
            mi.0 as int,
            mi.1 as int,
            side as int,
            *sets,
            mode,
            skip_luma,
            tx,
            grids@[0]@,
            grids@[1]@,
            grids@[2]@,
        ),
{
    proof {
        reveal(planes_ops);
    }
    let ghost all = planes_ops(
        *plan,
        neighbours@,
        mi.0 as int,
        mi.1 as int,
        side as int,
        *sets,
        mode,
        skip_luma,
        tx,
        grids@[0]@,
        grids@[1]@,
        grids@[2]@,
    );
    if !skip_luma {
        let coding: TxbCoding = coding_of(plan, neighbours, mi, side, sets.y, mode, 0, tx);
        write_coeffs(out, &coding, &grids[0], scans.of(sets.y));
    }
    let first: TxbCoding = coding_of(plan, neighbours, mi, side, sets.uv, mode, 1, tx);
    write_coeffs(out, &first, &grids[1], scans.of(sets.uv));
    let second: TxbCoding = coding_of(plan, neighbours, mi, side, sets.uv, mode, 2, tx);
    write_coeffs(out, &second, &grids[2], scans.of(sets.uv));
    proof {
        assert(out@ =~= old(out)@ + all);
    }
}

fn set_of(tx: usize, inter: bool) -> (set: TxbSet)
    ensures
        set == luma_set(tx as int, inter),
{
    if tx == 32 {
        if inter {
            TxbSet::Luma32Inter
        } else {
            TxbSet::Luma32
        }
    } else if tx == 16 {
        if inter {
            TxbSet::Luma16Inter
        } else {
            TxbSet::Luma16
        }
    } else if tx == 8 {
        if inter {
            TxbSet::Luma8Inter
        } else {
            TxbSet::Luma8
        }
    } else if tx == 4 {
        if inter {
            TxbSet::Luma4Inter
        } else {
            TxbSet::Luma4
        }
    } else {
        TxbSet::Luma64
    }
}

/// Whether a side is one of a transform's.
pub open spec fn is_tx_side(tx: int) -> bool {
    tx == 4 || tx == 8 || tx == 16 || tx == 32 || tx == 64
}

/// Whether a block's transform units can be written: the block lies in the
/// bands, its units fill it, and its levels are a grid of the block's size, or
/// of its transform's where that covers it.
pub open spec fn are_units(b: Bands, l: LumaUnits) -> bool {
    &&& is_tx_side(l.tx)
    &&& is_tx_side(l.side)
    &&& l.side >= 8
    &&& l.tx <= l.side
    &&& l.side - l.tx <= 32
    &&& neighbours::is_at(b, l.mi_r, l.mi_c, l.side / 4)
    &&& if l.tx == l.side {
        levels::is_grid(
            l.grid,
            if l.tx > 32 {
                32
            } else {
                l.tx
            },
        )
    } else {
        levels::is_grid(l.grid, l.side)
    }
}

fn cut_unit(grid: &[i32], side: usize, tx: usize, r: usize, c: usize) -> (unit: Vec<i32>)
    requires
        tx == 4 || tx == 8 || tx == 16 || tx == 32,
        side == 8 || side == 16 || side == 32 || side == 64,
        tx < side,
        (r + 1) * tx <= side,
        (c + 1) * tx <= side,
        levels::is_grid(grid@, side as int),
    ensures
        unit@ == unit_grid(grid@, side as int, tx as int, r as int, c as int),
        levels::is_grid(unit@, tx as int),
{
    let mut unit: Vec<i32> = Vec::new();
    let ghost all = unit_grid(grid@, side as int, tx as int, r as int, c as int);
    proof {
        assert(tx * tx <= 1024) by (nonlinear_arith)
            requires
                0 <= tx <= 32,
        ;
        assert(all.len() == tx * tx);
        assert(unit@ =~= all.take(0));
    }
    let area: usize = tx * tx;
    while unit.len() < area
        invariant
            tx == 4 || tx == 8 || tx == 16 || tx == 32,
            side == 8 || side == 16 || side == 32 || side == 64,
            tx < side,
            (r + 1) * tx <= side,
            (c + 1) * tx <= side,
            levels::is_grid(grid@, side as int),
            area == tx * tx,
            all == unit_grid(grid@, side as int, tx as int, r as int, c as int),
            all.len() == area,
            unit.len() <= area,
            unit@ == all.take(unit.len() as int),
            forall|p: int|
                0 <= p < unit.len() ==> #[trigger] unit@[p] == 0 || levels::is_codable(
                    unit@[p] as int,
                ),
        decreases area - unit.len(),
    {
        let p: usize = unit.len();
        let row: usize = p / tx;
        let col: usize = p % tx;
        proof {
            vstd::arithmetic::div_mod::lemma_fundamental_div_mod(p as int, tx as int);
            assert(row < tx) by (nonlinear_arith)
                requires
                    p == tx * row + col,
                    0 <= col,
                    p < tx * tx,
            ;
            assert(0 <= r * tx && 0 <= c * tx) by (nonlinear_arith);
            assert((r + 1) * tx == r * tx + tx) by (nonlinear_arith);
            assert((c + 1) * tx == c * tx + tx) by (nonlinear_arith);
            let y = r * tx + row;
            let x = c * tx + col;
            assert(0 <= y * side && y * side + x < side * side <= 4096) by (nonlinear_arith)
                requires
                    0 <= y < side,
                    0 <= x < side,
                    side <= 64,
            ;
        }
        let level: i32 = grid[(r * tx + row) * side + (c * tx + col)];
        unit.push(level);
        proof {
            assert(all[p as int] == level);
            assert(all.take(p + 1) =~= all.take(p as int).push(level));
        }
    }
    proof {
        assert(all.take(area as int) =~= all);
    }
    unit
}

/// The parameters of a block's luma transform units.
pub struct LumaBlock<'a> {
    /// The block's first unit.
    pub mi: (usize, usize),
    /// Its side.
    pub side: usize,
    /// A transform's side.
    pub tx: usize,
    /// The row of the transform type tables.
    pub mode: usize,
    /// Whether the block is inter.
    pub inter: bool,
    /// The block's levels.
    pub grid: &'a Vec<i32>,
    /// The transform types.
    pub types: &'a Vec<TxType>,
}

impl<'a> View for LumaBlock<'a> {
    type V = LumaUnits;

    open spec fn view(&self) -> LumaUnits {
        LumaUnits {
            mi_r: self.mi.0 as int,
            mi_c: self.mi.1 as int,
            side: self.side as int,
            tx: self.tx as int,
            mode: self.mode,
            inter: self.inter,
            grid: self.grid@,
            types: self.types@,
        }
    }
}

proof fn lemma_unit_inside(l: LumaUnits, b: Bands, r: int, c: int)
    requires
        are_units(b, l),
        0 <= r < l.side / l.tx,
        0 <= c < l.side / l.tx,
    ensures
        neighbours::is_at(b, l.mi_r + r * (l.tx / 4), l.mi_c + c * (l.tx / 4), l.tx / 4),
        (r + 1) * l.tx <= l.side,
        (c + 1) * l.tx <= l.side,
        0 <= r * (l.tx / 4),
        0 <= c * (l.tx / 4),
        0 <= r * (l.side / l.tx) + c,
        l.tx == l.side ==> l.side / l.tx == 1,
        l.tx < l.side ==> l.side / l.tx >= 2,
        l.side / l.tx <= 16,
{
    let n = l.side / l.tx;
    assert(n * l.tx == l.side && (n == 1 || n >= 2) && (n == 1 <==> l.tx == l.side) && n <= 16)
        by (nonlinear_arith)
        requires
            n == l.side / l.tx,
            is_tx_side(l.tx),
            is_tx_side(l.side),
            l.tx <= l.side,
    ;
    assert((r + 1) * l.tx <= n * l.tx) by (nonlinear_arith)
        requires
            r + 1 <= n,
            l.tx > 0,
    ;
    assert((c + 1) * l.tx <= n * l.tx) by (nonlinear_arith)
        requires
            c + 1 <= n,
            l.tx > 0,
    ;
    assert(4 * (r * (l.tx / 4)) + l.tx == (r + 1) * l.tx && 0 <= r * (l.tx / 4))
        by (nonlinear_arith)
        requires
            4 * (l.tx / 4) == l.tx,
            0 <= r,
            l.tx > 0,
    ;
    assert(4 * (c * (l.tx / 4)) + l.tx == (c + 1) * l.tx && 0 <= c * (l.tx / 4))
        by (nonlinear_arith)
        requires
            4 * (l.tx / 4) == l.tx,
            0 <= c,
            l.tx > 0,
    ;
    assert(0 <= r * n) by (nonlinear_arith)
        requires
            0 <= r,
            0 <= n,
    ;
}

fn write_unit(
    out: &mut Vec<Op>,
    plan: &FramePlan,
    neighbours: &mut Neighbours,
    l: &LumaBlock,
    r: usize,
    c: usize,
    scans: &Scans,
)
    requires
        neighbours::is_bands(old(neighbours)@),
        are_units(old(neighbours)@, l@),
        are_scans(*scans),
        r < l.side / l.tx,
        c < l.side / l.tx,
    ensures
        neighbours::is_bands(final(neighbours)@),
        are_units(final(neighbours)@, l@),
        (Written { ops: final(out)@, bands: final(neighbours)@ }) == unit_written(
            *plan,
            Written { ops: old(out)@, bands: old(neighbours)@ },
            l@,
            r as int,
            c as int,
        ),
{
    let ghost before = neighbours@;
    proof {
        lemma_unit_inside(l@, neighbours@, r as int, c as int);
    }
    let n: usize = l.side / l.tx;
    let step: usize = l.tx / 4;
    proof {
        assert(r * step <= 16 * 16 && c * step <= 16 * 16 && r * n <= 256) by (nonlinear_arith)
            requires
                0 <= r <= 16,
                0 <= c <= 16,
                0 <= step <= 16,
                0 <= n <= 16,
        ;
    }
    let mi: (usize, usize) = (l.mi.0 + r * step, l.mi.1 + c * step);
    if mi.0 >= neighbours.mi_rows || mi.1 >= neighbours.mi_cols {
        return ;
    }
    let around: Around = neighbours.around_mi(mi, l.tx, 0);
    let set: TxbSet = set_of(l.tx, l.inter);
    let i: usize = r * n + c;
    let coding = TxbCoding {
        set,
        mode: l.mode,
        reduced: plan.reduced_tx_set,
        skip_ctx: if n == 1 {
            0
        } else {
            neighbours.luma_skip_ctx(mi, step)
        },
        sign_ctx: neighbours::dc_sign_ctx(around.dc_vote),
        tx_type: if i < l.types.len() {
            l.types[i]
        } else {
            TxType::DctDct
        },
    };
    if n == 1 {
        write_coeffs(out, &coding, l.grid, scans.of(set));
    } else {
        let unit: Vec<i32> = cut_unit(l.grid, l.side, l.tx, r, c);
        write_coeffs(out, &coding, &unit, scans.of(set));
        proof {
            assert(1 <= l.tx * l.tx <= 4096) by (nonlinear_arith)
                requires
                    1 <= l.tx <= 64,
            ;
        }
        neighbours.record_mi_luma(mi, l.tx, &unit);
    }
}

/// Writes the transform units of a block's luma residual in raster order, each
/// in its own context and each left behind before the next reads it. A unit
/// outside the frame is not coded.
pub fn write_luma_tus(
    out: &mut Vec<Op>,
    plan: &FramePlan,
    neighbours: &mut Neighbours,
    l: &LumaBlock,
    scans: &Scans,
)
    requires
        neighbours::is_bands(old(neighbours)@),
        are_units(old(neighbours)@, l@),
        are_scans(*scans),
    ensures
        neighbours::is_bands(final(neighbours)@),
        are_units(final(neighbours)@, l@),
        (Written { ops: final(out)@, bands: final(neighbours)@ }) == luma_written(
            *plan,
            Written { ops: old(out)@, bands: old(neighbours)@ },
            l@,
        ),
{
    proof {
        reveal(luma_written);
    }
    let ghost start = Written { ops: out@, bands: neighbours@ };
    let n: usize = l.side / l.tx;
    let mut r: usize = 0;
    while r < n
        invariant
            n == l.side / l.tx,
            r <= n,
            l.tx > 0,
            neighbours::is_bands(neighbours@),
            are_units(neighbours@, l@),
            are_scans(*scans),
            (Written { ops: out@, bands: neighbours@ }) == unit_rows_written(
                *plan,
                start,
                l@,
                r as int,
            ),
        decreases n - r,
    {
        let ghost row = Written { ops: out@, bands: neighbours@ };
        let mut c: usize = 0;
        while c < n
            invariant
                n == l.side / l.tx,
                r < n,
                c <= n,
                l.tx > 0,
                neighbours::is_bands(neighbours@),
                are_units(neighbours@, l@),
                are_scans(*scans),
                (Written { ops: out@, bands: neighbours@ }) == unit_row_written(
                    *plan,
                    row,
                    l@,
                    r as int,
                    c as int,
                ),
            decreases n - c,
        {
            write_unit(out, plan, neighbours, l, r, c, scans);
            c += 1;
        }
        r += 1;
    }
}

/// What a key frame's luma residual leaves, and the transform's side.
#[verifier::opaque]
pub open spec fn select_written(plan: FramePlan, w: Written, l: LumaUnits, depth: int) -> Written {
    let ctx = neighbours::spec_tx_size_ctx(w.bands, l.mi_r, l.mi_c, l.side);
    let said = Written {
        ops: w.ops.push(
            ops::symbol(depth, Cdf::TxSize(tx_category(l.side) as usize, ctx as usize)),
        ),
        ..w
    };
    if l.side == 64 && depth != 0 {
        said
    } else {
        let units = luma_written(plan, said, l);
        Written {
            bands: neighbours::after_tx(units.bands, l.mi_r, l.mi_c, l.side, l.tx),
            ..units
        }
    }
}

/// What stops a key frame's luma residual: the transform of a 64x64 block is
/// never halved.
pub open spec fn select_fault(side: int, depth: int) -> Option<TileError> {
    if side == 64 && depth != 0 {
        Some(TileError::LumaSplit)
    } else {
        None
    }
}

/// Writes a key frame block's luma residual: how often its transform is
/// halved, then its transform units.
pub fn write_luma_select(
    out: &mut Vec<Op>,
    plan: &FramePlan,
    neighbours: &mut Neighbours,
    l: &LumaBlock,
    depth: usize,
    scans: &Scans,
) -> (r: Result<(), TileError>)
    requires
        neighbours::is_bands(old(neighbours)@),
        l.side != 64 || depth == 0 ==> are_units(old(neighbours)@, l@),
        neighbours::is_at(old(neighbours)@, l.mi.0 as int, l.mi.1 as int, l.side as int / 4),
        l.side == 8 || l.side == 16 || l.side == 32 || l.side == 64,
        l.tx <= 64,
        are_scans(*scans),
    ensures
        neighbours::is_bands(final(neighbours)@),
        (Written { ops: final(out)@, bands: final(neighbours)@ }) == select_written(
            *plan,
            Written { ops: old(out)@, bands: old(neighbours)@ },
            l@,
            depth as int,
        ),
        match select_fault(l.side as int, depth as int) {
            None => r is Ok,
            Some(e) => r == Err::<(), TileError>(e),
        },
{
    proof {
        reveal(select_written);
    }
    let ctx: usize = neighbours.tx_size_ctx(l.mi, l.side);
    put(out, depth, Cdf::TxSize(category(l.side), ctx));
    if l.side == 64 && depth != 0 {
        return Err(TileError::LumaSplit);
    }
    write_luma_tus(out, plan, neighbours, l, scans);
    neighbours.record_tx(l.mi, l.side, l.tx);
    Ok(())
}

fn category(side: usize) -> (cat: usize)
    ensures
        cat == tx_category(side as int),
{
    if side == 8 {
        0
    } else if side == 16 {
        1
    } else if side == 32 {
        2
    } else {
        3
    }
}

/// The context of whether an inter block's transform is halved.
pub fn txfm_partition_ctx(above: u8, left: u8, side: usize, tx: usize) -> (ctx: usize)
    ensures
        ctx == spec_txfm_partition_ctx(above as int, left as int, side as int, tx as int),
{
    let max: usize = category(side) + 1;
    3 * (bit(tx != side && side > 8) + (4 - max) * 2) + bit((above as usize) < tx) + bit(
        (left as usize) < tx,
    )
}

fn write_quarter(
    out: &mut Vec<Op>,
    neighbours: &mut Neighbours,
    mi: (usize, usize),
    side: usize,
    tx: usize,
)
    requires
        neighbours::is_bands(old(neighbours)@),
        mi.0 < old(neighbours)@.left.len(),
        mi.1 < old(neighbours)@.above.len(),
        tx <= 64,
    ensures
        neighbours::is_bands(final(neighbours)@),
        (Written { ops: final(out)@, bands: final(neighbours)@ }) == quarter_written(
            Written { ops: old(out)@, bands: old(neighbours)@ },
            mi.0 as int,
            mi.1 as int,
            side as int,
            tx as int,
        ),
{
    let ctx: usize = txfm_partition_ctx(
        neighbours.above[mi.1].txfm,
        neighbours.left[mi.0].txfm,
        side,
        tx,
    );
    if tx > 4 {
        put(out, 0, Cdf::TxfmPartition(ctx));
    }
    neighbours.record_txfm(mi, tx, tx);
}

/// Halves a side a number of times.
pub fn halve(side: usize, depth: usize) -> (tx: usize)
    ensures
        tx == halved(side as int, depth as int),
{
    if depth == 0 {
        side
    } else if depth == 1 {
        side / 2
    } else {
        side / 4
    }
}

/// Writes the transform syntax of a block of an inter frame and hands back the
/// side of its luma transform.
pub fn write_tx_syntax_inter(
    out: &mut Vec<Op>,
    neighbours: &mut Neighbours,
    mi: (usize, usize),
    side: usize,
    is_inter: bool,
    skip: bool,
    depth: usize,
) -> (tx: usize)
    requires
        neighbours::is_bands(old(neighbours)@),
        side == 8 || side == 16 || side == 32 || side == 64,
        neighbours::is_at(old(neighbours)@, mi.0 as int, mi.1 as int, side as int / 4),
    ensures
        neighbours::is_bands(final(neighbours)@),
        ({
            let said = tx_inter_written(
                Written { ops: old(out)@, bands: old(neighbours)@ },
                mi.0 as int,
                mi.1 as int,
                side as int,
                is_inter,
                skip,
                depth as int,
            );
            &&& (Written { ops: final(out)@, bands: final(neighbours)@ }) == said.w
            &&& tx == said.tx
        }),
{
    proof {
        reveal(tx_inter_written);
    }
    if is_inter {
        if skip {
            neighbours.record_txfm(mi, side, side);
            return side;
        }
        let ctx: usize = txfm_partition_ctx(
            neighbours.above[mi.1].txfm,
            neighbours.left[mi.0].txfm,
            side,
            side,
        );
        put(out, bit(depth != 0), Cdf::TxfmPartition(ctx));
        if depth == 0 {
            neighbours.record_txfm(mi, side, side);
            return side;
        }
        let tx: usize = side / 2;
        let step: usize = tx / 4;
        write_quarter(out, neighbours, mi, side, tx);
        write_quarter(out, neighbours, (mi.0, mi.1 + step), side, tx);
        write_quarter(out, neighbours, (mi.0 + step, mi.1), side, tx);
        write_quarter(out, neighbours, (mi.0 + step, mi.1 + step), side, tx);
        return tx;
    }
    let ctx: usize = neighbours.tx_size_ctx_txfm(mi, side);
    put(out, depth, Cdf::TxSize(category(side), ctx));
    let tx: usize = halve(side, depth);
    neighbours.record_txfm(mi, tx, side);
    tx
}

/// Writing a block's residual keeps the frame its bands belong to.
pub proof fn select_keeps_the_frame(plan: FramePlan, w: Written, l: LumaUnits, depth: int)
    ensures
        state::same_frame(w.bands, select_written(plan, w, l, depth).bands),
{
    reveal(select_written);
    let said = Written {
        ops: w.ops.push(
            ops::symbol(
                depth,
                Cdf::TxSize(
                    tx_category(l.side) as usize,
                    neighbours::spec_tx_size_ctx(w.bands, l.mi_r, l.mi_c, l.side) as usize,
                ),
            ),
        ),
        ..w
    };
    luma_keeps_the_frame(plan, said, l);
}

/// Writing a block's transform units keeps the frame its bands belong to.
pub proof fn luma_keeps_the_frame(plan: FramePlan, w: Written, l: LumaUnits)
    ensures
        state::same_frame(w.bands, luma_written(plan, w, l).bands),
{
    reveal(luma_written);
    lemma_rows_keep(plan, w, l, l.side / l.tx);
}

pub proof fn lemma_rows_keep(plan: FramePlan, w: Written, l: LumaUnits, count: int)
    ensures
        state::same_frame(w.bands, unit_rows_written(plan, w, l, count).bands),
    decreases count,
{
    if count > 0 {
        lemma_rows_keep(plan, w, l, count - 1);
        lemma_row_keeps(
            plan,
            unit_rows_written(plan, w, l, count - 1),
            l,
            count - 1,
            l.side / l.tx,
        );
    }
}

pub proof fn lemma_row_keeps(plan: FramePlan, w: Written, l: LumaUnits, r: int, count: int)
    ensures
        state::same_frame(w.bands, unit_row_written(plan, w, l, r, count).bands),
    decreases count,
{
    if count > 0 {
        lemma_row_keeps(plan, w, l, r, count - 1);
    }
}

/// Writing a block's transform syntax keeps the frame its bands belong to, and
/// leaves a transform that fits the block.
pub proof fn tx_syntax_keeps_the_frame(
    w: Written,
    mi_r: int,
    mi_c: int,
    side: int,
    inter: bool,
    skip: bool,
    depth: int,
)
    ensures
        state::same_frame(
            w.bands,
            tx_inter_written(w, mi_r, mi_c, side, inter, skip, depth).w.bands,
        ),
        ({
            let tx = tx_inter_written(w, mi_r, mi_c, side, inter, skip, depth).tx;
            if inter {
                tx == side || tx == side / 2
            } else {
                tx == halved(side, depth)
            }
        }),
{
    reveal(tx_inter_written);
}

} // verus!
