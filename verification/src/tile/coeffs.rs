//! The coefficients of one transform block.
use crate::tile::context;
use crate::tile::context::{base_ctx, br_ctx, eob_coeff_ctx};
use crate::tile::golomb;
use crate::tile::golomb::write_golomb;
use crate::tile::levels;
use crate::tile::levels::{MAX_BR_LEVEL, NUM_BASE_LEVELS};
use crate::tile::ops;
use crate::tile::ops::{bit, put, put_literal, Cdf, Op, TxbSet, TxbTable};
use crate::tile::scan;
use crate::tile::scan::{class_scan_table, TxClass};
use crate::transform::tx_type;
use crate::transform::tx_type::TxType;
use vstd::prelude::*;

verus! {

/// The first end-of-block position of each group of them.
pub const EOB_GROUP_START: [usize; 12] = [0, 1, 2, 3, 5, 9, 17, 33, 65, 129, 257, 513];

/// How many bits the offset inside each group takes below its top one.
pub const EOB_LOW_BITS: [u32; 12] = [0, 0, 0, 0, 1, 2, 3, 4, 5, 6, 7, 8];

/// What the top bit of the offset inside each group is worth; zero in a group
/// of one position.
pub const EOB_TOP: [u32; 12] = [0, 0, 0, 1, 2, 4, 8, 16, 32, 64, 128, 256];

/// The last group, up to `g`, that starts no later than `eob`.
pub open spec fn eob_group(eob: int, g: int) -> int
    decreases g,
{
    if g <= 0 || EOB_GROUP_START[g] <= eob {
        g
    } else {
        eob_group(eob, g - 1)
    }
}

/// The two types a 32x32 inter block chooses from, in the order of their
/// symbols.
pub open spec fn inter_set3() -> Seq<TxType> {
    seq![TxType::Idtx, TxType::DctDct]
}

/// The types a set's transforms choose from, where there is a choice. A frame
/// that reduces its sets offers fewer.
pub open spec fn tx_set(set: TxbSet, reduced: bool) -> Option<Seq<TxType>> {
    match set {
        TxbSet::Luma4 | TxbSet::Luma8 => Some(
            if reduced {
                tx_type::intra_set2()
            } else {
                tx_type::intra_set1()
            },
        ),
        TxbSet::Luma16 => Some(tx_type::intra_set2()),
        TxbSet::Luma4Inter | TxbSet::Luma8Inter => Some(
            if reduced {
                inter_set3()
            } else {
                tx_type::inter_set1()
            },
        ),
        TxbSet::Luma16Inter => Some(
            if reduced {
                inter_set3()
            } else {
                tx_type::inter_set2()
            },
        ),
        TxbSet::Luma32Inter => Some(inter_set3()),
        _ => None,
    }
}

/// The symbol of a type in a set, from symbol `i` on.
pub open spec fn symbol_from(set: Seq<TxType>, tx: TxType, i: int) -> Option<int>
    decreases set.len() - i,
{
    if i >= set.len() {
        None
    } else if set[i] == tx {
        Some(i)
    } else {
        symbol_from(set, tx, i + 1)
    }
}

/// The symbol a type is coded as, which for a type the set does not hold is
/// the second.
pub open spec fn tx_symbol(set: Seq<TxType>, tx: TxType) -> int {
    match symbol_from(set, tx, 0) {
        Some(i) => i,
        None => 1,
    }
}

/// The table of a set.
pub open spec fn txb(set: TxbSet, table: TxbTable) -> Cdf {
    Cdf::Txb(set, table)
}

/// The end-of-block table of a transform of this class: one along one axis
/// has its own, where the size offers such transforms.
pub open spec fn eob_table(set: TxbSet, class: TxClass) -> TxbTable {
    if class == TxClass::TwoD || ops::coeff_side(set) > 16 {
        TxbTable::EobPt
    } else {
        TxbTable::EobPtClass1
    }
}

/// The symbols of an end-of-block position.
pub open spec fn eob_ops(set: TxbSet, eob: int, class: TxClass) -> Seq<Op> {
    let g = eob_group(eob, 11);
    let offset = eob - EOB_GROUP_START[g];
    let group = seq![ops::symbol(g - 1, txb(set, eob_table(set, class)))];
    if EOB_TOP[g] == 0 {
        group
    } else {
        let top = group.push(
            ops::symbol(
                offset / EOB_TOP[g] as int,
                txb(set, TxbTable::EobExtra((g - 3) as usize)),
            ),
        );
        if EOB_LOW_BITS[g] == 0 {
            top
        } else {
            top.push(ops::literal(offset % (EOB_TOP[g] as int), EOB_LOW_BITS[g] as int))
        }
    }
}

/// How many symbols the base-range tail of a level takes.
pub open spec fn br_count(level: int) -> int {
    context::min((level - 3) / 3 + 1, 4)
}

/// The increment symbol `j` of the base-range tail of a level carries.
pub open spec fn br_step(level: int, j: int) -> int {
    context::min(level - 3 - 3 * j, 3)
}

/// The base-range tail of a level above two: increments of up to three, until
/// one falls short or there have been four.
pub open spec fn br_ops(set: TxbSet, level: int, ctx: int) -> Seq<Op> {
    Seq::new(
        br_count(level) as nat,
        |j: int| ops::symbol(br_step(level, j), txb(set, TxbTable::Br(ctx as usize))),
    )
}

/// The symbols of the magnitude at scan position `i` of a block whose last
/// coded position is `eob - 1`.
#[verifier::opaque]
pub open spec fn level_ops(
    set: TxbSet,
    grid: Seq<i32>,
    scan: Seq<int>,
    class: TxClass,
    eob: int,
    i: int,
) -> Seq<Op> {
    let side = ops::coeff_side(set);
    let row = scan[i] / side;
    let col = scan[i] % side;
    let level = context::abs(grid[scan[i]] as int);
    let base = if i == eob - 1 {
        ops::symbol(
            context::min(level, 3) - 1,
            txb(
                set,
                TxbTable::BaseEob(context::spec_eob_coeff_ctx(i, side * side) as usize),
            ),
        )
    } else {
        ops::symbol(
            context::min(level, 3),
            txb(
                set,
                TxbTable::Base(context::spec_base_ctx(grid, side, row, col, class) as usize),
            ),
        )
    };
    if level > NUM_BASE_LEVELS {
        seq![base] + br_ops(set, level, context::spec_br_ctx(grid, side, row, col, class))
    } else {
        seq![base]
    }
}

/// The symbols of the magnitudes from the last coded position down to scan
/// position `from`.
pub open spec fn magnitudes_ops(
    set: TxbSet,
    grid: Seq<i32>,
    scan: Seq<int>,
    class: TxClass,
    eob: int,
    from: int,
) -> Seq<Op>
    decreases eob - from,
{
    if from >= eob {
        Seq::empty()
    } else {
        magnitudes_ops(set, grid, scan, class, eob, from + 1) + level_ops(
            set,
            grid,
            scan,
            class,
            eob,
            from,
        )
    }
}

/// The sign of a nonzero level and the tail of one too wide for the
/// base-range syntax. The DC's sign has a table of its own.
pub open spec fn sign_ops(set: TxbSet, level: int, pos: int, sign_ctx: int) -> Seq<Op> {
    if level == 0 {
        Seq::empty()
    } else {
        let sign = if pos == 0 {
            ops::symbol(ops::flag(level < 0), txb(set, TxbTable::DcSign(sign_ctx as usize)))
        } else {
            ops::literal(ops::flag(level < 0), 1)
        };
        if context::abs(level) > MAX_BR_LEVEL {
            seq![sign] + golomb::golomb_ops(context::abs(level) - MAX_BR_LEVEL - 1)
        } else {
            seq![sign]
        }
    }
}

/// The signs of the first `count` scan positions.
pub open spec fn signs_ops(
    set: TxbSet,
    grid: Seq<i32>,
    scan: Seq<int>,
    sign_ctx: int,
    count: int,
) -> Seq<Op>
    decreases count,
{
    if count <= 0 {
        Seq::empty()
    } else {
        signs_ops(set, grid, scan, sign_ctx, count - 1) + sign_ops(
            set,
            grid[scan[count - 1]] as int,
            scan[count - 1],
            sign_ctx,
        )
    }
}

/// The end of block: one past the last scan position, of the first `count`,
/// that holds a level, or zero.
pub open spec fn end_of_block(grid: Seq<i32>, scan: Seq<int>, count: int) -> int
    decreases count,
{
    if count <= 0 {
        0
    } else if grid[scan[count - 1]] != 0 {
        count
    } else {
        end_of_block(grid, scan, count - 1)
    }
}

/// What one transform block is coded with besides its levels.
pub struct TxbCoding {
    /// The tables it is coded with.
    pub set: TxbSet,
    /// The row of the transform type table its mode picks.
    pub mode: usize,
    /// Whether the frame reduces its sets of transform types.
    pub reduced: bool,
    /// The context of its all-zero flag.
    pub skip_ctx: usize,
    /// The context of its DC's sign.
    pub sign_ctx: usize,
    /// Its transform type.
    pub tx_type: TxType,
}

/// The symbol of a block's transform type, where its set leaves a choice.
pub open spec fn tx_type_ops(coding: TxbCoding) -> Seq<Op> {
    match tx_set(coding.set, coding.reduced) {
        Some(types) => seq![
            ops::symbol(
                tx_symbol(types, coding.tx_type),
                txb(coding.set, TxbTable::TxType(coding.mode)),
            ),
        ],
        None => Seq::empty(),
    }
}

/// The symbols of a whole transform block: the all-zero flag, and for a block
/// that is not, its type, its end, its magnitudes backwards and its signs
/// forwards.
pub open spec fn coeffs_ops(coding: TxbCoding, grid: Seq<i32>) -> Seq<Op> {
    let set = coding.set;
    let side = ops::coeff_side(set);
    let class = scan::class_of(coding.tx_type);
    let order = scan::scan_for(side, class);
    let eob = end_of_block(grid, order, side * side);
    let zero = seq![
        ops::symbol(ops::flag(eob == 0), txb(set, TxbTable::Skip(coding.skip_ctx))),
    ];
    if eob == 0 {
        zero
    } else {
        zero + tx_type_ops(coding) + eob_ops(set, eob, class) + magnitudes_ops(
            set,
            grid,
            order,
            class,
            eob,
            0,
        ) + signs_ops(set, grid, order, coding.sign_ctx as int, eob)
    }
}

/// The end-of-block symbols name one position: its group's start, the top bit
/// and the low ones add up to it.
pub proof fn eob_reads_back(eob: int)
    requires
        1 <= eob <= 1024,
    ensures
        ({
            let g = eob_group(eob, 11);
            let offset = eob - EOB_GROUP_START[g];
            let top = EOB_TOP[g] as int;
            &&& 1 <= g <= 11
            &&& 0 <= offset
            &&& top == 0 ==> offset == 0
            &&& top != 0 ==> 3 <= g && 0 <= offset / top <= 1 && 0 <= offset % top < top && (offset
                / top) * top + offset % top == offset
        }),
{
    reveal_with_fuel(eob_group, 12);
    let g = eob_group(eob, 11);
    let offset = eob - EOB_GROUP_START[g];
    let top = EOB_TOP[g] as int;
    assert(top != 0 ==> 0 <= offset < 2 * top);
    if top != 0 {
        vstd::arithmetic::div_mod::lemma_fundamental_div_mod(offset, top);
        assert(0 <= offset / top <= 1 && (offset / top) * top + offset % top == offset)
            by (nonlinear_arith)
            requires
                offset == top * (offset / top) + offset % top,
                0 <= offset % top < top,
                0 <= offset < 2 * top,
        ;
    }
}

/// The sum of the first `count` increments of a level's base-range tail.
pub open spec fn br_sum(level: int, count: int) -> int
    decreases count,
{
    if count <= 0 {
        0
    } else {
        br_sum(level, count - 1) + br_step(level, count - 1)
    }
}

/// The parts a magnitude is coded in add up to it: the base, the base-range
/// increments, and the Golomb tail where there is one.
pub proof fn level_parts_add_up(level: int)
    requires
        1 <= level,
    ensures
        level <= 2 ==> context::min(level, 3) == level,
        2 < level <= MAX_BR_LEVEL ==> 3 + br_sum(level, br_count(level)) == level,
        level > MAX_BR_LEVEL ==> 3 + br_sum(level, br_count(level)) + golomb::read_golomb(
            golomb::golomb_ops(level - MAX_BR_LEVEL - 1),
        ) == level,
{
    reveal_with_fuel(br_sum, 5);
    if level > MAX_BR_LEVEL {
        golomb::golomb_tail_reads_back(level - MAX_BR_LEVEL - 1);
    }
}

fn symbol_in(set: &[TxType], tx: TxType) -> (symbol: usize)
    ensures
        symbol == tx_symbol(set@, tx),
{
    let mut i: usize = 0;
    while i < set.len()
        invariant
            i <= set.len(),
            symbol_from(set@, tx, i as int) == symbol_from(set@, tx, 0),
        decreases set.len() - i,
    {
        if set[i] == tx {
            return i;
        }
        i += 1;
    }
    1
}

/// The symbol of a transform type in its set, where the set leaves a choice.
pub fn tx_type_symbol(set: TxbSet, reduced: bool, tx: TxType) -> (symbol: Option<usize>)
    ensures
        match tx_set(set, reduced) {
            Some(types) => symbol is Some && symbol->0 == tx_symbol(types, tx),
            None => symbol is None,
        },
{
    let intra5: [TxType; 5] = [
        TxType::Idtx,
        TxType::DctDct,
        TxType::AdstAdst,
        TxType::AdstDct,
        TxType::DctAdst,
    ];
    let intra7: [TxType; 7] = [
        TxType::Idtx,
        TxType::DctDct,
        TxType::VDct,
        TxType::HDct,
        TxType::AdstAdst,
        TxType::AdstDct,
        TxType::DctAdst,
    ];
    let inter12: [TxType; 12] = [
        TxType::Idtx,
        TxType::VDct,
        TxType::HDct,
        TxType::DctDct,
        TxType::AdstDct,
        TxType::DctAdst,
        TxType::FlipAdstDct,
        TxType::DctFlipAdst,
        TxType::AdstAdst,
        TxType::FlipAdstFlipAdst,
        TxType::AdstFlipAdst,
        TxType::FlipAdstAdst,
    ];
    let inter16: [TxType; 16] = [
        TxType::Idtx,
        TxType::VDct,
        TxType::HDct,
        TxType::VAdst,
        TxType::HAdst,
        TxType::VFlipAdst,
        TxType::HFlipAdst,
        TxType::DctDct,
        TxType::AdstDct,
        TxType::DctAdst,
        TxType::FlipAdstDct,
        TxType::DctFlipAdst,
        TxType::AdstAdst,
        TxType::FlipAdstFlipAdst,
        TxType::AdstFlipAdst,
        TxType::FlipAdstAdst,
    ];
    let inter2: [TxType; 2] = [TxType::Idtx, TxType::DctDct];
    proof {
        assert(intra5@ =~= tx_type::intra_set2());
        assert(intra7@ =~= tx_type::intra_set1());
        assert(inter12@ =~= tx_type::inter_set2());
        assert(inter16@ =~= tx_type::inter_set1());
        assert(inter2@ =~= inter_set3());
    }
    match set {
        TxbSet::Luma4 | TxbSet::Luma8 => {
            if reduced {
                Some(symbol_in(&intra5, tx))
            } else {
                Some(symbol_in(&intra7, tx))
            }
        },
        TxbSet::Luma16 => Some(symbol_in(&intra5, tx)),
        TxbSet::Luma4Inter | TxbSet::Luma8Inter => {
            if reduced {
                Some(symbol_in(&inter2, tx))
            } else {
                Some(symbol_in(&inter16, tx))
            }
        },
        TxbSet::Luma16Inter => {
            if reduced {
                Some(symbol_in(&inter2, tx))
            } else {
                Some(symbol_in(&inter12, tx))
            }
        },
        TxbSet::Luma32Inter => Some(symbol_in(&inter2, tx)),
        _ => None,
    }
}

/// Writes the end-of-block position: which group of scan positions the last
/// coded coefficient falls in, then its offset inside that group, the
/// offset's top bit from a table and the rest as raw bits.
pub fn write_eob(out: &mut Vec<Op>, set: TxbSet, eob: usize, class: TxClass)
    requires
        1 <= eob <= 1024,
    ensures
        final(out)@ == old(out)@ + eob_ops(set, eob as int, class),
{
    let mut g: usize = 11;
    while EOB_GROUP_START[g] > eob
        invariant
            g <= 11,
            1 <= eob,
            eob_group(eob as int, g as int) == eob_group(eob as int, 11),
        decreases g,
    {
        g -= 1;
    }
    proof {
        eob_reads_back(eob as int);
        assert(g == eob_group(eob as int, 11));
    }
    let two_d: bool = match class {
        TxClass::TwoD => true,
        _ => false,
    };
    let table: TxbTable = if two_d || set.side() > 16 {
        TxbTable::EobPt
    } else {
        TxbTable::EobPtClass1
    };
    put(out, g - 1, Cdf::Txb(set, table));
    let top: u32 = EOB_TOP[g];
    if top > 0 {
        let offset: u32 = (eob - EOB_GROUP_START[g]) as u32;
        put(out, (offset / top) as usize, Cdf::Txb(set, TxbTable::EobExtra(g - 3)));
        let low: u32 = EOB_LOW_BITS[g];
        if low > 0 {
            put_literal(out, offset % top, low);
        }
    }
    proof {
        assert(out@ =~= old(out)@ + eob_ops(set, eob as int, class));
    }
}

fn write_br(out: &mut Vec<Op>, set: TxbSet, level: i32, ctx: usize)
    requires
        3 <= level <= levels::MAX_LEVEL,
    ensures
        final(out)@ == old(out)@ + br_ops(set, level as int, ctx as int),
{
    let mut remaining: i32 = level - 3;
    let mut sent: usize = 0;
    proof {
        assert(out@ =~= old(out)@ + br_ops(set, level as int, ctx as int).take(0));
    }
    while sent < 4
        invariant
            3 <= level <= levels::MAX_LEVEL,
            sent <= 4,
            sent <= br_count(level as int),
            remaining == level - 3 - 3 * sent,
            remaining >= 0,
            out@ == old(out)@ + br_ops(set, level as int, ctx as int).take(sent as int),
        decreases 4 - sent,
    {
        let k: i32 = if remaining <= 3 {
            remaining
        } else {
            3
        };
        put(out, k as usize, Cdf::Txb(set, TxbTable::Br(ctx)));
        proof {
            assert(sent < br_count(level as int));
            assert(br_ops(set, level as int, ctx as int).take(sent + 1) =~= br_ops(
                set,
                level as int,
                ctx as int,
            ).take(sent as int).push(
                ops::symbol(br_step(level as int, sent as int), txb(set, TxbTable::Br(ctx))),
            ));
        }
        if k < 3 {
            proof {
                assert(br_count(level as int) == sent + 1);
                assert(br_ops(set, level as int, ctx as int).take(sent + 1) =~= br_ops(
                    set,
                    level as int,
                    ctx as int,
                ));
            }
            return ;
        }
        remaining -= k;
        sent += 1;
    }
    proof {
        assert(br_ops(set, level as int, ctx as int).take(4) =~= br_ops(
            set,
            level as int,
            ctx as int,
        ));
    }
}

fn abs(level: i32) -> (m: i32)
    requires
        level > i32::MIN,
    ensures
        m == context::abs(level as int),
{
    if level < 0 {
        -level
    } else {
        level
    }
}

#[verifier::rlimit(60)]
fn write_level(
    out: &mut Vec<Op>,
    set: TxbSet,
    grid: &[i32],
    pos: usize,
    class: TxClass,
    scan_idx: usize,
    eob: usize,
    Ghost(order): Ghost<Seq<int>>,
)
    requires
        levels::is_grid(grid@, ops::coeff_side(set)),
        scan_idx < eob <= 1024,
        0 <= pos < grid.len(),
        order[scan_idx as int] == pos,
        scan_idx == eob - 1 ==> grid@[pos as int] != 0,
    ensures
        final(out)@ == old(out)@ + level_ops(
            set,
            grid@,
            order,
            class,
            eob as int,
            scan_idx as int,
        ),
{
    let side: usize = set.side();
    proof {
        reveal(level_ops);
        assert(side * side <= 1024) by (nonlinear_arith)
            requires
                0 <= side <= 32,
        ;
        vstd::arithmetic::div_mod::lemma_fundamental_div_mod(pos as int, side as int);
        assert(pos / side < side) by (nonlinear_arith)
            requires
                pos == side * (pos / side) + pos % side,
                0 <= pos % side,
                pos < side * side,
                side > 0,
        ;
    }
    let row: usize = pos / side;
    let col: usize = pos % side;
    let level: i32 = abs(grid[pos]);
    let base: i32 = if level <= 3 {
        level
    } else {
        3
    };
    if scan_idx == eob - 1 {
        let ctx: usize = eob_coeff_ctx(scan_idx, side * side);
        put(out, (base - 1) as usize, Cdf::Txb(set, TxbTable::BaseEob(ctx)));
    } else {
        let ctx: usize = base_ctx(grid, side, row, col, class);
        put(out, base as usize, Cdf::Txb(set, TxbTable::Base(ctx)));
    }
    if level > NUM_BASE_LEVELS {
        let ctx: usize = br_ctx(grid, side, row, col, class);
        write_br(out, set, level, ctx);
    }
    proof {
        assert(out@ =~= old(out)@ + level_ops(
            set,
            grid@,
            order,
            class,
            eob as int,
            scan_idx as int,
        ));
    }
}

fn write_sign(out: &mut Vec<Op>, set: TxbSet, level: i32, pos: usize, sign_ctx: usize)
    requires
        level == 0 || levels::is_codable(level as int),
    ensures
        final(out)@ == old(out)@ + sign_ops(set, level as int, pos as int, sign_ctx as int),
{
    if level == 0 {
        proof {
            assert(out@ =~= old(out)@ + sign_ops(set, level as int, pos as int, sign_ctx as int));
        }
        return ;
    }
    if pos == 0 {
        put(out, bit(level < 0), Cdf::Txb(set, TxbTable::DcSign(sign_ctx)));
    } else {
        put_literal(out, bit(level < 0) as u32, 1);
    }
    let magnitude: i32 = abs(level);
    if magnitude > MAX_BR_LEVEL {
        write_golomb(out, (magnitude - MAX_BR_LEVEL - 1) as u32);
    }
    proof {
        assert(out@ =~= old(out)@ + sign_ops(set, level as int, pos as int, sign_ctx as int));
    }
}

/// Whether every level of a block is zero.
fn is_zero(grid: &[i32]) -> (zero: bool)
    ensures
        zero <==> forall|p: int| 0 <= p < grid.len() ==> grid@[p] == 0,
{
    let mut i: usize = 0;
    while i < grid.len()
        invariant
            i <= grid.len(),
            forall|p: int| 0 <= p < i ==> grid@[p] == 0,
        decreases grid.len() - i,
    {
        if grid[i] != 0 {
            return false;
        }
        i += 1;
    }
    true
}

proof fn lemma_end_of_block(grid: Seq<i32>, order: Seq<int>, count: int)
    ensures
        0 <= end_of_block(grid, order, count) <= context::abs(count),
        end_of_block(grid, order, count) > 0 ==> grid[order[end_of_block(grid, order, count) - 1]]
            != 0,
        0 < end_of_block(grid, order, count) ==> end_of_block(grid, order, count) <= count,
    decreases count,
{
    if count > 0 {
        lemma_end_of_block(grid, order, count - 1);
    }
}

proof fn lemma_zero_block(grid: Seq<i32>, order: Seq<int>, count: int)
    requires
        count <= order.len(),
        forall|k: int| 0 <= k < count ==> 0 <= #[trigger] order[k] < grid.len(),
        forall|p: int| 0 <= p < grid.len() ==> grid[p] == 0,
    ensures
        end_of_block(grid, order, count) == 0,
    decreases count,
{
    if count > 0 {
        lemma_zero_block(grid, order, count - 1);
        assert(grid[order[count - 1]] == 0);
    }
}

fn find_eob(grid: &[i32], scan: &[u16]) -> (eob: usize)
    requires
        forall|k: int| 0 <= k < scan.len() ==> (#[trigger] scan@[k] as int) < grid.len(),
    ensures
        eob == end_of_block(grid@, scan::positions(scan@), scan.len() as int),
{
    let ghost order = scan::positions(scan@);
    if is_zero(grid) {
        proof {
            assert forall|k: int| 0 <= k < scan.len() implies 0 <= #[trigger] order[k]
                < grid.len() by {
                assert(order[k] == scan@[k]);
            }
            lemma_zero_block(grid@, order, scan.len() as int);
        }
        return 0;
    }
    let mut n: usize = scan.len();
    while n > 0
        invariant
            n <= scan.len(),
            order == scan::positions(scan@),
            forall|k: int| 0 <= k < scan.len() ==> (#[trigger] scan@[k] as int) < grid.len(),
            end_of_block(grid@, order, n as int) == end_of_block(
                grid@,
                order,
                scan.len() as int,
            ),
        decreases n,
    {
        assert(order[n - 1] == scan@[n - 1]);
        if grid[scan[n - 1] as usize] != 0 {
            return n;
        }
        n -= 1;
    }
    0
}

/// Writes one plane's transform block of any coefficients the level syntax
/// reaches.
///
/// `order` is the default scan of the block's size; a transform along one
/// axis is coded in its own order.
pub fn write_coeffs(out: &mut Vec<Op>, coding: &TxbCoding, grid: &[i32], order: &[u16])
    requires
        levels::is_grid(grid@, ops::coeff_side(coding.set)),
        scan::positions(order@) == scan::spec_default_scan(ops::coeff_side(coding.set)),
    ensures
        final(out)@ == old(out)@ + coeffs_ops(*coding, grid@),
{
    let class: TxClass = TxClass::of(coding.tx_type);
    match class {
        TxClass::TwoD => write_ordered(out, coding, grid, order, class),
        _ => {
            let own: Vec<u16> = class_scan_table(coding.set.side(), class);
            write_ordered(out, coding, grid, &own, class)
        },
    }
}

#[verifier::rlimit(60)]
fn write_ordered(
    out: &mut Vec<Op>,
    coding: &TxbCoding,
    grid: &[i32],
    order: &[u16],
    class: TxClass,
)
    requires
        levels::is_grid(grid@, ops::coeff_side(coding.set)),
        class == scan::class_of(coding.tx_type),
        scan::positions(order@) == scan::scan_for(ops::coeff_side(coding.set), class),
    ensures
        final(out)@ == old(out)@ + coeffs_ops(*coding, grid@),
{
    let set: TxbSet = coding.set;
    let ghost side = ops::coeff_side(set);
    let ghost all = scan::scan_for(side, class);
    proof {
        scan::scans_stay_inside(side, class);
        assert(side * side <= 1024) by (nonlinear_arith)
            requires
                0 <= side <= 32,
        ;
        assert forall|k: int| 0 <= k < order.len() implies (#[trigger] order@[k] as int)
            < grid.len() by {
            assert(order@[k] == scan::positions(order@)[k]);
        }
        assert(order.len() == scan::positions(order@).len());
    }
    let eob: usize = find_eob(grid, order);
    proof {
        lemma_end_of_block(grid@, all, side * side);
    }
    put(out, bit(eob == 0), Cdf::Txb(set, TxbTable::Skip(coding.skip_ctx)));
    let ghost zero = seq![
        ops::symbol(ops::flag(eob == 0), txb(set, TxbTable::Skip(coding.skip_ctx))),
    ];
    proof {
        assert(out@ =~= old(out)@ + zero);
    }
    if eob == 0 {
        return ;
    }
    if let Some(symbol) = tx_type_symbol(set, coding.reduced, coding.tx_type) {
        put(out, symbol, Cdf::Txb(set, TxbTable::TxType(coding.mode)));
    }
    proof {
        assert(out@ =~= old(out)@ + (zero + tx_type_ops(*coding)));
    }
    write_eob(out, set, eob, class);
    let ghost head = zero + tx_type_ops(*coding) + eob_ops(set, eob as int, class);
    proof {
        assert(out@ =~= old(out)@ + head);
    }
    let mut i: usize = eob;
    while i > 0
        invariant
            i <= eob <= 1024,
            eob <= order.len(),
            set == coding.set,
            side == ops::coeff_side(set),
            all == scan::positions(order@),
            levels::is_grid(grid@, side),
            forall|k: int| 0 <= k < order.len() ==> (#[trigger] order@[k] as int) < grid.len(),
            grid@[all[eob - 1]] != 0,
            out@ == old(out)@ + (head + magnitudes_ops(
                set,
                grid@,
                all,
                class,
                eob as int,
                i as int,
            )),
        decreases i,
    {
        i -= 1;
        let pos: usize = order[i] as usize;
        assert(all[i as int] == pos);
        write_level(out, set, grid, pos, class, i, eob, Ghost(all));
        proof {
            assert(out@ =~= old(out)@ + (head + magnitudes_ops(
                set,
                grid@,
                all,
                class,
                eob as int,
                i as int,
            )));
        }
    }
    let ghost body = head + magnitudes_ops(set, grid@, all, class, eob as int, 0);
    proof {
        assert(out@ =~= old(out)@ + (body + signs_ops(
            set,
            grid@,
            all,
            coding.sign_ctx as int,
            0,
        )));
    }
    while i < eob
        invariant
            i <= eob <= 1024,
            eob <= order.len(),
            set == coding.set,
            side == ops::coeff_side(set),
            all == scan::positions(order@),
            levels::is_grid(grid@, side),
            forall|k: int| 0 <= k < order.len() ==> (#[trigger] order@[k] as int) < grid.len(),
            out@ == old(out)@ + (body + signs_ops(
                set,
                grid@,
                all,
                coding.sign_ctx as int,
                i as int,
            )),
        decreases eob - i,
    {
        let pos: usize = order[i] as usize;
        assert(all[i as int] == pos);
        write_sign(out, set, grid[pos], pos, coding.sign_ctx);
        i += 1;
        proof {
            assert(out@ =~= old(out)@ + (body + signs_ops(
                set,
                grid@,
                all,
                coding.sign_ctx as int,
                i as int,
            )));
        }
    }
}

} // verus!
