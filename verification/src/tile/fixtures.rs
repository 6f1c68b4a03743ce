//! Key frames simple enough to need no adaptation: flat ones, and ones of a
//! single DC level per block.
use crate::tile::coeffs;
use crate::tile::context;
use crate::tile::error::TileError;
use crate::tile::key_tile::Trace;
use crate::tile::layout;
use crate::tile::layout::q_ctx_of;
use crate::tile::levels::MAX_BR_LEVEL;
use crate::tile::neighbours;
use crate::tile::neighbours::{dc_sign_ctx, dc_vote};
use crate::tile::ops;
use crate::tile::ops::{bit, Cdf, Op, TxbSet, TxbTable};
use crate::tile::plans::{PARTITION_NONE, PARTITION_SPLIT};
use vstd::prelude::*;

verus! {

/// Whether a frame is a whole number of 64x64 superblocks.
pub open spec fn is_whole(mi_cols: u32, mi_rows: u32) -> bool {
    &&& mi_cols > 0
    &&& mi_rows > 0
    &&& mi_cols % 16 == 0
    &&& mi_rows % 16 == 0
}

/// One skipped superblock, in the context of how many neighbours it has.
pub open spec fn flat_block(r: int, c: int) -> Seq<Op> {
    seq![
        ops::fixed(0, Cdf::PartitionW64(0)),
        ops::fixed(1, Cdf::Skip((ops::flag(r > 0) + ops::flag(c > 0)) as usize)),
        ops::fixed(0, Cdf::KfYMode(0, 0)),
        ops::fixed(0, Cdf::UvModeNoCfl(0)),
    ]
}

/// The first `count` superblocks of a row.
pub open spec fn flat_row(r: int, count: int) -> Seq<Op>
    decreases count,
{
    if count <= 0 {
        Seq::empty()
    } else {
        flat_row(r, count - 1) + flat_block(r, count - 1)
    }
}

/// The first `count` rows of a flat frame.
pub open spec fn flat_rows(sb_cols: int, count: int) -> Seq<Op>
    decreases count,
{
    if count <= 0 {
        Seq::empty()
    } else {
        flat_rows(sb_cols, count - 1) + flat_row(count - 1, sb_cols)
    }
}

/// The vote of a level's sign.
pub open spec fn sign_vote(level: i32) -> int {
    if level < 0 {
        -1
    } else {
        1
    }
}

/// The context of a block's DC sign, by the levels above it and to its left.
pub open spec fn sign_ctx(levels: Seq<i32>, cols: int, r: int, c: int) -> int {
    let above = if r > 0 {
        sign_vote(levels[(r - 1) * cols + c])
    } else {
        0
    };
    let left = if c > 0 {
        sign_vote(levels[r * cols + c - 1])
    } else {
        0
    };
    neighbours::spec_dc_sign_ctx(above + left)
}

/// The base-range tail of a DC level.
pub open spec fn dc_tail(set: TxbSet, level: int) -> Seq<Op> {
    if level > 2 {
        Seq::new(
            coeffs::br_count(level) as nat,
            |j: int| ops::fixed(coeffs::br_step(level, j), Cdf::Txb(set, TxbTable::Br(0))),
        )
    } else {
        Seq::empty()
    }
}

/// A luma transform block whose only coefficient is its DC.
pub open spec fn dc_ops(set: TxbSet, level: i32, ctx: int) -> Seq<Op> {
    let size = context::abs(level as int);
    seq![
        ops::fixed(0, Cdf::Txb(set, TxbTable::Skip(0))),
        ops::fixed(0, Cdf::Txb(set, TxbTable::EobPt)),
        ops::fixed(context::min(size, 3) - 1, Cdf::Txb(set, TxbTable::BaseEob(0))),
    ] + dc_tail(set, size) + seq![
        ops::fixed(ops::flag(level < 0), Cdf::Txb(set, TxbTable::DcSign(ctx as usize))),
    ]
}

/// A block that carries one luma DC level and no chroma.
#[verifier::opaque]
pub open spec fn dc_block(
    partition: Cdf,
    chroma: Cdf,
    luma_set: TxbSet,
    chroma_set: TxbSet,
    level: i32,
    ctx: int,
) -> Seq<Op> {
    let none = ops::fixed(1, Cdf::Txb(chroma_set, TxbTable::Skip(0)));
    seq![
        ops::fixed(0, partition),
        ops::fixed(0, Cdf::Skip(0)),
        ops::fixed(0, Cdf::KfYMode(0, 0)),
        ops::fixed(0, chroma),
    ] + dc_ops(luma_set, level, ctx) + seq![none, none]
}

/// A 64x64 block of a DC frame.
pub open spec fn dc_whole(levels: Seq<i32>, cols: int, r: int, c: int) -> Seq<Op> {
    dc_block(
        Cdf::PartitionW64(0),
        Cdf::UvModeNoCfl(0),
        TxbSet::Luma64,
        TxbSet::Chroma32,
        levels[r * cols + c],
        sign_ctx(levels, cols, r, c),
    )
}

/// The first `count` blocks of a row.
pub open spec fn dc_row(levels: Seq<i32>, cols: int, r: int, count: int) -> Seq<Op>
    decreases count,
{
    if count <= 0 {
        Seq::empty()
    } else {
        dc_row(levels, cols, r, count - 1) + dc_whole(levels, cols, r, count - 1)
    }
}

/// The first `count` rows of a frame of one level per superblock.
pub open spec fn dc_rows(levels: Seq<i32>, cols: int, count: int) -> Seq<Op>
    decreases count,
{
    if count <= 0 {
        Seq::empty()
    } else {
        dc_rows(levels, cols, count - 1) + dc_row(levels, cols, count - 1, cols)
    }
}

/// A 32x32 block of a DC frame.
pub open spec fn dc_quarter(levels: Seq<i32>, cols: int, r: int, c: int) -> Seq<Op> {
    dc_block(
        Cdf::PartitionW32(0),
        Cdf::UvModeCfl(0),
        TxbSet::Luma32,
        TxbSet::Chroma16,
        levels[r * cols + c],
        sign_ctx(levels, cols, r, c),
    )
}

/// A superblock split into four 32x32 blocks, in the context of the neighbours
/// there are.
pub open spec fn dc_split(levels: Seq<i32>, cols: int, sb_r: int, sb_c: int) -> Seq<Op> {
    let ctx = 2 * ops::flag(sb_c > 0) + ops::flag(sb_r > 0);
    seq![ops::fixed(3, Cdf::PartitionW64(ctx as usize))] + dc_quarter(
        levels,
        cols,
        2 * sb_r,
        2 * sb_c,
    ) + dc_quarter(levels, cols, 2 * sb_r, 2 * sb_c + 1) + dc_quarter(
        levels,
        cols,
        2 * sb_r + 1,
        2 * sb_c,
    ) + dc_quarter(levels, cols, 2 * sb_r + 1, 2 * sb_c + 1)
}

/// The first `count` superblocks of a row.
pub open spec fn dc_split_row(levels: Seq<i32>, cols: int, sb_r: int, count: int) -> Seq<Op>
    decreases count,
{
    if count <= 0 {
        Seq::empty()
    } else {
        dc_split_row(levels, cols, sb_r, count - 1) + dc_split(levels, cols, sb_r, count - 1)
    }
}

/// The first `count` rows of superblocks of a frame of one level per 32x32
/// block.
pub open spec fn dc_split_rows(levels: Seq<i32>, cols: int, count: int) -> Seq<Op>
    decreases count,
{
    if count <= 0 {
        Seq::empty()
    } else {
        dc_split_rows(levels, cols, count - 1) + dc_split_row(
            levels,
            cols,
            count - 1,
            cols / 2,
        )
    }
}

/// Whether a level fits the syntax without a Golomb tail.
pub open spec fn is_small(level: i32) -> bool {
    level != 0 && -MAX_BR_LEVEL <= level <= MAX_BR_LEVEL
}

/// What stops a frame of DC levels: its size, their number, or one of them.
pub open spec fn dc_fault(
    mi_cols: u32,
    mi_rows: u32,
    blocks: int,
    levels: Seq<i32>,
) -> Option<TileError> {
    if !is_whole(mi_cols, mi_rows) {
        Some(TileError::PartialSuperblocks)
    } else if levels.len() != blocks {
        Some(TileError::DcLevelCount)
    } else if exists|i: int| 0 <= i < levels.len() && !is_small(#[trigger] levels[i]) {
        Some(TileError::DcLevelRange)
    } else {
        None
    }
}

/// Whether a result is a fault, or a trace of these symbols.
pub open spec fn is_dc_trace(
    r: Result<Trace, TileError>,
    fault: Option<TileError>,
    base_q_idx: u8,
    said: Seq<Op>,
) -> bool {
    match fault {
        Some(e) => r == Err::<Trace, TileError>(e),
        None => r matches Ok(t) && t.q_ctx == layout::spec_q_ctx(base_q_idx as int) && t.ops@
            == said,
    }
}

fn put_fixed(out: &mut Vec<Op>, value: usize, cdf: Cdf)
    ensures
        final(out)@ == old(out)@.push(ops::fixed(value as int, cdf)),
{
    out.push(Op::Fixed { cdf, value });
}

/// Refuses a frame that is not a whole number of 64x64 superblocks.
pub fn check_superblocks(mi_cols: u32, mi_rows: u32) -> (r: Result<(), TileError>)
    ensures
        is_whole(mi_cols, mi_rows) ==> r == Ok::<(), TileError>(()),
        !is_whole(mi_cols, mi_rows) ==> r == Err::<(), TileError>(
            TileError::PartialSuperblocks,
        ),
{
    if mi_cols == 0 || mi_rows == 0 || mi_cols % 16 != 0 || mi_rows % 16 != 0 {
        return Err(TileError::PartialSuperblocks);
    }
    Ok(())
}

/// Refuses levels that are not one per block, and ones that are zero or need a
/// Golomb tail.
pub fn check_levels(levels: &[i32], blocks: u64) -> (r: Result<(), TileError>)
    ensures
        r == if levels@.len() != blocks {
            Err::<(), TileError>(TileError::DcLevelCount)
        } else if exists|i: int| 0 <= i < levels@.len() && !is_small(#[trigger] levels@[i]) {
            Err::<(), TileError>(TileError::DcLevelRange)
        } else {
            Ok::<(), TileError>(())
        },
{
    if levels.len() as u64 != blocks {
        return Err(TileError::DcLevelCount);
    }
    let mut i: usize = 0;
    while i < levels.len()
        invariant
            i <= levels@.len(),
            levels@.len() == blocks,
            forall|k: int| 0 <= k < i ==> is_small(#[trigger] levels@[k]),
        decreases levels@.len() - i,
    {
        let l: i32 = levels[i];
        if l == 0 || l > MAX_BR_LEVEL || l < -MAX_BR_LEVEL {
            proof {
                assert(!is_small(levels@[i as int]));
            }
            return Err(TileError::DcLevelRange);
        }
        i += 1;
    }
    Ok(())
}

/// Writes a key frame of one tile in which every superblock is a skipped 64x64
/// DC-predicted block.
pub fn flat_key_frame_tile(mi_cols: u32, mi_rows: u32) -> (r: Result<Vec<Op>, TileError>)
    ensures
        !is_whole(mi_cols, mi_rows) ==> r == Err::<Vec<Op>, TileError>(
            TileError::PartialSuperblocks,
        ),
        is_whole(mi_cols, mi_rows) ==> (r matches Ok(out) && out@ == flat_rows(
            mi_cols as int / 16,
            mi_rows as int / 16,
        )),
{
    if let Err(e) = check_superblocks(mi_cols, mi_rows) {
        return Err(e);
    }
    let sb_cols: u32 = mi_cols / 16;
    let sb_rows: u32 = mi_rows / 16;
    let mut out: Vec<Op> = Vec::new();
    let mut r: u32 = 0;
    while r < sb_rows
        invariant
            r <= sb_rows,
            out@ == flat_rows(sb_cols as int, r as int),
        decreases sb_rows - r,
    {
        let ghost before = out@;
        let mut c: u32 = 0;
        proof {
            assert(out@ =~= before + flat_row(r as int, 0));
        }
        while c < sb_cols
            invariant
                c <= sb_cols,
                out@ == before + flat_row(r as int, c as int),
            decreases sb_cols - c,
        {
            let ghost said = out@;
            put_fixed(&mut out, PARTITION_NONE, Cdf::PartitionW64(0));
            put_fixed(&mut out, 1, Cdf::Skip(bit(r > 0) + bit(c > 0)));
            put_fixed(&mut out, 0, Cdf::KfYMode(0, 0));
            put_fixed(&mut out, 0, Cdf::UvModeNoCfl(0));
            proof {
                assert(out@ =~= said + flat_block(r as int, c as int));
                assert(out@ =~= before + flat_row(r as int, c + 1));
            }
            c += 1;
        }
        r += 1;
    }
    Ok(out)
}

/// Writes the levels of a luma transform block whose only coefficient is its
/// DC.
fn write_dc_coeffs(out: &mut Vec<Op>, set: TxbSet, level: i32, ctx: usize)
    requires
        is_small(level),
    ensures
        final(out)@ == old(out)@ + dc_ops(set, level, ctx as int),
{
    let size: i32 = if level < 0 {
        -level
    } else {
        level
    };
    let ghost all = old(out)@;
    put_fixed(out, 0, Cdf::Txb(set, TxbTable::Skip(0)));
    put_fixed(out, 0, Cdf::Txb(set, TxbTable::EobPt));
    let base: i32 = if size < 3 {
        size
    } else {
        3
    };
    put_fixed(out, (base - 1) as usize, Cdf::Txb(set, TxbTable::BaseEob(0)));
    let ghost before = out@;
    let ghost tail = dc_tail(set, size as int);
    if size > 2 {
        let mut remaining: i32 = size - 3;
        let mut sent: i32 = 0;
        let mut more: bool = true;
        proof {
            assert(out@ =~= before + tail.take(0));
        }
        while more && sent < 4
            invariant
                2 < size <= MAX_BR_LEVEL,
                0 <= sent <= 4,
                tail == dc_tail(set, size as int),
                sent <= tail.len(),
                more ==> remaining == size - 3 - 3 * sent && remaining >= 0,
                !more ==> sent == tail.len(),
                out@ == before + tail.take(sent as int),
            decreases 4 - sent,
        {
            let k: i32 = if remaining < 3 {
                remaining
            } else {
                3
            };
            let ghost said = out@;
            put_fixed(out, k as usize, Cdf::Txb(set, TxbTable::Br(0)));
            proof {
                assert(sent < coeffs::br_count(size as int));
                assert(k == coeffs::br_step(size as int, sent as int));
                assert(tail[sent as int] == ops::fixed(
                    k as int,
                    Cdf::Txb(set, TxbTable::Br(0)),
                ));
                assert(tail.take(sent + 1) =~= tail.take(sent as int).push(
                    tail[sent as int],
                ));
                assert(out@ =~= before + tail.take(sent + 1));
            }
            if k < 3 {
                more = false;
            }
            remaining = remaining - k;
            sent += 1;
        }
        proof {
            assert(sent == tail.len());
            assert(tail.take(sent as int) =~= tail);
        }
    } else {
        proof {
            assert(out@ =~= before + tail);
        }
    }
    put_fixed(out, bit(level < 0), Cdf::Txb(set, TxbTable::DcSign(ctx)));
    proof {
        assert(out@ =~= all + dc_ops(set, level, ctx as int));
    }
}

/// Writes a block that carries one luma DC level and no chroma.
fn write_dc_block(
    out: &mut Vec<Op>,
    partition: Cdf,
    chroma: Cdf,
    luma_set: TxbSet,
    chroma_set: TxbSet,
    level: i32,
    ctx: usize,
)
    requires
        is_small(level),
    ensures
        final(out)@ == old(out)@ + dc_block(
            partition,
            chroma,
            luma_set,
            chroma_set,
            level,
            ctx as int,
        ),
{
    proof {
        reveal(dc_block);
    }
    let ghost all = old(out)@;
    put_fixed(out, PARTITION_NONE, partition);
    put_fixed(out, 0, Cdf::Skip(0));
    put_fixed(out, 0, Cdf::KfYMode(0, 0));
    put_fixed(out, 0, chroma);
    write_dc_coeffs(out, luma_set, level, ctx);
    put_fixed(out, 1, Cdf::Txb(chroma_set, TxbTable::Skip(0)));
    put_fixed(out, 1, Cdf::Txb(chroma_set, TxbTable::Skip(0)));
    proof {
        assert(out@ =~= all + dc_block(
            partition,
            chroma,
            luma_set,
            chroma_set,
            level,
            ctx as int,
        ));
    }
}

proof fn lemma_grid(r: int, c: int, rows: int, cols: int)
    requires
        0 <= r < rows,
        0 <= c < cols,
    ensures
        0 <= r * cols + c < cols * rows,
        r > 0 ==> 0 <= (r - 1) * cols + c < cols * rows,
        (r - 1) * cols == r * cols - cols,
{
    assert(0 <= r * cols + c < cols * rows) by (nonlinear_arith)
        requires
            0 <= r < rows,
            0 <= c < cols,
    ;
    assert((r - 1) * cols == r * cols - cols) by (nonlinear_arith);
    if r > 0 {
        assert(r * cols >= cols) by (nonlinear_arith)
            requires
                r >= 1,
                cols >= 0,
        ;
    }
}

/// The level of a block and the context of its sign.
fn level_at(levels: &[i32], cols: u32, rows: u32, r: u32, c: u32) -> (x: (i32, usize))
    requires
        r < rows,
        c < cols,
        levels@.len() == cols * rows,
    ensures
        x.0 == levels@[r * cols + c],
        x.1 == sign_ctx(levels@, cols as int, r as int, c as int),
{
    proof {
        lemma_grid(r as int, c as int, rows as int, cols as int);
        assert(levels@.len() == levels.len());
    }
    let at: usize = r as usize * cols as usize + c as usize;
    let above: Option<bool> = if r > 0 {
        Some(levels[at - cols as usize] < 0)
    } else {
        None
    };
    let left: Option<bool> = if c > 0 {
        Some(levels[at - 1] < 0)
    } else {
        None
    };
    (levels[at], dc_sign_ctx(dc_vote(above) + dc_vote(left)))
}

/// Writes a key frame of one tile in which every superblock is a 64x64
/// DC-predicted block that carries the same luma DC level.
pub fn dc_key_frame_tile(
    mi_cols: u32,
    mi_rows: u32,
    base_q_idx: u8,
    dc_level: i32,
) -> (r: Result<Trace, TileError>)
    requires
        (mi_cols as int / 16) * (mi_rows as int / 16) <= usize::MAX,
    ensures
        ({
            let blocks = (mi_cols as int / 16) * (mi_rows as int / 16);
            let levels = Seq::new(blocks as nat, |i: int| dc_level);
            is_dc_trace(
                r,
                dc_fault(mi_cols, mi_rows, blocks, levels),
                base_q_idx,
                dc_rows(levels, mi_cols as int / 16, mi_rows as int / 16),
            )
        }),
{
    if let Err(e) = check_superblocks(mi_cols, mi_rows) {
        return Err(e);
    }
    let ghost blocks = (mi_cols as int / 16) * (mi_rows as int / 16);
    let across: u32 = mi_cols / 16;
    let down: u32 = mi_rows / 16;
    proof {
        assert(0 <= blocks);
        assert(across * down == blocks);
    }
    let count: usize = across as usize * down as usize;
    let mut levels: Vec<i32> = Vec::new();
    while levels.len() < count
        invariant
            levels@.len() <= count,
            forall|i: int| 0 <= i < levels@.len() ==> levels@[i] == dc_level,
        decreases count - levels@.len(),
    {
        levels.push(dc_level);
    }
    proof {
        assert(levels@ =~= Seq::new(blocks as nat, |i: int| dc_level));
    }
    dc_key_frame_tile_levels(mi_cols, mi_rows, base_q_idx, &levels)
}

/// Writes a key frame of one tile that carries one luma DC level per
/// superblock, in raster order.
pub fn dc_key_frame_tile_levels(
    mi_cols: u32,
    mi_rows: u32,
    base_q_idx: u8,
    levels: &[i32],
) -> (r: Result<Trace, TileError>)
    ensures
        is_dc_trace(
            r,
            dc_fault(
                mi_cols,
                mi_rows,
                (mi_cols as int / 16) * (mi_rows as int / 16),
                levels@,
            ),
            base_q_idx,
            dc_rows(levels@, mi_cols as int / 16, mi_rows as int / 16),
        ),
{
    if let Err(e) = check_superblocks(mi_cols, mi_rows) {
        return Err(e);
    }
    let cols: u32 = mi_cols / 16;
    let rows: u32 = mi_rows / 16;
    proof {
        assert(0 <= cols * rows <= 0x1000_0000 * 0x1000_0000) by (nonlinear_arith)
            requires
                cols <= 0x1000_0000,
                rows <= 0x1000_0000,
        ;
    }
    if let Err(e) = check_levels(levels, cols as u64 * rows as u64) {
        return Err(e);
    }
    let mut out: Vec<Op> = Vec::new();
    let mut r: u32 = 0;
    while r < rows
        invariant
            r <= rows,
            levels@.len() == cols * rows,
            forall|i: int| 0 <= i < levels@.len() ==> is_small(#[trigger] levels@[i]),
            out@ == dc_rows(levels@, cols as int, r as int),
        decreases rows - r,
    {
        let ghost before = out@;
        let mut c: u32 = 0;
        proof {
            assert(out@ =~= before + dc_row(levels@, cols as int, r as int, 0));
        }
        while c < cols
            invariant
                c <= cols,
                r < rows,
                levels@.len() == cols * rows,
                forall|i: int| 0 <= i < levels@.len() ==> is_small(#[trigger] levels@[i]),
                out@ == before + dc_row(levels@, cols as int, r as int, c as int),
            decreases cols - c,
        {
            let ghost said = out@;
            proof {
                lemma_grid(r as int, c as int, rows as int, cols as int);
            }
            let (level, ctx): (i32, usize) = level_at(levels, cols, rows, r, c);
            write_dc_block(
                &mut out,
                Cdf::PartitionW64(0),
                Cdf::UvModeNoCfl(0),
                TxbSet::Luma64,
                TxbSet::Chroma32,
                level,
                ctx,
            );
            proof {
                assert(out@ =~= said + dc_whole(levels@, cols as int, r as int, c as int));
                assert(out@ =~= before + dc_row(levels@, cols as int, r as int, c + 1));
            }
            c += 1;
        }
        r += 1;
    }
    Ok(Trace { q_ctx: q_ctx_of(base_q_idx), ops: out })
}

/// Writes one 32x32 block of a DC frame.
fn write_dc_quarter(out: &mut Vec<Op>, levels: &[i32], cols: u32, rows: u32, r: u32, c: u32)
    requires
        r < rows,
        c < cols,
        levels@.len() == cols * rows,
        forall|i: int| 0 <= i < levels@.len() ==> is_small(#[trigger] levels@[i]),
    ensures
        final(out)@ == old(out)@ + dc_quarter(levels@, cols as int, r as int, c as int),
{
    proof {
        lemma_grid(r as int, c as int, rows as int, cols as int);
    }
    let (level, ctx): (i32, usize) = level_at(levels, cols, rows, r, c);
    write_dc_block(
        out,
        Cdf::PartitionW32(0),
        Cdf::UvModeCfl(0),
        TxbSet::Luma32,
        TxbSet::Chroma16,
        level,
        ctx,
    );
}

/// Writes one superblock of a DC frame as four 32x32 blocks.
fn write_dc_split(out: &mut Vec<Op>, levels: &[i32], cols: u32, rows: u32, r: u32, c: u32)
    requires
        2 * r + 1 < rows,
        2 * c + 1 < cols,
        levels@.len() == cols * rows,
        forall|i: int| 0 <= i < levels@.len() ==> is_small(#[trigger] levels@[i]),
    ensures
        final(out)@ == old(out)@ + dc_split(levels@, cols as int, r as int, c as int),
{
    let ghost all = old(out)@;
    put_fixed(out, PARTITION_SPLIT, Cdf::PartitionW64(2 * bit(c > 0) + bit(r > 0)));
    write_dc_quarter(out, levels, cols, rows, 2 * r, 2 * c);
    write_dc_quarter(out, levels, cols, rows, 2 * r, 2 * c + 1);
    write_dc_quarter(out, levels, cols, rows, 2 * r + 1, 2 * c);
    write_dc_quarter(out, levels, cols, rows, 2 * r + 1, 2 * c + 1);
    proof {
        assert(out@ =~= all + dc_split(levels@, cols as int, r as int, c as int));
    }
}

/// Writes a key frame of one tile in which every superblock is split into four
/// 32x32 DC-predicted blocks, each of which carries one luma DC level. The
/// levels come in raster order over the 32x32 blocks.
pub fn split_dc_key_frame_tile(
    mi_cols: u32,
    mi_rows: u32,
    base_q_idx: u8,
    levels: &[i32],
) -> (r: Result<Trace, TileError>)
    ensures
        is_dc_trace(
            r,
            dc_fault(
                mi_cols,
                mi_rows,
                (mi_cols as int / 16 * 2) * (mi_rows as int / 16 * 2),
                levels@,
            ),
            base_q_idx,
            dc_split_rows(levels@, mi_cols as int / 16 * 2, mi_rows as int / 16),
        ),
{
    if let Err(e) = check_superblocks(mi_cols, mi_rows) {
        return Err(e);
    }
    let sb_cols: u32 = mi_cols / 16;
    let sb_rows: u32 = mi_rows / 16;
    let cols: u32 = sb_cols * 2;
    let rows: u32 = sb_rows * 2;
    proof {
        assert(0 <= cols * rows <= 0x2000_0000 * 0x2000_0000) by (nonlinear_arith)
            requires
                cols <= 0x2000_0000,
                rows <= 0x2000_0000,
        ;
    }
    if let Err(e) = check_levels(levels, cols as u64 * rows as u64) {
        return Err(e);
    }
    let mut out: Vec<Op> = Vec::new();
    let mut r: u32 = 0;
    while r < sb_rows
        invariant
            r <= sb_rows <= 0x1000_0000,
            rows == sb_rows * 2,
            cols == sb_cols * 2,
            levels@.len() == cols * rows,
            forall|i: int| 0 <= i < levels@.len() ==> is_small(#[trigger] levels@[i]),
            out@ == dc_split_rows(levels@, cols as int, r as int),
        decreases sb_rows - r,
    {
        let ghost before = out@;
        let mut c: u32 = 0;
        proof {
            assert(out@ =~= before + dc_split_row(levels@, cols as int, r as int, 0));
        }
        while c < sb_cols
            invariant
                c <= sb_cols,
                r < sb_rows,
                rows == sb_rows * 2,
                cols == sb_cols * 2,
                levels@.len() == cols * rows,
                forall|i: int| 0 <= i < levels@.len() ==> is_small(#[trigger] levels@[i]),
                out@ == before + dc_split_row(levels@, cols as int, r as int, c as int),
            decreases sb_cols - c,
        {
            let ghost said = out@;
            write_dc_split(&mut out, levels, cols, rows, r, c);
            proof {
                assert(out@ =~= before + dc_split_row(levels@, cols as int, r as int, c + 1));
            }
            c += 1;
        }
        r += 1;
    }
    Ok(Trace { q_ctx: q_ctx_of(base_q_idx), ops: out })
}

} // verus!
