//! How an inter block finds its vectors.
use crate::tile::blocks;
use crate::tile::blocks::{InterInfo, InterMode};
use crate::tile::context;
use crate::tile::error::TileError;
use crate::tile::neighbours;
use crate::tile::neighbours::Neighbours;
use crate::tile::ops;
use crate::tile::ops::{bit, note, put, Cdf, Note, Op};
use crate::tile::plans::FramePlan;
use crate::tile::refs;
use crate::tile::refs::write_compound_ref_frames;
use crate::tile::vectors;
use crate::tile::vectors::{write_mv, Said};
use vstd::prelude::*;

verus! {

/// The context of a mode of two references, by how many of the neighbours'
/// candidates are near and new.
pub const COMPOUND_MODE_CTX_MAP: [[usize; 5]; 3] = [
    [0, 1, 1, 1, 1],
    [1, 2, 3, 4, 4],
    [4, 4, 5, 6, 7],
];

/// The candidate vectors of a block of one reference, and the contexts they
/// give its mode.
#[derive(Debug)]
pub struct MvStack {
    /// The candidates, the best first.
    pub entries: Vec<(i32, i32)>,
    /// The vector of the nearest candidate.
    pub nearest_mv: (i32, i32),
    /// The vector of the one after it.
    pub near_mv: (i32, i32),
    /// What a difference is coded against without a candidate.
    pub pred_mv: (i32, i32),
    /// The context of a coded difference.
    pub new_mv_ctx: usize,
    /// The context of the global vector.
    pub zero_mv_ctx: usize,
    /// The context of a candidate past the nearest.
    pub ref_mv_ctx: usize,
    /// The context between each of the first candidates and the next.
    pub drl_ctx: [usize; 3],
}

/// One vector for each of two references.
pub type MvPair = ((i32, i32), (i32, i32));

/// The candidate vectors of a block of two references.
#[derive(Debug)]
pub struct CompoundStack {
    /// The candidates, the best first.
    pub entries: Vec<MvPair>,
    /// The vectors of the nearest candidate.
    pub nearest_mv: MvPair,
    /// The vectors of the one after it.
    pub near_mv: MvPair,
    /// How many of the neighbours' candidates are new.
    pub new_mv_ctx: usize,
    /// How many are near.
    pub ref_mv_ctx: usize,
    /// The context between each of the first candidates and the next.
    pub drl_ctx: [usize; 3],
}

/// What the coded part of a frame offers an inter block.
#[derive(Debug)]
pub struct MotionContext {
    /// Its candidates into one reference.
    pub single: MvStack,
    /// Its candidates into two.
    pub compound: CompoundStack,
    /// Whether a neighbour's prediction may be overlapped with its own.
    pub overlappable: bool,
    /// How many neighbours a warp can be fitted to.
    pub warp_samples: usize,
}

/// Whether both vectors of a pair are.
pub open spec fn is_pair(p: MvPair) -> bool {
    vectors::is_mv(p.0) && vectors::is_mv(p.1)
}

/// Whether the candidates of a block are vectors.
pub open spec fn is_stack(s: MvStack) -> bool {
    &&& vectors::is_mv(s.nearest_mv)
    &&& vectors::is_mv(s.near_mv)
    &&& vectors::is_mv(s.pred_mv)
    &&& forall|i: int| 0 <= i < s.entries@.len() ==> vectors::is_mv(#[trigger] s.entries@[i])
}

/// Whether the candidates of a block of two references are vectors, and their
/// contexts are.
pub open spec fn is_compound(s: CompoundStack) -> bool {
    &&& is_pair(s.nearest_mv)
    &&& is_pair(s.near_mv)
    &&& s.ref_mv_ctx < 6
    &&& forall|i: int| 0 <= i < s.entries@.len() ==> is_pair(#[trigger] s.entries@[i])
}

/// Whether what a block is offered is in order.
pub open spec fn is_motion(m: MotionContext) -> bool {
    is_stack(m.single) && is_compound(m.compound)
}

/// Whether the vectors a block asks for are.
pub open spec fn is_info(i: InterInfo) -> bool {
    vectors::is_mv(i.mv) && vectors::is_mv(i.mv1)
}

/// The candidate index that is signalled for one that is asked for: it starts
/// at `start`, goes at most two further, and not past the last candidate.
pub open spec fn drl_end(len: int, start: int, target: int) -> int {
    let far = context::min(context::min(target, start + 2), len - 1);
    if far < start {
        start
    } else {
        far
    }
}

/// The bits of a candidate index: one to go on, zero to stop where it could
/// go on.
#[verifier::opaque]
pub open spec fn drl_ops(ctx: Seq<usize>, len: int, start: int, target: int) -> Seq<Op> {
    let end = drl_end(len, start, target);
    let on = Seq::new(
        (end - start) as nat,
        |k: int| ops::symbol(1, Cdf::DrlMode(ctx[start + k])),
    );
    if end < start + 2 && len > end + 1 {
        on.push(ops::symbol(0, Cdf::DrlMode(ctx[end])))
    } else {
        on
    }
}

/// The candidate at an index, or what stands for one that is missing.
pub open spec fn candidate(entries: Seq<(i32, i32)>, i: int, missing: (i32, i32)) -> (i32, i32) {
    if 0 <= i < entries.len() {
        entries[i]
    } else {
        missing
    }
}

/// The same of a pair.
pub open spec fn candidate_pair(entries: Seq<MvPair>, i: int, missing: MvPair) -> MvPair {
    if 0 <= i < entries.len() {
        entries[i]
    } else {
        missing
    }
}

/// A mark where an index was cut short at another vector.
pub open spec fn clamp_ops(cut: bool) -> Seq<Op> {
    if cut {
        seq![Op::Note(Note::DrlClamp)]
    } else {
        Seq::empty()
    }
}

/// What a block of one reference resolves to.
pub struct Resolved {
    /// What is written.
    pub said: Said,
    /// The vector a decoder derives.
    pub mv: (i32, i32),
    /// Whether a difference was coded.
    pub is_new: bool,
}

/// The flags of a mode of one reference.
pub open spec fn not_new(s: MvStack) -> Op {
    ops::symbol(1, Cdf::NewMv(s.new_mv_ctx))
}

/// The mode of a block of one reference: its flags, its candidate index and
/// its difference, as far as the mode has them.
pub open spec fn inter_mode(info: InterInfo, s: MvStack) -> Resolved {
    let idx = info.ref_mv_idx as int;
    let len = s.entries@.len() as int;
    let not_zero = ops::symbol(1, Cdf::ZeroMv(s.zero_mv_ctx));
    match info.mode {
        InterMode::NewMv => {
            let end = drl_end(len, 0, idx);
            let base = candidate(s.entries@, end, s.pred_mv);
            let head = seq![ops::symbol(0, Cdf::NewMv(s.new_mv_ctx))] + drl_ops(
                s.drl_ctx@,
                len,
                0,
                idx,
            ) + clamp_ops(end != idx && base != candidate(s.entries@, idx, s.pred_mv));
            let said = vectors::both(
                Said { ops: head, fault: None },
                vectors::mv_said(info.mv, base),
            );
            Resolved {
                said: if said.fault is None {
                    Said {
                        ops: said.ops.push(Op::Note(Note::InterMode(3, end as usize))),
                        fault: None,
                    }
                } else {
                    said
                },
                mv: info.mv,
                is_new: true,
            }
        },
        InterMode::GlobalMv => Resolved {
            said: Said {
                ops: seq![
                    not_new(s),
                    ops::symbol(0, Cdf::ZeroMv(s.zero_mv_ctx)),
                    Op::Note(Note::InterMode(2, 0)),
                ],
                fault: None,
            },
            mv: (0, 0),
            is_new: false,
        },
        InterMode::NearestMv => Resolved {
            said: Said {
                ops: seq![
                    not_new(s),
                    not_zero,
                    ops::symbol(0, Cdf::RefMv(s.ref_mv_ctx)),
                    Op::Note(Note::InterMode(0, 0)),
                ],
                fault: None,
            },
            mv: s.nearest_mv,
            is_new: false,
        },
        InterMode::NearMv => {
            let want = if idx < 1 {
                1
            } else {
                idx
            };
            let end = drl_end(len, 1, want);
            let mv = candidate(s.entries@, end, s.near_mv);
            Resolved {
                said: Said {
                    ops: (seq![
                        not_new(s),
                        not_zero,
                        ops::symbol(1, Cdf::RefMv(s.ref_mv_ctx)),
                    ] + drl_ops(s.drl_ctx@, len, 1, want) + clamp_ops(
                        end != want && mv != candidate(s.entries@, want, s.near_mv),
                    )).push(Op::Note(Note::InterMode(1, end as usize))),
                    fault: None,
                },
                mv,
                is_new: false,
            }
        },
        _ => Resolved {
            said: Said { ops: Seq::empty(), fault: Some(TileError::CompoundMode) },
            mv: (0, 0),
            is_new: false,
        },
    }
}

/// What a block of two references resolves to.
pub struct ResolvedPair {
    /// What is written.
    pub said: Said,
    /// The vectors a decoder derives.
    pub mvs: MvPair,
}

/// The vectors of a mode of two references, after its symbol.
pub open spec fn pair_of(info: InterInfo, s: CompoundStack) -> ResolvedPair {
    let idx = info.ref_mv_idx as int;
    let len = s.entries@.len() as int;
    match info.mode {
        InterMode::NearestNearestMv => ResolvedPair {
            said: vectors::silent(),
            mvs: s.nearest_mv,
        },
        InterMode::GlobalGlobalMv => ResolvedPair {
            said: vectors::silent(),
            mvs: ((0, 0), (0, 0)),
        },
        InterMode::NearNearMv => {
            let end = drl_end(len, 1, idx + 1);
            let mvs = candidate_pair(s.entries@, end, s.near_mv);
            ResolvedPair {
                said: Said {
                    ops: drl_ops(s.drl_ctx@, len, 1, idx + 1) + clamp_ops(
                        end != idx + 1 && mvs != candidate_pair(s.entries@, idx + 1, s.near_mv),
                    ),
                    fault: None,
                },
                mvs,
            }
        },
        InterMode::NearestNewMv => {
            let base = candidate_pair(s.entries@, 0, s.nearest_mv);
            ResolvedPair {
                said: vectors::mv_said(info.mv1, base.1),
                mvs: (s.nearest_mv.0, info.mv1),
            }
        },
        InterMode::NewNearestMv => {
            let base = candidate_pair(s.entries@, 0, s.nearest_mv);
            ResolvedPair {
                said: vectors::mv_said(info.mv, base.0),
                mvs: (info.mv, s.nearest_mv.1),
            }
        },
        _ => {
            let end = drl_end(len, 0, idx);
            let base = candidate_pair(s.entries@, end, s.nearest_mv);
            let head = drl_ops(s.drl_ctx@, len, 0, idx) + clamp_ops(
                end != idx && base != candidate_pair(s.entries@, idx, s.nearest_mv),
            );
            ResolvedPair {
                said: vectors::both(
                    vectors::both(
                        Said { ops: head, fault: None },
                        vectors::mv_said(info.mv, base.0),
                    ),
                    vectors::mv_said(info.mv1, base.1),
                ),
                mvs: (info.mv, info.mv1),
            }
        },
    }
}

/// Whether a mode of two references codes a difference.
pub open spec fn is_new_pair(mode: InterMode) -> bool {
    mode == InterMode::NewNewMv || mode == InterMode::NearestNewMv || mode
        == InterMode::NewNearestMv
}

/// The size bucket of a block of `n4` units.
pub open spec fn size_bucket(n4: int) -> int {
    if n4 == 2 {
        1
    } else if n4 == 4 {
        2
    } else {
        3
    }
}

/// The context of a mode of two references.
pub open spec fn compound_ctx(s: CompoundStack) -> usize {
    COMPOUND_MODE_CTX_MAP[s.ref_mv_ctx as int / 2][context::min(s.new_mv_ctx as int, 4)]
}

/// The whole mode of a block of two references: their names, the mode, the
/// candidate index and the differences.
pub open spec fn compound_block(
    b: neighbours::Bands,
    mi_r: int,
    mi_c: int,
    n4: int,
    info: InterInfo,
    s: CompoundStack,
) -> ResolvedPair {
    match (info.ref1, blocks::spec_compound_index(info.mode)) {
        (Some(ref1), Some(mode)) => {
            let names = Said {
                ops: refs::pair_ops(b, mi_r, mi_c, info.ref_frame, ref1),
                fault: refs::pair_fault(info.ref_frame, ref1),
            };
            let chosen = Said {
                ops: seq![
                    ops::symbol(mode as int, Cdf::InterCompoundMode(compound_ctx(s))),
                ],
                fault: None,
            };
            let pair = pair_of(info, s);
            let mark = Said {
                ops: seq![
                    Op::Note(
                        Note::Compound(
                            mode,
                            refs::ref_slot(ref1) as usize,
                            size_bucket(n4) as usize,
                            n4 <= 4,
                        ),
                    ),
                ],
                fault: None,
            };
            ResolvedPair {
                said: vectors::both(vectors::both(vectors::both(names, chosen), pair.said), mark),
                mvs: pair.mvs,
            }
        },
        _ => ResolvedPair {
            said: Said { ops: Seq::empty(), fault: Some(TileError::CompoundNeeds) },
            mvs: ((0, 0), (0, 0)),
        },
    }
}

/// The size bucket of a motion mode.
pub open spec fn motion_bucket(side: int) -> int {
    if side >= 32 {
        0
    } else if side == 16 {
        1
    } else {
        2
    }
}

/// The symbol of a block's motion mode, where the frame leaves the choice and
/// a neighbour allows one. Warping is only on offer with a sample to fit it
/// to.
pub open spec fn motion_mode_ops(
    plan: FramePlan,
    m: MotionContext,
    side: int,
    motion: u8,
) -> Seq<Op> {
    if plan.motion_mode && side >= 8 && m.overlappable {
        let symbol = if plan.warped_motion && m.warp_samples >= 1 {
            ops::symbol(motion as int, Cdf::MotionMode(side as usize))
        } else {
            ops::symbol(ops::flag(motion == 1), Cdf::Obmc(side as usize))
        };
        seq![
            symbol,
            Op::Note(
                Note::MotionMode(
                    (context::min(motion as int, 2) + 3 * motion_bucket(side)) as usize,
                ),
            ),
        ]
    } else {
        Seq::empty()
    }
}

/// The bits of a candidate index as a decoder reads them, from candidate
/// `at`: it goes on while it may and the next bit says so.
pub open spec fn read_drl(bits: Seq<Op>, len: int, start: int, at: int) -> int
    decreases start + 2 - at,
{
    if at < start || at >= start + 2 || len <= at + 1 {
        at
    } else if bits[at - start] matches Op::Symbol { value, .. } && value == 1 {
        read_drl(bits, len, start, at + 1)
    } else {
        at
    }
}

proof fn lemma_read_drl(ctx: Seq<usize>, len: int, start: int, target: int, at: int)
    requires
        0 <= start,
        start <= at <= drl_end(len, start, target),
    ensures
        read_drl(drl_ops(ctx, len, start, target), len, start, at) == drl_end(
            len,
            start,
            target,
        ),
    decreases drl_end(len, start, target) - at,
{
    reveal(drl_ops);
    let end = drl_end(len, start, target);
    let all = drl_ops(ctx, len, start, target);
    if at < end {
        assert(all[at - start] == ops::symbol(1, Cdf::DrlMode(ctx[at])));
        lemma_read_drl(ctx, len, start, target, at + 1);
    } else if end < start + 2 && len > end + 1 {
        assert(all[end - start] == ops::symbol(0, Cdf::DrlMode(ctx[end])));
    }
}

/// A decoder reads the candidate index that was signalled, and it is the one
/// asked for wherever the candidates reach that far.
pub proof fn candidate_indices_read_back(ctx: Seq<usize>, len: int, start: int, target: int)
    requires
        0 <= start,
    ensures
        read_drl(drl_ops(ctx, len, start, target), len, start, start) == drl_end(
            len,
            start,
            target,
        ),
        start <= target <= start + 2 && target < len ==> drl_end(len, start, target) == target,
{
    lemma_read_drl(ctx, len, start, target, start);
}

/// Writes a candidate index and hands back the one that was signalled, which
/// is the one a decoder takes.
pub fn write_drl_idx(
    out: &mut Vec<Op>,
    drl_ctx: &[usize; 3],
    len: usize,
    start: usize,
    target: usize,
) -> (signalled: usize)
    requires
        start <= 1,
    ensures
        final(out)@ == old(out)@ + drl_ops(drl_ctx@, len as int, start as int, target as int),
        signalled == drl_end(len as int, start as int, target as int),
{
    let ghost end = drl_end(len as int, start as int, target as int);
    let ghost on = Seq::new(
        (end - start) as nat,
        |k: int| ops::symbol(1, Cdf::DrlMode(drl_ctx@[start + k])),
    );
    let mut idx: usize = start;
    proof {
        reveal(drl_ops);
        assert(out@ =~= old(out)@ + on.take(0));
    }
    while idx < start + 2 && idx < len && idx + 1 < len && idx < target
        invariant
            start <= 1,
            start <= idx <= end,
            end == drl_end(len as int, start as int, target as int),
            on == Seq::new(
                (end - start) as nat,
                |k: int| ops::symbol(1, Cdf::DrlMode(drl_ctx@[start + k])),
            ),
            out@ == old(out)@ + on.take(idx - start),
        decreases end - idx,
    {
        put(out, 1, Cdf::DrlMode(drl_ctx[idx]));
        idx += 1;
        proof {
            assert(on.take(idx - start) =~= on.take(idx - start - 1).push(on[idx - start - 1]));
        }
    }
    proof {
        assert(idx == end);
        assert(on.take(end - start) =~= on);
    }
    if idx < start + 2 && idx < len && idx + 1 < len {
        put(out, 0, Cdf::DrlMode(drl_ctx[idx]));
    }
    proof {
        assert(out@ =~= old(out)@ + drl_ops(
            drl_ctx@,
            len as int,
            start as int,
            target as int,
        ));
    }
    idx
}

fn candidate_at(entries: &Vec<(i32, i32)>, i: usize, missing: (i32, i32)) -> (mv: (i32, i32))
    ensures
        mv == candidate(entries@, i as int, missing),
{
    if i < entries.len() {
        entries[i]
    } else {
        missing
    }
}

fn pair_at(entries: &Vec<MvPair>, i: usize, missing: MvPair) -> (mv: MvPair)
    ensures
        mv == candidate_pair(entries@, i as int, missing),
{
    if i < entries.len() {
        entries[i]
    } else {
        missing
    }
}

fn same_mv(a: (i32, i32), b: (i32, i32)) -> (same: bool)
    ensures
        same == (a == b),
{
    a.0 == b.0 && a.1 == b.1
}

fn same_pair(a: MvPair, b: MvPair) -> (same: bool)
    ensures
        same == (a == b),
{
    let (a0, a1): MvPair = a;
    let (b0, b1): MvPair = b;
    same_mv(a0, b0) && same_mv(a1, b1)
}

fn note_drl_clamp(out: &mut Vec<Op>, cut: bool)
    ensures
        final(out)@ == old(out)@ + clamp_ops(cut),
{
    if cut {
        note(out, Note::DrlClamp);
    }
    proof {
        assert(out@ =~= old(out)@ + clamp_ops(cut));
    }
}

/// Writes the mode of a block of one reference, its candidate index and its
/// difference, and hands back the vector a decoder derives and whether a
/// difference was coded.
pub fn write_inter_mode(out: &mut Vec<Op>, info: &InterInfo, stack: &MvStack) -> (r: Result<
    ((i32, i32), bool),
    TileError,
>)
    requires
        is_info(*info),
        is_stack(*stack),
    ensures
        final(out)@ == old(out)@ + inter_mode(*info, *stack).said.ops,
        match inter_mode(*info, *stack).said.fault {
            None => r == Ok::<((i32, i32), bool), TileError>(
                (inter_mode(*info, *stack).mv, inter_mode(*info, *stack).is_new),
            ),
            Some(e) => r == Err::<((i32, i32), bool), TileError>(e),
        },
{
    let ghost all = inter_mode(*info, *stack).said.ops;
    let idx: usize = info.ref_mv_idx as usize;
    let len: usize = stack.entries.len();
    match info.mode {
        InterMode::NewMv => {
            put(out, 0, Cdf::NewMv(stack.new_mv_ctx));
            let end: usize = write_drl_idx(out, &stack.drl_ctx, len, 0, idx);
            let base: (i32, i32) = candidate_at(&stack.entries, end, stack.pred_mv);
            let asked: (i32, i32) = candidate_at(&stack.entries, idx, stack.pred_mv);
            note_drl_clamp(out, end != idx && !same_mv(base, asked));
            let done = write_mv(out, info.mv, base);
            match done {
                Ok(_) => {
                    note(out, Note::InterMode(3, end));
                    proof {
                        assert(out@ =~= old(out)@ + all);
                    }
                    Ok((info.mv, true))
                },
                Err(e) => {
                    proof {
                        assert(out@ =~= old(out)@ + all);
                    }
                    Err(e)
                },
            }
        },
        InterMode::GlobalMv => {
            put(out, 1, Cdf::NewMv(stack.new_mv_ctx));
            put(out, 0, Cdf::ZeroMv(stack.zero_mv_ctx));
            note(out, Note::InterMode(2, 0));
            proof {
                assert(out@ =~= old(out)@ + all);
            }
            Ok(((0, 0), false))
        },
        InterMode::NearestMv => {
            put(out, 1, Cdf::NewMv(stack.new_mv_ctx));
            put(out, 1, Cdf::ZeroMv(stack.zero_mv_ctx));
            put(out, 0, Cdf::RefMv(stack.ref_mv_ctx));
            note(out, Note::InterMode(0, 0));
            proof {
                assert(out@ =~= old(out)@ + all);
            }
            Ok((stack.nearest_mv, false))
        },
        InterMode::NearMv => {
            put(out, 1, Cdf::NewMv(stack.new_mv_ctx));
            put(out, 1, Cdf::ZeroMv(stack.zero_mv_ctx));
            put(out, 1, Cdf::RefMv(stack.ref_mv_ctx));
            let want: usize = if idx < 1 {
                1
            } else {
                idx
            };
            let end: usize = write_drl_idx(out, &stack.drl_ctx, len, 1, want);
            let mv: (i32, i32) = candidate_at(&stack.entries, end, stack.near_mv);
            let asked: (i32, i32) = candidate_at(&stack.entries, want, stack.near_mv);
            note_drl_clamp(out, end != want && !same_mv(mv, asked));
            note(out, Note::InterMode(1, end));
            proof {
                assert(out@ =~= old(out)@ + all);
            }
            Ok((mv, false))
        },
        _ => {
            proof {
                assert(out@ =~= old(out)@ + all);
            }
            Err(TileError::CompoundMode)
        },
    }
}

fn write_pair(out: &mut Vec<Op>, info: &InterInfo, stack: &CompoundStack) -> (r: Result<
    MvPair,
    TileError,
>)
    requires
        is_info(*info),
        is_compound(*stack),
    ensures
        final(out)@ == old(out)@ + pair_of(*info, *stack).said.ops,
        match pair_of(*info, *stack).said.fault {
            None => r == Ok::<MvPair, TileError>(pair_of(*info, *stack).mvs),
            Some(e) => r == Err::<MvPair, TileError>(e),
        },
{
    let ghost all = pair_of(*info, *stack).said.ops;
    let idx: usize = info.ref_mv_idx as usize;
    let len: usize = stack.entries.len();
    match info.mode {
        InterMode::NearestNearestMv => {
            proof {
                assert(out@ =~= old(out)@ + all);
            }
            Ok(stack.nearest_mv)
        },
        InterMode::GlobalGlobalMv => {
            proof {
                assert(out@ =~= old(out)@ + all);
            }
            Ok(((0, 0), (0, 0)))
        },
        InterMode::NearNearMv => {
            let end: usize = write_drl_idx(out, &stack.drl_ctx, len, 1, idx + 1);
            let mvs: MvPair = pair_at(&stack.entries, end, stack.near_mv);
            let asked: MvPair = pair_at(&stack.entries, idx + 1, stack.near_mv);
            note_drl_clamp(out, end != idx + 1 && !same_pair(mvs, asked));
            proof {
                assert(out@ =~= old(out)@ + all);
            }
            Ok(mvs)
        },
        InterMode::NearestNewMv => {
            let (_, base): MvPair = pair_at(&stack.entries, 0, stack.nearest_mv);
            let (near, _): MvPair = stack.nearest_mv;
            match write_mv(out, info.mv1, base) {
                Ok(_) => Ok((near, info.mv1)),
                Err(e) => Err(e),
            }
        },
        InterMode::NewNearestMv => {
            let (base, _): MvPair = pair_at(&stack.entries, 0, stack.nearest_mv);
            let (_, near): MvPair = stack.nearest_mv;
            match write_mv(out, info.mv, base) {
                Ok(_) => Ok((info.mv, near)),
                Err(e) => Err(e),
            }
        },
        _ => {
            let end: usize = write_drl_idx(out, &stack.drl_ctx, len, 0, idx);
            let base: MvPair = pair_at(&stack.entries, end, stack.nearest_mv);
            let asked: MvPair = pair_at(&stack.entries, idx, stack.nearest_mv);
            note_drl_clamp(out, end != idx && !same_pair(base, asked));
            let (base0, base1): MvPair = base;
            match write_mv(out, info.mv, base0) {
                Ok(_) => {},
                Err(e) => {
                    proof {
                        assert(out@ =~= old(out)@ + all);
                    }
                    return Err(e);
                },
            }
            let done = write_mv(out, info.mv1, base1);
            proof {
                assert(out@ =~= old(out)@ + all);
            }
            match done {
                Ok(_) => Ok((info.mv, info.mv1)),
                Err(e) => Err(e),
            }
        },
    }
}

/// Writes the whole mode of a block of two references, of `n4` units a side,
/// and hands back the vectors a decoder derives and whether a difference was
/// coded.
pub fn write_compound_block(
    out: &mut Vec<Op>,
    neighbours: &Neighbours,
    mi: (usize, usize),
    n4: usize,
    info: &InterInfo,
    stack: &CompoundStack,
) -> (r: Result<(MvPair, bool), TileError>)
    requires
        mi.0 < neighbours@.left.len(),
        mi.1 < neighbours@.above.len(),
        is_info(*info),
        is_compound(*stack),
    ensures
        ({
            let said = compound_block(
                neighbours@,
                mi.0 as int,
                mi.1 as int,
                n4 as int,
                *info,
                *stack,
            );
            &&& final(out)@ == old(out)@ + said.said.ops
            &&& match said.said.fault {
                None => r == Ok::<(MvPair, bool), TileError>((said.mvs, is_new_pair(info.mode))),
                Some(e) => r == Err::<(MvPair, bool), TileError>(e),
            }
        }),
{
    let ghost all = compound_block(
        neighbours@,
        mi.0 as int,
        mi.1 as int,
        n4 as int,
        *info,
        *stack,
    ).said.ops;
    let (ref1, mode): (i8, usize) = match (info.ref1, info.mode.compound_index()) {
        (Some(ref1), Some(mode)) => (ref1, mode),
        _ => {
            proof {
                assert(out@ =~= old(out)@ + all);
            }
            return Err(TileError::CompoundNeeds);
        },
    };
    match write_compound_ref_frames(out, neighbours, mi, info.ref_frame, ref1) {
        Ok(_) => {},
        Err(e) => {
            proof {
                assert(out@ =~= old(out)@ + all);
            }
            return Err(e);
        },
    }
    let new: usize = if stack.new_mv_ctx <= 4 {
        stack.new_mv_ctx
    } else {
        4
    };
    put(out, mode, Cdf::InterCompoundMode(COMPOUND_MODE_CTX_MAP[stack.ref_mv_ctx / 2][new]));
    let mvs: MvPair = match write_pair(out, info, stack) {
        Ok(mvs) => mvs,
        Err(e) => {
            proof {
                assert(out@ =~= old(out)@ + all);
            }
            return Err(e);
        },
    };
    let size: usize = if n4 == 2 {
        1
    } else if n4 == 4 {
        2
    } else {
        3
    };
    let slot: usize = if ref1 <= 1 {
        0
    } else {
        ((ref1 - 1) % 7) as usize
    };
    note(out, Note::Compound(mode, slot, size, n4 <= 4));
    let is_new: bool = match info.mode {
        InterMode::NewNewMv | InterMode::NearestNewMv | InterMode::NewNearestMv => true,
        _ => false,
    };
    proof {
        assert(out@ =~= old(out)@ + all);
    }
    Ok((mvs, is_new))
}

/// Writes a block's motion mode, where the frame leaves the choice and a
/// neighbour allows one.
pub fn write_motion_mode(
    out: &mut Vec<Op>,
    plan: &FramePlan,
    context: &MotionContext,
    side: usize,
    motion: u8,
)
    ensures
        final(out)@ == old(out)@ + motion_mode_ops(*plan, *context, side as int, motion),
{
    if plan.motion_mode && side >= 8 && context.overlappable {
        if plan.warped_motion && context.warp_samples >= 1 {
            put(out, motion as usize, Cdf::MotionMode(side));
        } else {
            put(out, bit(motion == 1), Cdf::Obmc(side));
        }
        let bucket: usize = if side >= 32 {
            0
        } else if side == 16 {
            1
        } else {
            2
        };
        let kind: usize = if motion <= 2 {
            motion as usize
        } else {
            2
        };
        note(out, Note::MotionMode(kind + 3 * bucket));
    }
    proof {
        assert(out@ =~= old(out)@ + motion_mode_ops(*plan, *context, side as int, motion));
    }
}

} // verus!
