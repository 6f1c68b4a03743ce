//! What a decoder derives of a block's motion: the vectors the writer took the
//! block to have.
use crate::tile::blocks;
use crate::tile::blocks::{InterInfo, InterMode};
use crate::tile::context;
use crate::tile::motion;
use crate::tile::motion::{CompoundStack, MvStack};
use crate::tile::ops;
use crate::tile::ops::{Cdf, Op};
use crate::tile::read_back;
use crate::tile::vector_read_back;
use crate::tile::vectors;
use vstd::prelude::*;

verus! {

proof fn lemma_clamp_is_a_mark(cut: bool)
    ensures
        read_back::coded(motion::clamp_ops(cut)) == Seq::<Op>::empty(),
{
    if cut {
        read_back::lemma_mark(Seq::empty(), motion::clamp_ops(cut)[0]);
        assert(motion::clamp_ops(cut) =~= Seq::<Op>::empty().push(motion::clamp_ops(cut)[0]));
    }
}

proof fn lemma_drl_unmarked(ctx: Seq<usize>, len: int, start: int, target: int)
    ensures
        read_back::coded(motion::drl_ops(ctx, len, start, target)) == motion::drl_ops(
            ctx,
            len,
            start,
            target,
        ),
{
    reveal(motion::drl_ops);
    read_back::lemma_unmarked(motion::drl_ops(ctx, len, start, target));
}

proof fn lemma_vector_unmarked(mv: (i32, i32), pred: (i32, i32))
    ensures
        read_back::coded(vectors::mv_said(mv, pred).ops) == vectors::mv_said(mv, pred).ops,
{
    reveal(vectors::mv_said);
    read_back::lemma_unmarked(vectors::mv_said(mv, pred).ops);
}

/// A candidate index goes no further than its bits say.
proof fn lemma_no_further(
    ctx: Seq<usize>,
    len: int,
    start: int,
    s: int,
    t: int,
    x: Seq<Op>,
    y: Seq<Op>,
)
    requires
        0 <= start,
        motion::drl_ops(ctx, len, start, s) + x == motion::drl_ops(ctx, len, start, t) + y,
    ensures
        motion::drl_end(len, start, s) >= motion::drl_end(len, start, t),
{
    reveal(motion::drl_ops);
    let es = motion::drl_end(len, start, s);
    let et = motion::drl_end(len, start, t);
    if es < et {
        let k = es - start;
        let os = motion::drl_ops(ctx, len, start, s);
        let ot = motion::drl_ops(ctx, len, start, t);
        assert(os[k] == ops::symbol(0, Cdf::DrlMode(ctx[es])));
        assert(ot[k] == ops::symbol(1, Cdf::DrlMode(ctx[start + k])));
        assert((os + x)[k] == os[k]);
        assert((ot + y)[k] == ot[k]);
    }
}

/// The bits of a candidate index end themselves.
pub proof fn candidate_indices_end_themselves(
    ctx: Seq<usize>,
    len: int,
    start: int,
    s: int,
    t: int,
    x: Seq<Op>,
    y: Seq<Op>,
)
    requires
        0 <= start,
        motion::drl_ops(ctx, len, start, s) + x == motion::drl_ops(ctx, len, start, t) + y,
    ensures
        motion::drl_end(len, start, s) == motion::drl_end(len, start, t),
        x == y,
{
    lemma_no_further(ctx, len, start, s, t, x, y);
    lemma_no_further(ctx, len, start, t, s, y, x);
    reveal(motion::drl_ops);
    read_back::lemma_parts(
        motion::drl_ops(ctx, len, start, s),
        x,
        motion::drl_ops(ctx, len, start, t),
        y,
    );
}

/// Whether a difference is within the last class of vectors.
pub open spec fn is_near(mv: (i32, i32), pred: (i32, i32)) -> bool {
    context::abs(mv.0 - pred.0) <= 16384 && context::abs(mv.1 - pred.1) <= 16384
}

/// The candidate a difference is coded against in a block of one reference.
pub open spec fn base_of(info: InterInfo, s: MvStack) -> (i32, i32) {
    motion::candidate(
        s.entries@,
        motion::drl_end(s.entries@.len() as int, 0, info.ref_mv_idx as int),
        s.pred_mv,
    )
}

/// What a decoder sees of a mode that codes a new vector.
proof fn lemma_new(info: InterInfo, s: MvStack)
    requires
        info.mode == InterMode::NewMv,
        motion::inter_mode(info, s).said.fault is None,
    ensures
        read_back::coded(motion::inter_mode(info, s).said.ops) == seq![
            ops::symbol(0, Cdf::NewMv(s.new_mv_ctx)),
        ] + (motion::drl_ops(
            s.drl_ctx@,
            s.entries@.len() as int,
            0,
            info.ref_mv_idx as int,
        ) + vectors::mv_said(info.mv, base_of(info, s)).ops),
        vectors::mv_said(info.mv, base_of(info, s)).fault is None,
{
    let len = s.entries@.len() as int;
    let idx = info.ref_mv_idx as int;
    let end = motion::drl_end(len, 0, idx);
    let base = base_of(info, s);
    let flag = seq![ops::symbol(0, Cdf::NewMv(s.new_mv_ctx))];
    let index = motion::drl_ops(s.drl_ctx@, len, 0, idx);
    let clamp = motion::clamp_ops(
        end != idx && base != motion::candidate(s.entries@, idx, s.pred_mv),
    );
    let vector = vectors::mv_said(info.mv, base).ops;
    let mark = Op::Note(ops::Note::InterMode(3, end as usize));
    assert(motion::inter_mode(info, s).said.ops == ((flag + index + clamp) + vector).push(mark));
    read_back::lemma_mark((flag + index + clamp) + vector, mark);
    read_back::marks_are_not_coded(flag + index + clamp, vector);
    read_back::marks_are_not_coded(flag + index, clamp);
    read_back::marks_are_not_coded(flag, index);
    read_back::lemma_unmarked(flag);
    lemma_drl_unmarked(s.drl_ctx@, len, 0, idx);
    lemma_clamp_is_a_mark(
        end != idx && base != motion::candidate(s.entries@, idx, s.pred_mv),
    );
    lemma_vector_unmarked(info.mv, base);
    assert(((flag + index) + Seq::<Op>::empty()) + vector =~= flag + (index + vector));
}

/// What a decoder sees of a mode that takes a candidate past the nearest.
proof fn lemma_near(info: InterInfo, s: MvStack, want: int)
    requires
        info.mode == InterMode::NearMv,
        want == (if info.ref_mv_idx < 1 {
            1int
        } else {
            info.ref_mv_idx as int
        }),
    ensures
        read_back::coded(motion::inter_mode(info, s).said.ops) == seq![
            motion::not_new(s),
            ops::symbol(1, Cdf::ZeroMv(s.zero_mv_ctx)),
            ops::symbol(1, Cdf::RefMv(s.ref_mv_ctx)),
        ] + motion::drl_ops(s.drl_ctx@, s.entries@.len() as int, 1, want),
{
    let len = s.entries@.len() as int;
    let end = motion::drl_end(len, 1, want);
    let mv = motion::candidate(s.entries@, end, s.near_mv);
    let flags = seq![
        motion::not_new(s),
        ops::symbol(1, Cdf::ZeroMv(s.zero_mv_ctx)),
        ops::symbol(1, Cdf::RefMv(s.ref_mv_ctx)),
    ];
    let index = motion::drl_ops(s.drl_ctx@, len, 1, want);
    let cut = end != want && mv != motion::candidate(s.entries@, want, s.near_mv);
    let mark = Op::Note(ops::Note::InterMode(1, end as usize));
    assert(motion::inter_mode(info, s).said.ops == (flags + index + motion::clamp_ops(cut)).push(
        mark,
    ));
    read_back::lemma_mark(flags + index + motion::clamp_ops(cut), mark);
    read_back::marks_are_not_coded(flags + index, motion::clamp_ops(cut));
    read_back::marks_are_not_coded(flags, index);
    read_back::lemma_unmarked(flags);
    lemma_drl_unmarked(s.drl_ctx@, len, 1, want);
    lemma_clamp_is_a_mark(cut);
    assert((flags + index) + Seq::<Op>::empty() =~= flags + index);
}

/// What a decoder sees of a mode that is flags alone.
proof fn lemma_plain(info: InterInfo, s: MvStack)
    requires
        info.mode == InterMode::GlobalMv || info.mode == InterMode::NearestMv,
    ensures
        info.mode == InterMode::GlobalMv ==> read_back::coded(motion::inter_mode(info, s).said.ops) == seq![
            motion::not_new(s),
            ops::symbol(0, Cdf::ZeroMv(s.zero_mv_ctx)),
        ],
        info.mode == InterMode::NearestMv ==> read_back::coded(motion::inter_mode(info, s).said.ops) == seq![
            motion::not_new(s),
            ops::symbol(1, Cdf::ZeroMv(s.zero_mv_ctx)),
            ops::symbol(0, Cdf::RefMv(s.ref_mv_ctx)),
        ],
{
    let flags = if info.mode == InterMode::GlobalMv {
        seq![motion::not_new(s), ops::symbol(0, Cdf::ZeroMv(s.zero_mv_ctx))]
    } else {
        seq![
            motion::not_new(s),
            ops::symbol(1, Cdf::ZeroMv(s.zero_mv_ctx)),
            ops::symbol(0, Cdf::RefMv(s.ref_mv_ctx)),
        ]
    };
    let all = motion::inter_mode(info, s).said.ops;
    let mark = all.last();
    assert(all =~= flags.push(mark));
    read_back::lemma_mark(flags, mark);
    read_back::lemma_unmarked(flags);
}

/// A block of one reference reads back: from the same candidates, and whatever
/// follows, a decoder derives the vector the writer took, and whether it is
/// new.
pub proof fn single_modes_read_back(
    a: InterInfo,
    b: InterInfo,
    s: MvStack,
    x: Seq<Op>,
    y: Seq<Op>,
)
    requires
        motion::inter_mode(a, s).said.fault is None,
        motion::inter_mode(b, s).said.fault is None,
        a.mode == InterMode::NewMv ==> is_near(a.mv, base_of(a, s)),
        b.mode == InterMode::NewMv ==> is_near(b.mv, base_of(b, s)),
        read_back::coded(motion::inter_mode(a, s).said.ops) + x == read_back::coded(motion::inter_mode(b, s).said.ops)
            + y,
    ensures
        motion::inter_mode(a, s).mv == motion::inter_mode(b, s).mv,
        motion::inter_mode(a, s).is_new == motion::inter_mode(b, s).is_new,
        a.mode == b.mode,
        x == y,
{
    lemma_flags(a, s, x);
    lemma_flags(b, s, y);
    let oa = read_back::coded(motion::inter_mode(a, s).said.ops);
    let ob = read_back::coded(motion::inter_mode(b, s).said.ops);
    assert(a.mode == b.mode);
    let len = s.entries@.len() as int;
    match a.mode {
        InterMode::NewMv => {
            lemma_new(a, s);
            lemma_new(b, s);
            let flag = seq![ops::symbol(0, Cdf::NewMv(s.new_mv_ctx))];
            let ia = motion::drl_ops(s.drl_ctx@, len, 0, a.ref_mv_idx as int);
            let ib = motion::drl_ops(s.drl_ctx@, len, 0, b.ref_mv_idx as int);
            let va = vectors::mv_said(a.mv, base_of(a, s)).ops;
            let vb = vectors::mv_said(b.mv, base_of(b, s)).ops;
            assert(oa + x =~= flag + (ia + (va + x)));
            assert(ob + y =~= flag + (ib + (vb + y)));
            read_back::lemma_parts(flag, ia + (va + x), flag, ib + (vb + y));
            candidate_indices_end_themselves(
                s.drl_ctx@,
                len,
                0,
                a.ref_mv_idx as int,
                b.ref_mv_idx as int,
                va + x,
                vb + y,
            );
            vector_read_back::vectors_read_back(a.mv, b.mv, base_of(a, s), x, y);
        },
        InterMode::NearMv => {
            let wa = if a.ref_mv_idx < 1 {
                1int
            } else {
                a.ref_mv_idx as int
            };
            let wb = if b.ref_mv_idx < 1 {
                1int
            } else {
                b.ref_mv_idx as int
            };
            lemma_near(a, s, wa);
            lemma_near(b, s, wb);
            let flags = seq![
                motion::not_new(s),
                ops::symbol(1, Cdf::ZeroMv(s.zero_mv_ctx)),
                ops::symbol(1, Cdf::RefMv(s.ref_mv_ctx)),
            ];
            let ia = motion::drl_ops(s.drl_ctx@, len, 1, wa);
            let ib = motion::drl_ops(s.drl_ctx@, len, 1, wb);
            assert(oa + x =~= flags + (ia + x));
            assert(ob + y =~= flags + (ib + y));
            read_back::lemma_parts(flags, ia + x, flags, ib + y);
            candidate_indices_end_themselves(s.drl_ctx@, len, 1, wa, wb, x, y);
        },
        _ => {
            lemma_plain(a, s);
            lemma_plain(b, s);
            read_back::lemma_parts(oa, x, ob, y);
        },
    }
}

/// The flags that tell the modes of one reference apart.
proof fn lemma_flags(info: InterInfo, s: MvStack, x: Seq<Op>)
    requires
        motion::inter_mode(info, s).said.fault is None,
    ensures
        ({
            let all = read_back::coded(motion::inter_mode(info, s).said.ops) + x;
            let new = all[0] == ops::symbol(0, Cdf::NewMv(s.new_mv_ctx));
            let zero = all[1] == ops::symbol(0, Cdf::ZeroMv(s.zero_mv_ctx));
            let nearest = all[2] == ops::symbol(0, Cdf::RefMv(s.ref_mv_ctx));
            &&& new <==> info.mode == InterMode::NewMv
            &&& info.mode != InterMode::NewMv ==> (zero <==> info.mode == InterMode::GlobalMv)
            &&& info.mode == InterMode::NearestMv ==> nearest
            &&& info.mode == InterMode::NearMv ==> !nearest
            &&& info.mode == InterMode::NewMv || info.mode == InterMode::GlobalMv || info.mode
                == InterMode::NearestMv || info.mode == InterMode::NearMv
        }),
{
    let own = read_back::coded(motion::inter_mode(info, s).said.ops);
    match info.mode {
        InterMode::NewMv => {
            lemma_new(info, s);
            assert((own + x)[0] == own[0]);
        },
        InterMode::NearMv => {
            let want = if info.ref_mv_idx < 1 {
                1int
            } else {
                info.ref_mv_idx as int
            };
            lemma_near(info, s, want);
            assert((own + x)[0] == own[0]);
            assert((own + x)[1] == own[1]);
            assert((own + x)[2] == own[2]);
        },
        InterMode::GlobalMv => {
            lemma_plain(info, s);
            assert((own + x)[0] == own[0]);
            assert((own + x)[1] == own[1]);
        },
        InterMode::NearestMv => {
            lemma_plain(info, s);
            assert((own + x)[0] == own[0]);
            assert((own + x)[1] == own[1]);
            assert((own + x)[2] == own[2]);
        },
        _ => {},
    }
}

/// The candidates that the differences of a block of two references are coded
/// against.
pub open spec fn pair_base(info: InterInfo, s: CompoundStack) -> motion::MvPair {
    let end = if info.mode == InterMode::NewNewMv {
        motion::drl_end(s.entries@.len() as int, 0, info.ref_mv_idx as int)
    } else {
        0
    };
    motion::candidate_pair(s.entries@, end, s.nearest_mv)
}

/// Whether the differences a block of two references codes are within the last
/// class of vectors.
pub open spec fn is_near_pair(info: InterInfo, s: CompoundStack) -> bool {
    let base = pair_base(info, s);
    &&& (info.mode == InterMode::NewNewMv || info.mode == InterMode::NewNearestMv) ==> is_near(
        info.mv,
        base.0,
    )
    &&& (info.mode == InterMode::NewNewMv || info.mode == InterMode::NearestNewMv) ==> is_near(
        info.mv1,
        base.1,
    )
}

/// What a decoder sees of two new vectors.
proof fn lemma_new_pair(info: InterInfo, s: CompoundStack)
    requires
        info.mode == InterMode::NewNewMv,
        motion::pair_of(info, s).said.fault is None,
    ensures
        read_back::coded(motion::pair_of(info, s).said.ops) == motion::drl_ops(
            s.drl_ctx@,
            s.entries@.len() as int,
            0,
            info.ref_mv_idx as int,
        ) + (vectors::mv_said(info.mv, pair_base(info, s).0).ops + vectors::mv_said(
            info.mv1,
            pair_base(info, s).1,
        ).ops),
        vectors::mv_said(info.mv, pair_base(info, s).0).fault is None,
        vectors::mv_said(info.mv1, pair_base(info, s).1).fault is None,
{
    let len = s.entries@.len() as int;
    let idx = info.ref_mv_idx as int;
    let end = motion::drl_end(len, 0, idx);
    let base = pair_base(info, s);
    let index = motion::drl_ops(s.drl_ctx@, len, 0, idx);
    let cut = end != idx && base != motion::candidate_pair(s.entries@, idx, s.nearest_mv);
    let first = vectors::mv_said(info.mv, base.0).ops;
    let second = vectors::mv_said(info.mv1, base.1).ops;
    assert(motion::pair_of(info, s).said.ops == ((index + motion::clamp_ops(cut)) + first)
        + second);
    read_back::marks_are_not_coded((index + motion::clamp_ops(cut)) + first, second);
    read_back::marks_are_not_coded(index + motion::clamp_ops(cut), first);
    read_back::marks_are_not_coded(index, motion::clamp_ops(cut));
    lemma_drl_unmarked(s.drl_ctx@, len, 0, idx);
    lemma_clamp_is_a_mark(cut);
    lemma_vector_unmarked(info.mv, base.0);
    lemma_vector_unmarked(info.mv1, base.1);
    assert(((index + Seq::<Op>::empty()) + first) + second =~= index + (first + second));
}

/// What a decoder sees of a pair past the nearest.
proof fn lemma_near_pair(info: InterInfo, s: CompoundStack)
    requires
        info.mode == InterMode::NearNearMv,
    ensures
        read_back::coded(motion::pair_of(info, s).said.ops) == motion::drl_ops(
            s.drl_ctx@,
            s.entries@.len() as int,
            1,
            info.ref_mv_idx + 1,
        ),
{
    let len = s.entries@.len() as int;
    let want = info.ref_mv_idx + 1;
    let end = motion::drl_end(len, 1, want);
    let mvs = motion::candidate_pair(s.entries@, end, s.near_mv);
    let cut = end != want && mvs != motion::candidate_pair(s.entries@, want, s.near_mv);
    let index = motion::drl_ops(s.drl_ctx@, len, 1, want);
    assert(motion::pair_of(info, s).said.ops == index + motion::clamp_ops(cut));
    read_back::marks_are_not_coded(index, motion::clamp_ops(cut));
    lemma_drl_unmarked(s.drl_ctx@, len, 1, want);
    lemma_clamp_is_a_mark(cut);
    assert(index + Seq::<Op>::empty() =~= index);
}

/// What a decoder sees of one new vector beside a candidate, or of none.
proof fn lemma_half_pair(info: InterInfo, s: CompoundStack)
    requires
        info.mode != InterMode::NewNewMv,
        info.mode != InterMode::NearNearMv,
        blocks::spec_compound_index(info.mode) is Some,
    ensures
        read_back::coded(motion::pair_of(info, s).said.ops) == motion::pair_of(info, s).said.ops,
{
    let base = pair_base(info, s);
    lemma_vector_unmarked(info.mv, base.0);
    lemma_vector_unmarked(info.mv1, base.1);
    read_back::lemma_unmarked(Seq::empty());
}

/// The vectors of a block of two references read back: from the same
/// candidates, and whatever follows, a decoder derives the mode and the vectors
/// the writer took.
#[verifier::rlimit(40)]
pub proof fn paired_modes_read_back(
    a: InterInfo,
    b: InterInfo,
    s: CompoundStack,
    x: Seq<Op>,
    y: Seq<Op>,
)
    requires
        blocks::spec_compound_index(a.mode) is Some,
        blocks::spec_compound_index(b.mode) is Some,
        motion::pair_of(a, s).said.fault is None,
        motion::pair_of(b, s).said.fault is None,
        is_near_pair(a, s),
        is_near_pair(b, s),
        (seq![
            ops::symbol(
                blocks::spec_compound_index(a.mode)->0 as int,
                Cdf::InterCompoundMode(motion::compound_ctx(s)),
            ),
        ] + read_back::coded(motion::pair_of(a, s).said.ops)) + x == (seq![
            ops::symbol(
                blocks::spec_compound_index(b.mode)->0 as int,
                Cdf::InterCompoundMode(motion::compound_ctx(s)),
            ),
        ] + read_back::coded(motion::pair_of(b, s).said.ops)) + y,
    ensures
        a.mode == b.mode,
        motion::pair_of(a, s).mvs == motion::pair_of(b, s).mvs,
        x == y,
{
    let table = Cdf::InterCompoundMode(motion::compound_ctx(s));
    let ma = seq![ops::symbol(blocks::spec_compound_index(a.mode)->0 as int, table)];
    let mb = seq![ops::symbol(blocks::spec_compound_index(b.mode)->0 as int, table)];
    let pa = read_back::coded(motion::pair_of(a, s).said.ops);
    let pb = read_back::coded(motion::pair_of(b, s).said.ops);
    assert((ma + pa) + x =~= ma + (pa + x));
    assert((mb + pb) + y =~= mb + (pb + y));
    read_back::lemma_parts(ma, pa + x, mb, pb + y);
    assert(ma[0] == mb[0]);
    assert(a.mode == b.mode);
    let len = s.entries@.len() as int;
    match a.mode {
        InterMode::NewNewMv => {
            lemma_new_pair(a, s);
            lemma_new_pair(b, s);
            let ia = motion::drl_ops(s.drl_ctx@, len, 0, a.ref_mv_idx as int);
            let ib = motion::drl_ops(s.drl_ctx@, len, 0, b.ref_mv_idx as int);
            let base = pair_base(a, s);
            let fa = vectors::mv_said(a.mv, base.0).ops;
            let sa = vectors::mv_said(a.mv1, base.1).ops;
            let other = pair_base(b, s);
            let fb = vectors::mv_said(b.mv, other.0).ops;
            let sb = vectors::mv_said(b.mv1, other.1).ops;
            assert(pa + x =~= ia + (fa + (sa + x)));
            assert(pb + y =~= ib + (fb + (sb + y)));
            candidate_indices_end_themselves(
                s.drl_ctx@,
                len,
                0,
                a.ref_mv_idx as int,
                b.ref_mv_idx as int,
                fa + (sa + x),
                fb + (sb + y),
            );
            assert(base == other);
            vector_read_back::vectors_read_back(a.mv, b.mv, base.0, sa + x, sb + y);
            vector_read_back::vectors_read_back(a.mv1, b.mv1, base.1, x, y);
        },
        InterMode::NearNearMv => {
            lemma_near_pair(a, s);
            lemma_near_pair(b, s);
            candidate_indices_end_themselves(
                s.drl_ctx@,
                len,
                1,
                a.ref_mv_idx + 1,
                b.ref_mv_idx + 1,
                x,
                y,
            );
        },
        InterMode::NearestNewMv => {
            lemma_half_pair(a, s);
            lemma_half_pair(b, s);
            vector_read_back::vectors_read_back(a.mv1, b.mv1, pair_base(a, s).1, x, y);
        },
        InterMode::NewNearestMv => {
            lemma_half_pair(a, s);
            lemma_half_pair(b, s);
            vector_read_back::vectors_read_back(a.mv, b.mv, pair_base(a, s).0, x, y);
        },
        _ => {
            lemma_half_pair(a, s);
            lemma_half_pair(b, s);
            assert(pa + x =~= x);
            assert(pb + y =~= y);
        },
    }
}

} // verus!
