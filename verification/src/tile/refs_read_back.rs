//! What a decoder reads back of a block's references and its motion mode.
use crate::tile::motion;
use crate::tile::motion::MotionContext;
use crate::tile::neighbours::Bands;
use crate::tile::ops::Op;
use crate::tile::plans::FramePlan;
use crate::tile::read_back;
use crate::tile::refs;
use crate::tile::refs::NamedRefs;
use vstd::prelude::*;

verus! {

/// The bits of a single reference's name.
spec fn name_bits(r: i8, n: NamedRefs) -> Seq<Op> {
    refs::single_ref_ops(r, n).drop_first()
}

proof fn lemma_name_seen(r: i8, n: NamedRefs)
    ensures
        read_back::coded(refs::single_ref_ops(r, n)) == name_bits(r, n),
{
    let all = refs::single_ref_ops(r, n);
    let mark = seq![all[0]];
    let rest = name_bits(r, n);
    assert(all =~= mark + rest);
    assert(mark =~= Seq::<Op>::empty().push(all[0]));
    read_back::lemma_mark(Seq::empty(), all[0]);
    read_back::lemma_unmarked(rest);
    read_back::marks_are_not_coded(mark, rest);
    assert(Seq::<Op>::empty() + rest =~= rest);
}

/// A single reference's name reads back, whatever follows it.
pub proof fn names_read_back(r: i8, s: i8, n: NamedRefs, x: Seq<Op>, y: Seq<Op>)
    requires
        1 <= r <= 7,
        1 <= s <= 7,
        read_back::coded(refs::single_ref_ops(r, n)) + x == read_back::coded(
            refs::single_ref_ops(s, n),
        ) + y,
    ensures
        r == s,
        x == y,
{
    lemma_name_seen(r, n);
    lemma_name_seen(s, n);
    let a = name_bits(r, n);
    let b = name_bits(s, n);
    assert((a + x)[0] == a[0] && (a + x)[1] == a[1]);
    assert((b + y)[0] == b[0] && (b + y)[1] == b[1]);
    assert(refs::is_backward(r) == refs::is_backward(s));
    assert(a.len() == b.len());
    read_back::lemma_parts(a, x, b, y);
    if a.len() == 3 {
        assert(a[2] == b[2]);
    }
}

/// Whether two references are named in order.
pub open spec fn is_ordered(r0: i8, r1: i8) -> bool {
    1 <= r0 < r1 <= 7
}

/// A pair of references reads back, whatever follows it.
pub proof fn pairs_read_back(
    bands: Bands,
    mi: (int, int),
    a: (i8, i8),
    b: (i8, i8),
    x: Seq<Op>,
    y: Seq<Op>,
)
    requires
        is_ordered(a.0, a.1),
        is_ordered(b.0, b.1),
        refs::pair_fault(a.0, a.1) is None,
        refs::pair_fault(b.0, b.1) is None,
        refs::pair_ops(bands, mi.0, mi.1, a.0, a.1) + x == refs::pair_ops(
            bands,
            mi.0,
            mi.1,
            b.0,
            b.1,
        ) + y,
    ensures
        a == b,
        x == y,
{
    let oa = refs::pair_ops(bands, mi.0, mi.1, a.0, a.1);
    let ob = refs::pair_ops(bands, mi.0, mi.1, b.0, b.1);
    assert((oa + x)[0] == oa[0] && (oa + x)[1] == oa[1]);
    assert((ob + y)[0] == ob[0] && (ob + y)[1] == ob[1]);
    assert(refs::spec_is_uni(a.0, a.1) == refs::spec_is_uni(b.0, b.1));
    if oa.len() >= 3 {
        assert((oa + x)[2] == oa[2]);
    }
    if ob.len() >= 3 {
        assert((ob + y)[2] == ob[2]);
    }
    if oa.len() >= 4 {
        assert((oa + x)[3] == oa[3]);
    }
    if ob.len() >= 4 {
        assert((ob + y)[3] == ob[3]);
    }
    assert(oa.len() == ob.len());
    read_back::lemma_parts(oa, x, ob, y);
    if oa.len() == 5 {
        assert(oa[4] == ob[4]);
    }
}

/// A pair's names are all coded.
pub proof fn pairs_are_unmarked(bands: Bands, mi: (int, int), r0: i8, r1: i8)
    ensures
        read_back::coded(refs::pair_ops(bands, mi.0, mi.1, r0, r1)) == refs::pair_ops(
            bands,
            mi.0,
            mi.1,
            r0,
            r1,
        ),
{
    read_back::lemma_unmarked(refs::pair_ops(bands, mi.0, mi.1, r0, r1));
}

/// Whether two motion modes are the same as far as a block's symbols go: which
/// of the three where warping is on offer, whether overlapped where it is not.
pub open spec fn same_motion_mode(
    plan: FramePlan,
    m: MotionContext,
    side: int,
    a: u8,
    b: u8,
) -> bool {
    plan.motion_mode && side >= 8 && m.overlappable ==> if plan.warped_motion && m.warp_samples
        >= 1 {
        a == b
    } else {
        (a == 1) == (b == 1)
    }
}

/// A motion mode reads back, whatever follows it.
pub proof fn motion_modes_read_back(
    plan: FramePlan,
    m: MotionContext,
    side: int,
    a: u8,
    b: u8,
    x: Seq<Op>,
    y: Seq<Op>,
)
    requires
        read_back::coded(motion::motion_mode_ops(plan, m, side, a)) + x == read_back::coded(
            motion::motion_mode_ops(plan, m, side, b),
        ) + y,
    ensures
        same_motion_mode(plan, m, side, a, b),
        x == y,
{
    lemma_motion_seen(plan, m, side, a);
    lemma_motion_seen(plan, m, side, b);
    let oa = read_back::coded(motion::motion_mode_ops(plan, m, side, a));
    let ob = read_back::coded(motion::motion_mode_ops(plan, m, side, b));
    read_back::lemma_parts(oa, x, ob, y);
    if oa.len() > 0 {
        assert(oa[0] == ob[0]);
    }
}

proof fn lemma_motion_seen(plan: FramePlan, m: MotionContext, side: int, how: u8)
    ensures
        ({
            let all = motion::motion_mode_ops(plan, m, side, how);
            read_back::coded(all) == if all.len() > 0 {
                seq![all[0]]
            } else {
                Seq::<Op>::empty()
            }
        }),
{
    let all = motion::motion_mode_ops(plan, m, side, how);
    if all.len() > 0 {
        let head = seq![all[0]];
        assert(all =~= head.push(all[1]));
        read_back::lemma_mark(head, all[1]);
        read_back::lemma_unmarked(head);
    }
}

} // verus!
