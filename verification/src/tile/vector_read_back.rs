//! What a decoder reads back of a motion vector.
use crate::tile::context;
use crate::tile::golomb;
use crate::tile::ops;
use crate::tile::ops::{Cdf, Op};
use crate::tile::read_back;
use crate::tile::vectors;
use crate::tile::vectors::{VectorKind, MV_CLASS_BASE};
use vstd::prelude::*;

verus! {

/// Whether a difference can be told from its symbols: within the last class,
/// and in quarters of a pel, or in whole pels into the block's own frame.
pub open spec fn is_told(kind: VectorKind, diff: int) -> bool {
    &&& context::abs(diff) <= 16384
    &&& context::abs(diff) % 2 == 0
    &&& kind == VectorKind::Dv ==> context::abs(diff) % 8 == 0
}

proof fn lemma_low_bits_alike(d: int, e: int, count: int)
    requires
        forall|i: int| 0 <= i < count ==> #[trigger] golomb::bit_of(d, i) == golomb::bit_of(e, i),
    ensures
        vectors::low_bits(d, count) == vectors::low_bits(e, count),
    decreases count,
{
    if count > 0 {
        lemma_low_bits_alike(d, e, count - 1);
    }
}

/// One component's symbols end themselves.
proof fn lemma_component(
    kind: VectorKind,
    comp: usize,
    d: int,
    e: int,
    x: Seq<Op>,
    y: Seq<Op>,
)
    requires
        d != 0,
        e != 0,
        is_told(kind, d),
        is_told(kind, e),
        vectors::component_ops(kind, comp, d) + x == vectors::component_ops(kind, comp, e) + y,
    ensures
        d == e,
        x == y,
{
    let zd = context::abs(d) - 1;
    let ze = context::abs(e) - 1;
    vectors::classes_hold_their_magnitudes(zd);
    vectors::classes_hold_their_magnitudes(ze);
    vectors::differences_read_back(d);
    vectors::differences_read_back(e);
    let class = vectors::class_of(zd);
    let ld = zd - MV_CLASS_BASE[class];
    let od = vectors::component_ops(kind, comp, d);
    let oe = vectors::component_ops(kind, comp, e);
    assert((od + x)[0] == od[0]);
    assert((oe + y)[0] == oe[0]);
    assert((od + x)[1] == od[1]);
    assert((oe + y)[1] == oe[1]);
    assert((d < 0) == (e < 0));
    assert(class == vectors::class_of(ze));
    let le = ze - MV_CLASS_BASE[class];
    read_back::lemma_parts(od, x, oe, y);
    if class == 0 {
        assert(od[2] == oe[2]);
        assert((ld / 8) % 2 == (le / 8) % 2);
        if kind == VectorKind::Mv {
            assert(od[3] == oe[3]);
        }
    } else {
        let wd = vectors::integer_ops(kind, comp, ld / 8, class);
        let we = vectors::integer_ops(kind, comp, le / 8, class);
        assert forall|i: int| 0 <= i < class implies #[trigger] golomb::bit_of(ld / 8, i)
            == golomb::bit_of(le / 8, i) by {
            assert(od[2 + i] == wd[i]);
            assert(oe[2 + i] == we[i]);
        }
        lemma_low_bits_alike(ld / 8, le / 8, class);
        if kind == VectorKind::Mv {
            assert(od[2 + class] == oe[2 + class]);
        }
    }
    if kind == VectorKind::Dv {
        assert(MV_CLASS_BASE[class] % 8 == 0);
        assert((ld / 2) % 4 == 3);
        assert((le / 2) % 4 == 3);
    }
}

/// The components a joint symbol announces, in turn.
spec fn parts(kind: VectorKind, row: int, col: int) -> Seq<Op> {
    let first = if row != 0 {
        vectors::component_ops(kind, 0, row)
    } else {
        Seq::empty()
    };
    let second = if col != 0 {
        vectors::component_ops(kind, 1, col)
    } else {
        Seq::empty()
    };
    first + second
}

proof fn lemma_parts_told(
    kind: VectorKind,
    table: Cdf,
    a: (int, int),
    b: (int, int),
    x: Seq<Op>,
    y: Seq<Op>,
)
    requires
        is_told(kind, a.0),
        is_told(kind, a.1),
        is_told(kind, b.0),
        is_told(kind, b.1),
        (seq![ops::symbol(vectors::joint_of(a.0, a.1), table)] + parts(kind, a.0, a.1)) + x == (
        seq![ops::symbol(vectors::joint_of(b.0, b.1), table)] + parts(kind, b.0, b.1)) + y,
    ensures
        a == b,
        x == y,
{
    let ja = seq![ops::symbol(vectors::joint_of(a.0, a.1), table)];
    let jb = seq![ops::symbol(vectors::joint_of(b.0, b.1), table)];
    let pa = parts(kind, a.0, a.1);
    let pb = parts(kind, b.0, b.1);
    assert((ja + pa) + x =~= ja + (pa + x));
    assert((jb + pb) + y =~= jb + (pb + y));
    read_back::lemma_parts(ja, pa + x, jb, pb + y);
    assert(ja[0] == jb[0]);
    assert((a.0 != 0) == (b.0 != 0));
    assert((a.1 != 0) == (b.1 != 0));
    let ca = vectors::component_ops(kind, 1, a.1);
    let cb = vectors::component_ops(kind, 1, b.1);
    let ta = if a.1 != 0 {
        ca + x
    } else {
        x
    };
    let tb = if b.1 != 0 {
        cb + y
    } else {
        y
    };
    if a.0 != 0 {
        let ra = vectors::component_ops(kind, 0, a.0);
        let rb = vectors::component_ops(kind, 0, b.0);
        assert(pa + x =~= ra + ta);
        assert(pb + y =~= rb + tb);
        lemma_component(kind, 0, a.0, b.0, ta, tb);
    } else {
        assert(pa + x =~= ta);
        assert(pb + y =~= tb);
    }
    if a.1 != 0 {
        lemma_component(kind, 1, a.1, b.1, x, y);
    }
}

/// A vector into another frame reads back: against the same predicted one, and
/// whatever follows, the symbols of a vector that is not refused tell it.
pub proof fn vectors_read_back(
    a: (i32, i32),
    b: (i32, i32),
    pred: (i32, i32),
    x: Seq<Op>,
    y: Seq<Op>,
)
    requires
        vectors::mv_said(a, pred).fault is None,
        vectors::mv_said(b, pred).fault is None,
        context::abs(a.0 - pred.0) <= 16384,
        context::abs(a.1 - pred.1) <= 16384,
        context::abs(b.0 - pred.0) <= 16384,
        context::abs(b.1 - pred.1) <= 16384,
        vectors::mv_said(a, pred).ops + x == vectors::mv_said(b, pred).ops + y,
    ensures
        a == b,
        x == y,
{
    reveal(vectors::mv_said);
    let kind = VectorKind::Mv;
    let da = (a.0 - pred.0, a.1 - pred.1);
    let db = (b.0 - pred.0, b.1 - pred.1);
    let ja = seq![ops::symbol(vectors::joint_of(da.0, da.1), Cdf::MvJoint)];
    let jb = seq![ops::symbol(vectors::joint_of(db.0, db.1), Cdf::MvJoint)];
    assert(vectors::mv_said(a, pred).ops =~= ja + parts(kind, da.0, da.1));
    assert(vectors::mv_said(b, pred).ops =~= jb + parts(kind, db.0, db.1));
    lemma_parts_told(kind, Cdf::MvJoint, da, db, x, y);
}

/// A vector into the block's own frame reads back likewise.
pub proof fn own_frame_vectors_read_back(
    a: (i32, i32),
    b: (i32, i32),
    pred: (i32, i32),
    x: Seq<Op>,
    y: Seq<Op>,
)
    requires
        vectors::dv_said(a, pred).fault is None,
        vectors::dv_said(b, pred).fault is None,
        context::abs(a.0 - pred.0) <= 16384,
        context::abs(a.1 - pred.1) <= 16384,
        context::abs(b.0 - pred.0) <= 16384,
        context::abs(b.1 - pred.1) <= 16384,
        vectors::dv_said(a, pred).ops + x == vectors::dv_said(b, pred).ops + y,
    ensures
        a == b,
        x == y,
{
    reveal(vectors::dv_said);
    let kind = VectorKind::Dv;
    let da = (a.0 - pred.0, a.1 - pred.1);
    let db = (b.0 - pred.0, b.1 - pred.1);
    let ja = seq![ops::symbol(vectors::joint_of(da.0, da.1), Cdf::DvJoint)];
    let jb = seq![ops::symbol(vectors::joint_of(db.0, db.1), Cdf::DvJoint)];
    assert(vectors::dv_said(a, pred).ops =~= ja + parts(kind, da.0, da.1));
    assert(vectors::dv_said(b, pred).ops =~= jb + parts(kind, db.0, db.1));
    lemma_parts_told(kind, Cdf::DvJoint, da, db, x, y);
}

} // verus!
