//! The references of an inter block, by name.
use crate::tile::error::TileError;
use crate::tile::neighbours;
use crate::tile::neighbours::{Cell, Neighbours};
use crate::tile::ops;
use crate::tile::ops::{bit, note, put, Cdf, Note, Op};
use vstd::prelude::*;

verus! {

/// The nearest past reference.
pub const LAST_FRAME: i8 = 1;

/// The one before it.
pub const LAST2_FRAME: i8 = 2;

/// The one before that.
pub const LAST3_FRAME: i8 = 3;

/// The past reference that is kept.
pub const GOLDEN_FRAME: i8 = 4;

/// The nearest future reference.
pub const BWDREF_FRAME: i8 = 5;

/// The one after it.
pub const ALTREF2_FRAME: i8 = 6;

/// The furthest future reference.
pub const ALTREF_FRAME: i8 = 7;

/// A neighbour as the reference contexts see it.
#[derive(Clone, Copy, Debug, PartialEq, Eq)]
pub struct NeighbourRef {
    /// Whether it is predicted from another frame.
    pub is_inter: bool,
    /// Its reference, zero for an intra block.
    pub ref0: i8,
    /// Its second reference.
    pub ref1: Option<i8>,
    /// Whether the two lie on one side in time.
    pub uni: bool,
}

/// Whether a reference lies in the future.
pub open spec fn is_backward(r: i8) -> bool {
    r >= BWDREF_FRAME
}

/// Whether two references lie on one side in time.
pub open spec fn spec_is_uni(r0: i8, r1: i8) -> bool {
    is_backward(r0) == is_backward(r1)
}

/// A unit of a band as a neighbour.
pub open spec fn neighbour_ref(c: Cell) -> NeighbourRef {
    let ref0 = if c.inter {
        c.ref0
    } else {
        0
    };
    NeighbourRef {
        is_inter: c.inter,
        ref0,
        ref1: c.ref1,
        uni: c.ref1 matches Some(r1) && spec_is_uni(ref0, r1),
    }
}

/// Whether two references lie on one side in time.
pub fn is_uni_comp_ref(r0: i8, r1: i8) -> (uni: bool)
    ensures
        uni == spec_is_uni(r0, r1),
{
    (r0 >= BWDREF_FRAME) == (r1 >= BWDREF_FRAME)
}

fn as_neighbour(c: &Cell) -> (n: NeighbourRef)
    ensures
        n == neighbour_ref(*c),
{
    let ref0: i8 = if c.inter {
        c.ref0
    } else {
        0
    };
    NeighbourRef {
        is_inter: c.inter,
        ref0,
        ref1: c.ref1,
        uni: match c.ref1 {
            Some(r1) => is_uni_comp_ref(ref0, r1),
            None => false,
        },
    }
}

impl Neighbours {
    /// The neighbour above, as the reference contexts see it.
    pub fn above_nbr(&self, mi_c: usize) -> (n: NeighbourRef)
        requires
            mi_c < self@.above.len(),
        ensures
            n == neighbour_ref(self@.above[mi_c as int]),
    {
        as_neighbour(&self.above[mi_c])
    }

    /// The neighbour to the left.
    pub fn left_nbr(&self, mi_r: usize) -> (n: NeighbourRef)
        requires
            mi_r < self@.left.len(),
        ensures
            n == neighbour_ref(self@.left[mi_r as int]),
    {
        as_neighbour(&self.left[mi_r])
    }
}

/// The references that a block's two neighbours name, up to four.
#[derive(Clone, Copy, Debug, PartialEq, Eq)]
pub struct NamedRefs {
    /// The one above.
    pub above: Option<i8>,
    /// Its second.
    pub above1: Option<i8>,
    /// The one to the left.
    pub left: Option<i8>,
    /// Its second.
    pub left1: Option<i8>,
}

/// A name, where a neighbour has one.
pub open spec fn named(r: i8) -> Option<i8> {
    if r > 0 {
        Some(r)
    } else {
        None
    }
}

/// The references of the units above and to the left of a block.
pub open spec fn named_refs(b: neighbours::Bands, mi_r: int, mi_c: int) -> NamedRefs {
    NamedRefs {
        above: named(b.above[mi_c].ref0),
        above1: b.above[mi_c].ref1,
        left: named(b.left[mi_r].ref0),
        left1: b.left[mi_r].ref1,
    }
}

/// One where a neighbour names one of the references `lo..=hi`.
pub open spec fn hit(r: Option<i8>, lo: int, hi: int) -> int {
    match r {
        Some(x) => ops::flag(lo <= x <= hi),
        None => 0,
    }
}

/// How often the neighbours name the references `lo..=hi`.
pub open spec fn hits(n: NamedRefs, lo: int, hi: int) -> int {
    hit(n.above, lo, hi) + hit(n.above1, lo, hi) + hit(n.left, lo, hi) + hit(n.left1, lo, hi)
}

/// The context of a choice between two groups of references: which the
/// neighbours name more often.
pub open spec fn vote(first: int, second: int) -> int {
    if first < second {
        0
    } else if first == second {
        1
    } else {
        2
    }
}

/// The context of past against future.
pub open spec fn p1_ctx(n: NamedRefs) -> int {
    vote(hits(n, 1, 4), hits(n, 5, 7))
}

/// The context of the furthest future reference against the other two.
pub open spec fn p2_ctx(n: NamedRefs) -> int {
    vote(hits(n, 5, 6), hits(n, 7, 7))
}

/// The context of the two nearest past references against the other two.
pub open spec fn p3_ctx(n: NamedRefs) -> int {
    vote(hits(n, 1, 2), hits(n, 3, 4))
}

/// The context of the nearest past reference against the one before it.
pub open spec fn p4_ctx(n: NamedRefs) -> int {
    vote(hits(n, 1, 1), hits(n, 2, 2))
}

/// The context of the third past reference against the kept one.
pub open spec fn p5_ctx(n: NamedRefs) -> int {
    vote(hits(n, 3, 3), hits(n, 4, 4))
}

/// The context of the nearest future reference against the one after it.
pub open spec fn p6_ctx(n: NamedRefs) -> int {
    vote(hits(n, 5, 5), hits(n, 6, 6))
}

/// The context of the second past reference against the two beyond it.
pub open spec fn uni_p1_ctx(n: NamedRefs) -> int {
    vote(hits(n, 2, 2), hits(n, 3, 4))
}

/// The context of one reference against two.
pub open spec fn spec_reference_mode_ctx(
    above: Option<NeighbourRef>,
    left: Option<NeighbourRef>,
) -> int {
    match (above, left) {
        (Some(a), Some(l)) => if a.ref1 is None && l.ref1 is None {
            ops::flag(is_backward(a.ref0) != is_backward(l.ref0))
        } else if a.ref1 is None {
            2 + ops::flag(is_backward(a.ref0) || !a.is_inter)
        } else if l.ref1 is None {
            2 + ops::flag(is_backward(l.ref0) || !l.is_inter)
        } else {
            4
        },
        (Some(e), None) | (None, Some(e)) => if e.ref1 is None {
            ops::flag(is_backward(e.ref0))
        } else {
            3
        },
        (None, None) => 1,
    }
}

/// The context of two references on one side in time against on both.
pub open spec fn spec_comp_reference_type_ctx(
    above: Option<NeighbourRef>,
    left: Option<NeighbourRef>,
) -> int {
    match (above, left) {
        (Some(a), Some(l)) => if !a.is_inter && !l.is_inter {
            2
        } else if !a.is_inter || !l.is_inter {
            let e = if a.is_inter {
                a
            } else {
                l
            };
            if e.ref1 is None {
                2
            } else {
                1 + 2 * ops::flag(e.uni)
            }
        } else {
            let same = ops::flag(is_backward(a.ref0) == is_backward(l.ref0));
            if a.ref1 is None && l.ref1 is None {
                1 + 2 * same
            } else if a.ref1 is None || l.ref1 is None {
                let uni = if a.ref1 is None {
                    l.uni
                } else {
                    a.uni
                };
                if uni {
                    3 + same
                } else {
                    1
                }
            } else if !a.uni && !l.uni {
                0
            } else if !a.uni || !l.uni {
                2
            } else {
                3 + ops::flag((a.ref0 == BWDREF_FRAME) == (l.ref0 == BWDREF_FRAME))
            }
        },
        (Some(e), None) | (None, Some(e)) => if !e.is_inter || e.ref1 is None {
            2
        } else {
            4 * ops::flag(e.uni)
        },
        (None, None) => 2,
    }
}

/// The neighbours inside the tile of a block.
pub open spec fn sides(
    b: neighbours::Bands,
    mi_r: int,
    mi_c: int,
) -> (Option<NeighbourRef>, Option<NeighbourRef>) {
    (
        if mi_r > b.row0 {
            Some(neighbour_ref(b.above[mi_c]))
        } else {
            None
        },
        if mi_c > b.col0 {
            Some(neighbour_ref(b.left[mi_r]))
        } else {
            None
        },
    )
}

/// A reference as the census counts it.
pub open spec fn ref_slot(r: i8) -> int {
    if r <= 1 {
        0
    } else {
        (r - 1) % 7
    }
}

/// One bit of a single reference's name.
pub open spec fn single_bit(value: bool, ctx: int, i: int) -> Op {
    ops::symbol(ops::flag(value), Cdf::SingleRef(ctx as usize, i as usize))
}

/// The symbols of a single reference's name.
pub open spec fn single_ref_ops(r: i8, n: NamedRefs) -> Seq<Op> {
    let mark = Op::Note(Note::Ref(ref_slot(r) as usize));
    let backward = is_backward(r);
    let first = single_bit(backward, p1_ctx(n), 0);
    if backward {
        if r == ALTREF_FRAME {
            seq![mark, first, single_bit(true, p2_ctx(n), 1)]
        } else {
            seq![
                mark,
                first,
                single_bit(false, p2_ctx(n), 1),
                single_bit(r == ALTREF2_FRAME, p6_ctx(n), 5),
            ]
        }
    } else if r == LAST3_FRAME || r == GOLDEN_FRAME {
        seq![
            mark,
            first,
            single_bit(true, p3_ctx(n), 2),
            single_bit(r == GOLDEN_FRAME, p5_ctx(n), 4),
        ]
    } else {
        seq![
            mark,
            first,
            single_bit(false, p3_ctx(n), 2),
            single_bit(r == LAST2_FRAME, p4_ctx(n), 3),
        ]
    }
}

/// One bit of the name of a pair on one side in time.
pub open spec fn uni_bit(value: bool, ctx: int, i: int) -> Op {
    ops::symbol(ops::flag(value), Cdf::UniCompRef(ctx as usize, i as usize))
}

/// One bit of the past reference's name of a pair on both sides.
pub open spec fn fwd_bit(value: bool, ctx: int, i: int) -> Op {
    ops::symbol(ops::flag(value), Cdf::CompRef(ctx as usize, i as usize))
}

/// One bit of its future reference's.
pub open spec fn bwd_bit(value: bool, ctx: int, i: int) -> Op {
    ops::symbol(ops::flag(value), Cdf::CompBwdRef(ctx as usize, i as usize))
}

/// The symbols of a pair on one side in time, where the first of a past pair
/// is the nearest.
pub open spec fn uni_ops(r0: i8, r1: i8, n: NamedRefs) -> Seq<Op> {
    let future = r0 == BWDREF_FRAME && r1 == ALTREF_FRAME;
    let first = uni_bit(future, p1_ctx(n), 0);
    if future || r0 != LAST_FRAME {
        seq![first]
    } else if r1 == LAST2_FRAME {
        seq![first, uni_bit(false, uni_p1_ctx(n), 1)]
    } else {
        seq![
            first,
            uni_bit(true, uni_p1_ctx(n), 1),
            uni_bit(r1 == GOLDEN_FRAME, p5_ctx(n), 2),
        ]
    }
}

/// The symbols of a pair on both sides.
pub open spec fn bi_ops(r0: i8, r1: i8, n: NamedRefs) -> Seq<Op> {
    let far = r0 == LAST3_FRAME || r0 == GOLDEN_FRAME;
    let past = if far {
        seq![
            fwd_bit(true, p3_ctx(n), 0),
            fwd_bit(r0 == GOLDEN_FRAME, p5_ctx(n), 2),
        ]
    } else {
        seq![
            fwd_bit(false, p3_ctx(n), 0),
            fwd_bit(r0 == LAST2_FRAME, p4_ctx(n), 1),
        ]
    };
    if r1 == ALTREF_FRAME {
        past.push(bwd_bit(true, p2_ctx(n), 0))
    } else {
        past.push(bwd_bit(false, p2_ctx(n), 0)).push(
            bwd_bit(r1 == ALTREF2_FRAME, p6_ctx(n), 1),
        )
    }
}

/// The symbols of a pair of references.
pub open spec fn pair_ops(
    b: neighbours::Bands,
    mi_r: int,
    mi_c: int,
    r0: i8,
    r1: i8,
) -> Seq<Op> {
    let (above, left) = sides(b, mi_r, mi_c);
    let full = named_refs(b, mi_r, mi_c);
    let n = NamedRefs {
        above1: if mi_r > b.row0 {
            full.above1
        } else {
            None
        },
        left1: if mi_c > b.col0 {
            full.left1
        } else {
            None
        },
        ..full
    };
    let uni = spec_is_uni(r0, r1);
    let kind = ops::symbol(
        ops::flag(!uni),
        Cdf::CompRefType(spec_comp_reference_type_ctx(above, left) as usize),
    );
    seq![kind] + if uni {
        uni_ops(r0, r1, n)
    } else {
        bi_ops(r0, r1, n)
    }
}

/// What is wrong with a pair of references.
pub open spec fn pair_fault(r0: i8, r1: i8) -> Option<TileError> {
    if spec_is_uni(r0, r1) && !(r0 == BWDREF_FRAME && r1 == ALTREF_FRAME) && r0 != LAST_FRAME {
        Some(TileError::CompoundPair)
    } else {
        None
    }
}

fn hit_one(r: Option<i8>, lo: i8, hi: i8) -> (n: usize)
    ensures
        n == hit(r, lo as int, hi as int),
        n <= 1,
{
    match r {
        Some(x) => bit(lo <= x && x <= hi),
        None => 0,
    }
}

fn hit_count(n: &NamedRefs, lo: i8, hi: i8) -> (count: usize)
    ensures
        count == hits(*n, lo as int, hi as int),
{
    hit_one(n.above, lo, hi) + hit_one(n.above1, lo, hi) + hit_one(n.left, lo, hi) + hit_one(
        n.left1,
        lo,
        hi,
    )
}

fn voted(first: usize, second: usize) -> (ctx: usize)
    ensures
        ctx == vote(first as int, second as int),
{
    if first < second {
        0
    } else if first == second {
        1
    } else {
        2
    }
}

/// The context of past against future.
pub fn single_ref_p1_ctx(n: &NamedRefs) -> (ctx: usize)
    ensures
        ctx == p1_ctx(*n),
{
    voted(hit_count(n, 1, 4), hit_count(n, 5, 7))
}

/// The context of the furthest future reference against the other two.
pub fn single_ref_p2_ctx(n: &NamedRefs) -> (ctx: usize)
    ensures
        ctx == p2_ctx(*n),
{
    voted(hit_count(n, 5, 6), hit_count(n, 7, 7))
}

/// The context of the two nearest past references against the other two.
pub fn single_ref_p3_ctx(n: &NamedRefs) -> (ctx: usize)
    ensures
        ctx == p3_ctx(*n),
{
    voted(hit_count(n, 1, 2), hit_count(n, 3, 4))
}

/// The context of the nearest past reference against the one before it.
pub fn single_ref_p4_ctx(n: &NamedRefs) -> (ctx: usize)
    ensures
        ctx == p4_ctx(*n),
{
    voted(hit_count(n, 1, 1), hit_count(n, 2, 2))
}

/// The context of the third past reference against the kept one.
pub fn single_ref_p5_ctx(n: &NamedRefs) -> (ctx: usize)
    ensures
        ctx == p5_ctx(*n),
{
    voted(hit_count(n, 3, 3), hit_count(n, 4, 4))
}

/// The context of the nearest future reference against the one after it.
pub fn single_ref_p6_ctx(n: &NamedRefs) -> (ctx: usize)
    ensures
        ctx == p6_ctx(*n),
{
    voted(hit_count(n, 5, 5), hit_count(n, 6, 6))
}

/// The context of the second past reference against the two beyond it.
pub fn uni_comp_ref_p1_ctx(n: &NamedRefs) -> (ctx: usize)
    ensures
        ctx == uni_p1_ctx(*n),
{
    voted(hit_count(n, 2, 2), hit_count(n, 3, 4))
}

/// The context of one reference against two.
pub fn reference_mode_ctx(above: Option<NeighbourRef>, left: Option<NeighbourRef>) -> (ctx: usize)
    ensures
        ctx == spec_reference_mode_ctx(above, left),
{
    match (above, left) {
        (Some(a), Some(l)) => {
            if a.ref1.is_none() && l.ref1.is_none() {
                bit((a.ref0 >= BWDREF_FRAME) != (l.ref0 >= BWDREF_FRAME))
            } else if a.ref1.is_none() {
                2 + bit(a.ref0 >= BWDREF_FRAME || !a.is_inter)
            } else if l.ref1.is_none() {
                2 + bit(l.ref0 >= BWDREF_FRAME || !l.is_inter)
            } else {
                4
            }
        },
        (Some(e), None) | (None, Some(e)) => {
            if e.ref1.is_none() {
                bit(e.ref0 >= BWDREF_FRAME)
            } else {
                3
            }
        },
        (None, None) => 1,
    }
}

/// The context of two references on one side in time against on both.
pub fn comp_reference_type_ctx(
    above: Option<NeighbourRef>,
    left: Option<NeighbourRef>,
) -> (ctx: usize)
    ensures
        ctx == spec_comp_reference_type_ctx(above, left),
{
    match (above, left) {
        (Some(a), Some(l)) => {
            if !a.is_inter && !l.is_inter {
                2
            } else if !a.is_inter || !l.is_inter {
                let e: NeighbourRef = if a.is_inter {
                    a
                } else {
                    l
                };
                if e.ref1.is_none() {
                    2
                } else {
                    1 + 2 * bit(e.uni)
                }
            } else {
                let same: usize = bit((a.ref0 >= BWDREF_FRAME) == (l.ref0 >= BWDREF_FRAME));
                if a.ref1.is_none() && l.ref1.is_none() {
                    1 + 2 * same
                } else if a.ref1.is_none() || l.ref1.is_none() {
                    let uni: bool = if a.ref1.is_none() {
                        l.uni
                    } else {
                        a.uni
                    };
                    if uni {
                        3 + same
                    } else {
                        1
                    }
                } else if !a.uni && !l.uni {
                    0
                } else if !a.uni || !l.uni {
                    2
                } else {
                    3 + bit((a.ref0 == BWDREF_FRAME) == (l.ref0 == BWDREF_FRAME))
                }
            }
        },
        (Some(e), None) | (None, Some(e)) => {
            if !e.is_inter || e.ref1.is_none() {
                2
            } else {
                4 * bit(e.uni)
            }
        },
        (None, None) => 2,
    }
}

fn name_of(r: i8) -> (n: Option<i8>)
    ensures
        n == named(r),
{
    if r > 0 {
        Some(r)
    } else {
        None
    }
}

impl Neighbours {
    /// The references of the units above and to the left of a block.
    pub fn named_refs(&self, mi: (usize, usize)) -> (n: NamedRefs)
        requires
            mi.0 < self@.left.len(),
            mi.1 < self@.above.len(),
        ensures
            n == named_refs(self@, mi.0 as int, mi.1 as int),
    {
        NamedRefs {
            above: name_of(self.above[mi.1].ref0),
            above1: self.above[mi.1].ref1,
            left: name_of(self.left[mi.0].ref0),
            left1: self.left[mi.0].ref1,
        }
    }

    fn sides(&self, mi: (usize, usize)) -> (s: (Option<NeighbourRef>, Option<NeighbourRef>))
        requires
            mi.0 < self@.left.len(),
            mi.1 < self@.above.len(),
        ensures
            s == sides(self@, mi.0 as int, mi.1 as int),
    {
        (
            if self.has_above(mi.0) {
                Some(self.above_nbr(mi.1))
            } else {
                None
            },
            if self.has_left(mi.1) {
                Some(self.left_nbr(mi.0))
            } else {
                None
            },
        )
    }
}

fn slot(r: i8) -> (s: usize)
    ensures
        s == ref_slot(r),
{
    if r <= 1 {
        0
    } else {
        ((r - 1) % 7) as usize
    }
}

/// Writes a single reference's name bit by bit, each in the context of the
/// names the neighbours chose.
pub fn write_single_ref(out: &mut Vec<Op>, ref_frame: i8, n: &NamedRefs)
    ensures
        final(out)@ == old(out)@ + single_ref_ops(ref_frame, *n),
{
    note(out, Note::Ref(slot(ref_frame)));
    let backward: bool = ref_frame >= BWDREF_FRAME;
    put(out, bit(backward), Cdf::SingleRef(single_ref_p1_ctx(n), 0));
    if backward {
        let is_altref: bool = ref_frame == ALTREF_FRAME;
        put(out, bit(is_altref), Cdf::SingleRef(single_ref_p2_ctx(n), 1));
        if !is_altref {
            put(
                out,
                bit(ref_frame == ALTREF2_FRAME),
                Cdf::SingleRef(single_ref_p6_ctx(n), 5),
            );
        }
    } else {
        let far: bool = ref_frame == LAST3_FRAME || ref_frame == GOLDEN_FRAME;
        put(out, bit(far), Cdf::SingleRef(single_ref_p3_ctx(n), 2));
        if far {
            put(
                out,
                bit(ref_frame == GOLDEN_FRAME),
                Cdf::SingleRef(single_ref_p5_ctx(n), 4),
            );
        } else {
            put(
                out,
                bit(ref_frame == LAST2_FRAME),
                Cdf::SingleRef(single_ref_p4_ctx(n), 3),
            );
        }
    }
    proof {
        assert(out@ =~= old(out)@ + single_ref_ops(ref_frame, *n));
    }
}

/// Writes the names of a block's two references. A pair of past references
/// is only formed with the nearest.
#[verifier::rlimit(60)]
pub fn write_compound_ref_frames(
    out: &mut Vec<Op>,
    neighbours: &Neighbours,
    mi: (usize, usize),
    ref0: i8,
    ref1: i8,
) -> (r: Result<(), TileError>)
    requires
        mi.0 < neighbours@.left.len(),
        mi.1 < neighbours@.above.len(),
    ensures
        final(out)@ == old(out)@ + pair_ops(
            neighbours@,
            mi.0 as int,
            mi.1 as int,
            ref0,
            ref1,
        ),
        match pair_fault(ref0, ref1) {
            None => r is Ok,
            Some(e) => r == Err::<(), TileError>(e),
        },
{
    let ghost all = pair_ops(neighbours@, mi.0 as int, mi.1 as int, ref0, ref1);
    let (above, left): (Option<NeighbourRef>, Option<NeighbourRef>) = neighbours.sides(mi);
    let full: NamedRefs = neighbours.named_refs(mi);
    let n = NamedRefs {
        above: full.above,
        above1: if neighbours.has_above(mi.0) {
            full.above1
        } else {
            None
        },
        left: full.left,
        left1: if neighbours.has_left(mi.1) {
            full.left1
        } else {
            None
        },
    };
    let uni: bool = is_uni_comp_ref(ref0, ref1);
    put(out, bit(!uni), Cdf::CompRefType(comp_reference_type_ctx(above, left)));
    if uni {
        let future: bool = ref0 == BWDREF_FRAME && ref1 == ALTREF_FRAME;
        put(out, bit(future), Cdf::UniCompRef(single_ref_p1_ctx(&n), 0));
        if !future {
            if ref0 != LAST_FRAME {
                proof {
                    assert(out@ =~= old(out)@ + all);
                }
                return Err(TileError::CompoundPair);
            }
            let past_last2: bool = ref1 != LAST2_FRAME;
            put(out, bit(past_last2), Cdf::UniCompRef(uni_comp_ref_p1_ctx(&n), 1));
            if past_last2 {
                put(
                    out,
                    bit(ref1 == GOLDEN_FRAME),
                    Cdf::UniCompRef(single_ref_p5_ctx(&n), 2),
                );
            }
        }
        proof {
            assert(out@ =~= old(out)@ + all);
        }
        return Ok(());
    }
    let far: bool = ref0 == LAST3_FRAME || ref0 == GOLDEN_FRAME;
    put(out, bit(far), Cdf::CompRef(single_ref_p3_ctx(&n), 0));
    if far {
        put(out, bit(ref0 == GOLDEN_FRAME), Cdf::CompRef(single_ref_p5_ctx(&n), 2));
    } else {
        put(out, bit(ref0 == LAST2_FRAME), Cdf::CompRef(single_ref_p4_ctx(&n), 1));
    }
    let is_altref: bool = ref1 == ALTREF_FRAME;
    put(out, bit(is_altref), Cdf::CompBwdRef(single_ref_p2_ctx(&n), 0));
    if !is_altref {
        put(out, bit(ref1 == ALTREF2_FRAME), Cdf::CompBwdRef(single_ref_p6_ctx(&n), 1));
    }
    proof {
        assert(out@ =~= old(out)@ + all);
    }
    Ok(())
}

/// The symbol of whether a block has two references, on a frame whose blocks
/// may.
pub open spec fn comp_mode_ops(
    on: bool,
    b: neighbours::Bands,
    mi_r: int,
    mi_c: int,
    compound: bool,
) -> Seq<Op> {
    if on {
        let (above, left) = sides(b, mi_r, mi_c);
        seq![
            ops::symbol(
                ops::flag(compound),
                Cdf::CompMode(spec_reference_mode_ctx(above, left) as usize),
            ),
        ]
    } else {
        Seq::empty()
    }
}

/// Writes whether a block has two references, on a frame whose blocks may.
pub fn write_comp_mode(
    out: &mut Vec<Op>,
    on: bool,
    neighbours: &Neighbours,
    mi: (usize, usize),
    compound: bool,
)
    requires
        mi.0 < neighbours@.left.len(),
        mi.1 < neighbours@.above.len(),
    ensures
        final(out)@ == old(out)@ + comp_mode_ops(
            on,
            neighbours@,
            mi.0 as int,
            mi.1 as int,
            compound,
        ),
{
    if on {
        let (above, left): (Option<NeighbourRef>, Option<NeighbourRef>) = neighbours.sides(mi);
        put(out, bit(compound), Cdf::CompMode(reference_mode_ctx(above, left)));
    }
    proof {
        assert(out@ =~= old(out)@ + comp_mode_ops(
            on,
            neighbours@,
            mi.0 as int,
            mi.1 as int,
            compound,
        ));
    }
}

/// The bits a single reference's name is coded in.
pub open spec fn name_bits(r: i8) -> Seq<bool> {
    if r >= BWDREF_FRAME {
        if r == ALTREF_FRAME {
            seq![true, true]
        } else {
            seq![true, false, r == ALTREF2_FRAME]
        }
    } else if r == LAST3_FRAME || r == GOLDEN_FRAME {
        seq![false, true, r == GOLDEN_FRAME]
    } else {
        seq![false, false, r == LAST2_FRAME]
    }
}

/// The reference that name bits spell.
pub open spec fn read_name(bits: Seq<bool>) -> int {
    if bits[0] {
        if bits[1] {
            7
        } else if bits[2] {
            6
        } else {
            5
        }
    } else if bits[1] {
        if bits[2] {
            4
        } else {
            3
        }
    } else if bits[2] {
        2
    } else {
        1
    }
}

/// Every reference's name reads back from its bits, which are the values the
/// symbols carry.
pub proof fn reference_names_read_back(r: i8, n: NamedRefs)
    requires
        1 <= r <= 7,
    ensures
        read_name(name_bits(r)) == r,
        single_ref_ops(r, n).len() == name_bits(r).len() + 1,
        forall|i: int|
            0 <= i < name_bits(r).len() ==> (#[trigger] single_ref_ops(r, n)[i + 1] matches Op::Symbol {
                value,
                ..
            } && value == ops::flag(name_bits(r)[i])),
{
}

} // verus!
