//! What the contexts of a block's references mean.
use crate::tile::inter_block;
use crate::tile::neighbour_laws;
use crate::tile::neighbours::Bands;
use crate::tile::ops;
use crate::tile::ops::Cdf;
use crate::tile::refs;
use crate::tile::refs::{NamedRefs, NeighbourRef};
use vstd::prelude::*;

verus! {

/// One where a reference is named and is one of `lo..=hi`.
pub open spec fn one_of(r: Option<i8>, lo: int, hi: int) -> int {
    if r matches Some(x) && lo <= x && x <= hi {
        1
    } else {
        0
    }
}

/// How many of the neighbours' references are among `lo..=hi`.
pub open spec fn among(n: NamedRefs, lo: int, hi: int) -> int {
    one_of(n.above, lo, hi) + one_of(n.left, lo, hi) + one_of(n.above1, lo, hi) + one_of(
        n.left1,
        lo,
        hi,
    )
}

/// Whether a context says which of two counts is larger: 0 for the second, 2 for
/// the first, and 1 for neither.
pub open spec fn compares(ctx: int, first: int, second: int) -> bool {
    &&& ctx == 0 <==> first < second
    &&& ctx == 1 <==> first == second
    &&& ctx == 2 <==> first > second
}

/// Each bit of a reference's name is coded by which of the two groups that it
/// tells apart the neighbours name more often: the four past references against
/// the three future ones, the two nearer future ones against the farthest, the
/// two nearer past ones against the two farther, and each pair against each
/// other.
pub proof fn name_contexts_compare_the_groups(n: NamedRefs)
    ensures
        compares(refs::p1_ctx(n), among(n, 1, 4), among(n, 5, 7)),
        compares(refs::p2_ctx(n), among(n, 5, 6), among(n, 7, 7)),
        compares(refs::p3_ctx(n), among(n, 1, 2), among(n, 3, 4)),
        compares(refs::p4_ctx(n), among(n, 1, 1), among(n, 2, 2)),
        compares(refs::p5_ctx(n), among(n, 3, 3), among(n, 4, 4)),
        compares(refs::p6_ctx(n), among(n, 5, 5), among(n, 6, 6)),
        compares(refs::uni_p1_ctx(n), among(n, 2, 2), among(n, 3, 4)),
{
}

/// The names a block reads are those its two neighbours left: no name of an intra
/// neighbour, and above and left play the same part.
pub proof fn names_come_from_both_neighbours(b: Bands, mi_r: int, mi_c: int, lo: int, hi: int)
    requires
        1 <= lo,
    ensures
        ({
            let n = refs::named_refs(b, mi_r, mi_c);
            let (a, l) = (b.above[mi_c], b.left[mi_r]);
            &&& among(n, lo, hi) == one_of(Some(a.ref0), lo, hi) + one_of(a.ref1, lo, hi) + one_of(
                Some(l.ref0),
                lo,
                hi,
            ) + one_of(l.ref1, lo, hi)
            &&& among(refs::named_refs(neighbour_laws::mirrored(b), mi_c, mi_r), lo, hi) == among(
                n,
                lo,
                hi,
            )
        }),
{
}

/// The bits of a single reference's name, with the table of each: past or future
/// first; then of the future the farthest, or which of the nearer two; of the past
/// which pair, then which of it.
pub proof fn single_names_are_walked_in_order(r: i8, n: NamedRefs)
    requires
        1 <= r <= 7,
    ensures
        ({
            let said = refs::single_ref_ops(r, n);
            let p1 = Cdf::SingleRef(refs::p1_ctx(n) as usize, 0);
            let p2 = Cdf::SingleRef(refs::p2_ctx(n) as usize, 1);
            let p3 = Cdf::SingleRef(refs::p3_ctx(n) as usize, 2);
            let p4 = Cdf::SingleRef(refs::p4_ctx(n) as usize, 3);
            let p5 = Cdf::SingleRef(refs::p5_ctx(n) as usize, 4);
            let p6 = Cdf::SingleRef(refs::p6_ctx(n) as usize, 5);
            let bits = said.drop_first();
            &&& said[0] is Note
            &&& r == 1 ==> bits =~= seq![
                ops::symbol(0, p1),
                ops::symbol(0, p3),
                ops::symbol(0, p4),
            ]
            &&& r == 2 ==> bits =~= seq![
                ops::symbol(0, p1),
                ops::symbol(0, p3),
                ops::symbol(1, p4),
            ]
            &&& r == 3 ==> bits =~= seq![
                ops::symbol(0, p1),
                ops::symbol(1, p3),
                ops::symbol(0, p5),
            ]
            &&& r == 4 ==> bits =~= seq![
                ops::symbol(0, p1),
                ops::symbol(1, p3),
                ops::symbol(1, p5),
            ]
            &&& r == 5 ==> bits =~= seq![
                ops::symbol(1, p1),
                ops::symbol(0, p2),
                ops::symbol(0, p6),
            ]
            &&& r == 6 ==> bits =~= seq![
                ops::symbol(1, p1),
                ops::symbol(0, p2),
                ops::symbol(1, p6),
            ]
            &&& r == 7 ==> bits =~= seq![ops::symbol(1, p1), ops::symbol(1, p2)]
        }),
{
}

/// The bits of a pair's names: a past and a future reference are each walked as a
/// single one is, in tables of their own; a pair of one direction first says
/// whether it is the future one, then the second reference beside the nearest
/// past one.
pub proof fn pair_names_are_walked_in_order(r0: i8, r1: i8, n: NamedRefs)
    requires
        1 <= r0 <= 7,
        1 <= r1 <= 7,
    ensures
        ({
            let said = refs::bi_ops(r0, r1, n);
            &&& r0 <= 4 && r1 >= 5 ==> {
                &&& said[0] == ops::symbol(
                    if r0 >= 3 {
                        1
                    } else {
                        0
                    },
                    Cdf::CompRef(refs::p3_ctx(n) as usize, 0),
                )
                &&& said[1] == if r0 <= 2 {
                    ops::symbol(r0 - 1, Cdf::CompRef(refs::p4_ctx(n) as usize, 1))
                } else {
                    ops::symbol(r0 - 3, Cdf::CompRef(refs::p5_ctx(n) as usize, 2))
                }
                &&& said[2] == ops::symbol(
                    if r1 == 7 {
                        1
                    } else {
                        0
                    },
                    Cdf::CompBwdRef(refs::p2_ctx(n) as usize, 0),
                )
                &&& r1 == 7 ==> said.len() == 3
                &&& r1 < 7 ==> said.len() == 4 && said[3] == ops::symbol(
                    r1 - 5,
                    Cdf::CompBwdRef(refs::p6_ctx(n) as usize, 1),
                )
            }
        }),
        ({
            let said = refs::uni_ops(r0, r1, n);
            let first = Cdf::UniCompRef(refs::p1_ctx(n) as usize, 0);
            let second = Cdf::UniCompRef(refs::uni_p1_ctx(n) as usize, 1);
            let third = Cdf::UniCompRef(refs::p5_ctx(n) as usize, 2);
            &&& r0 == 5 && r1 == 7 ==> said =~= seq![ops::symbol(1, first)]
            &&& r0 == 1 && r1 == 2 ==> said =~= seq![ops::symbol(0, first), ops::symbol(0, second)]
            &&& r0 == 1 && r1 == 3 ==> said =~= seq![
                ops::symbol(0, first),
                ops::symbol(1, second),
                ops::symbol(0, third),
            ]
            &&& r0 == 1 && r1 == 4 ==> said =~= seq![
                ops::symbol(0, first),
                ops::symbol(1, second),
                ops::symbol(1, third),
            ]
        }),
        refs::pair_fault(r0, r1) is None <==> (r0 <= 4) != (r1 <= 4) || r0 == 5 && r1 == 7 || r0
            == 1 && r1 <= 4,
{
}

/// What a block that has a neighbour reads of it.
pub open spec fn is_single(n: NeighbourRef) -> bool {
    n.ref1 is None
}

/// Whether a neighbour's first reference is a future one.
pub open spec fn is_future(n: NeighbourRef) -> bool {
    n.ref0 >= 5
}

/// The context of whether a block has two references. With both neighbours: 4
/// where both have two; where one has, 3 if the other is intra or of the future,
/// else 2; where neither has, 1 if just one of them is of the future, else 0. With
/// one: 3 if it has two, else whether it is of the future. With none: 1. The two
/// neighbours play the same part.
pub proof fn pairing_contexts_go_by_the_neighbours(a: NeighbourRef, l: NeighbourRef)
    ensures
        ({
            let both = refs::spec_reference_mode_ctx(Some(a), Some(l));
            &&& both == 4 <==> !is_single(a) && !is_single(l)
            &&& both == 3 <==> is_single(a) && !is_single(l) && (is_future(a) || !a.is_inter)
                || is_single(l) && !is_single(a) && (is_future(l) || !l.is_inter)
            &&& both == 2 <==> is_single(a) && !is_single(l) && !is_future(a) && a.is_inter
                || is_single(l) && !is_single(a) && !is_future(l) && l.is_inter
            &&& both == 1 <==> is_single(a) && is_single(l) && is_future(a) != is_future(l)
            &&& both == 0 <==> is_single(a) && is_single(l) && is_future(a) == is_future(l)
            &&& both == refs::spec_reference_mode_ctx(Some(l), Some(a))
        }),
        ({
            let one = refs::spec_reference_mode_ctx(Some(a), None);
            &&& one == 3 <==> !is_single(a)
            &&& one == 1 <==> is_single(a) && is_future(a)
            &&& one == 0 <==> is_single(a) && !is_future(a)
            &&& one == refs::spec_reference_mode_ctx(None, Some(a))
        }),
        refs::spec_reference_mode_ctx(None, None) == 1,
{
}

/// The context of whether a pair is of one direction, by what the neighbours have:
/// two pairs of one direction each read 4 if both or neither start with the nearest
/// future reference and 3 if just one does; two of both directions 0, and one of
/// each 2. A pair beside a single reference reads 1 if it is of both directions,
/// else 4 or 3 by whether the two start in the same direction. Two single
/// references read 3 or 1 by that. Beside an intra block a pair reads 3 or 1 by
/// whether it is of one direction, and a single reference 2; alone, 4, 0 and 2.
/// Without any reference it is 2. The two neighbours play the same part.
pub proof fn direction_contexts_go_by_the_neighbours(a: NeighbourRef, l: NeighbourRef)
    ensures
        ({
            let both = refs::spec_comp_reference_type_ctx(Some(a), Some(l));
            let same = is_future(a) == is_future(l);
            &&& both == refs::spec_comp_reference_type_ctx(Some(l), Some(a))
            &&& !a.is_inter && !l.is_inter ==> both == 2
            &&& a.is_inter && !l.is_inter && is_single(a) ==> both == 2
            &&& a.is_inter && !l.is_inter && !is_single(a) && a.uni ==> both == 3
            &&& a.is_inter && !l.is_inter && !is_single(a) && !a.uni ==> both == 1
            &&& a.is_inter && l.is_inter && is_single(a) && is_single(l) && same ==> both == 3
            &&& a.is_inter && l.is_inter && is_single(a) && is_single(l) && !same ==> both == 1
            &&& a.is_inter && l.is_inter && is_single(a) && !is_single(l) && !l.uni ==> both == 1
            &&& a.is_inter && l.is_inter && is_single(a) && !is_single(l) && l.uni && same
                ==> both == 4
            &&& a.is_inter && l.is_inter && is_single(a) && !is_single(l) && l.uni && !same
                ==> both == 3
            &&& a.is_inter && l.is_inter && !is_single(a) && !is_single(l) ==> {
                &&& !a.uni && !l.uni ==> both == 0
                &&& a.uni != l.uni ==> both == 2
                &&& a.uni && l.uni && (a.ref0 == 5) == (l.ref0 == 5) ==> both == 4
                &&& a.uni && l.uni && (a.ref0 == 5) != (l.ref0 == 5) ==> both == 3
            }
        }),
        ({
            let one = refs::spec_comp_reference_type_ctx(Some(a), None);
            &&& one == refs::spec_comp_reference_type_ctx(None, Some(a))
            &&& !a.is_inter || is_single(a) ==> one == 2
            &&& a.is_inter && !is_single(a) && a.uni ==> one == 4
            &&& a.is_inter && !is_single(a) && !a.uni ==> one == 0
        }),
        refs::spec_comp_reference_type_ctx(None, None) == 2,
{
}

/// A neighbour is there for a block's pairing contexts exactly where it lies in
/// the same tile, and is of one direction exactly where its two references are
/// both past or both future.
pub proof fn neighbours_are_there_inside_the_tile(b: Bands, mi_r: int, mi_c: int)
    ensures
        ({
            let (above, left) = refs::sides(b, mi_r, mi_c);
            let (a, l) = (b.above[mi_c], b.left[mi_r]);
            &&& above is Some <==> mi_r > b.row0
            &&& left is Some <==> mi_c > b.col0
            &&& above matches Some(n) ==> {
                &&& n.is_inter == a.inter && n.ref1 == a.ref1
                &&& a.inter ==> n.ref0 == a.ref0
                &&& a.inter && a.ref1 is Some ==> n.uni == ((a.ref0 >= 5) == (a.ref1->0 >= 5))
                &&& a.ref1 is None ==> !n.uni
            }
            &&& left matches Some(n) ==> {
                &&& n.is_inter == l.inter && n.ref1 == l.ref1
                &&& l.inter ==> n.ref0 == l.ref0
                &&& l.inter && l.ref1 is Some ==> n.uni == ((l.ref0 >= 5) == (l.ref1->0 >= 5))
                &&& l.ref1 is None ==> !n.uni
            }
        }),
{
}

/// The context of whether a block is predicted from another frame: 3 where both
/// neighbours are intra, 1 where one of the two is and 0 where neither is; beside
/// one alone, 2 where it is intra; and 0 with none.
pub proof fn inter_contexts_count_intra_neighbours(above: bool, left: bool)
    ensures
        ({
            let both = inter_block::spec_intra_inter_ctx(true, true, above, left);
            &&& both == 3 <==> !above && !left
            &&& both == 1 <==> above != left
            &&& both == 0 <==> above && left
        }),
        inter_block::spec_intra_inter_ctx(true, false, above, left) == 2 <==> !above,
        inter_block::spec_intra_inter_ctx(true, false, above, left) == 0 <==> above,
        inter_block::spec_intra_inter_ctx(false, true, above, left) == 2 <==> !left,
        inter_block::spec_intra_inter_ctx(false, true, above, left) == 0 <==> left,
        inter_block::spec_intra_inter_ctx(false, false, above, left) == 0,
{
}

} // verus!
