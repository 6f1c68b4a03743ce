//! The four quarters of a split block.
use crate::tile::plans::FramePlan;
use vstd::prelude::*;

verus! {

/// The first unit row of quarter `i` of a block whose half is `half` units.
pub open spec fn child_r(mi_r: int, half: int, i: int) -> int {
    if i < 2 {
        mi_r
    } else {
        mi_r + half
    }
}

/// Its first unit column.
pub open spec fn child_c(mi_c: int, half: int, i: int) -> int {
    if i == 0 || i == 2 {
        mi_c
    } else {
        mi_c + half
    }
}

/// Whether quarter `i` starts inside the frame.
pub open spec fn is_inside(plan: FramePlan, mi_r: int, mi_c: int, half: int, i: int) -> bool {
    child_r(mi_r, half, i) < plan.mi_rows && child_c(mi_c, half, i) < plan.mi_cols
}

/// How many of the first `i` quarters start inside the frame.
pub open spec fn inside_before(
    plan: FramePlan,
    mi_r: int,
    mi_c: int,
    half: int,
    i: int,
) -> int
    decreases i,
{
    if i <= 0 {
        0
    } else {
        inside_before(plan, mi_r, mi_c, half, i - 1) + if is_inside(
            plan,
            mi_r,
            mi_c,
            half,
            i - 1,
        ) {
            1int
        } else {
            0int
        }
    }
}

/// How many quarters start inside the frame.
pub open spec fn inside(plan: FramePlan, mi_r: int, mi_c: int, half: int) -> int {
    inside_before(plan, mi_r, mi_c, half, 4)
}

pub proof fn lemma_inside_before(
    plan: FramePlan,
    mi_r: int,
    mi_c: int,
    half: int,
    i: int,
)
    requires
        0 <= i <= 4,
    ensures
        0 <= inside_before(plan, mi_r, mi_c, half, i) <= i,
        inside_before(plan, mi_r, mi_c, half, i) <= inside(plan, mi_r, mi_c, half),
        i < 4 && is_inside(plan, mi_r, mi_c, half, i) ==> inside_before(
            plan,
            mi_r,
            mi_c,
            half,
            i,
        ) < inside(plan, mi_r, mi_c, half),
{
    reveal_with_fuel(inside_before, 5);
}

/// Where quarter `i` of a block starts, whose half is `half` units.
pub fn child_at(mi: (u32, u32), half: u32, i: u32) -> (r: (u32, u32))
    requires
        i < 4,
        mi.0 + half <= u32::MAX,
        mi.1 + half <= u32::MAX,
    ensures
        r.0 == child_r(mi.0 as int, half as int, i as int),
        r.1 == child_c(mi.1 as int, half as int, i as int),
{
    (
        if i < 2 {
            mi.0
        } else {
            mi.0 + half
        },
        if i == 0 || i == 2 {
            mi.1
        } else {
            mi.1 + half
        },
    )
}

/// Whether quarter `i` starts inside the frame.
pub fn child_inside(plan: &FramePlan, mi_r: u32, mi_c: u32, half: u32, i: u32) -> (r: bool)
    requires
        i < 4,
        mi_r + half <= u32::MAX,
        mi_c + half <= u32::MAX,
    ensures
        r == is_inside(*plan, mi_r as int, mi_c as int, half as int, i as int),
{
    let (r, c): (u32, u32) = child_at((mi_r, mi_c), half, i);
    r < plan.mi_rows && c < plan.mi_cols
}

/// How many quarters start inside the frame.
pub fn children_inside(plan: &FramePlan, mi_r: u32, mi_c: u32, half: u32) -> (n: usize)
    requires
        mi_r + half <= u32::MAX,
        mi_c + half <= u32::MAX,
    ensures
        n == inside(*plan, mi_r as int, mi_c as int, half as int),
        n <= 4,
{
    let mut n: usize = 0;
    let mut i: u32 = 0;
    while i < 4
        invariant
            i <= 4,
            n <= i,
            mi_r + half <= u32::MAX,
            mi_c + half <= u32::MAX,
            n == inside_before(*plan, mi_r as int, mi_c as int, half as int, i as int),
        decreases 4 - i,
    {
        if child_inside(plan, mi_r, mi_c, half, i) {
            n += 1;
        }
        i += 1;
    }
    n
}

} // verus!
