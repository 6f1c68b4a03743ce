//! The walk of an optimising quantizer: which level is tried one step nearer to
//! zero next, and what becomes of the block when the step is taken or not. What
//! a step is worth is the caller's to say.
use crate::tile::scan;
use crate::tile::scan::{scan_of, TxClass};
use crate::transform::tx_type::TxType;
use vstd::prelude::*;

verus! {

/// The largest level that is tried lower.
pub const RDOQ_MAX_LEVEL: u32 = 2;

/// The most steps one block is tried with.
pub const RDOQ_BUDGET: u32 = 24;

/// A block while its levels are tried.
pub struct Rdoq {
    /// The block's levels, row by row.
    pub levels: Vec<i32>,
    /// Its side.
    pub side: usize,
    /// The side of its coded corner.
    pub coded: usize,
    /// The corner's scan.
    pub order: Vec<u16>,
    /// How much of the scan is left, from its start.
    pub at: usize,
    /// How many more steps may be tried.
    pub budget: u32,
    /// The largest level that is tried lower.
    pub max_level: u32,
    /// The level that is tried lower now: where it is and what it was.
    pub pending: Option<(usize, i32)>,
}

/// A block while its levels are tried, as values.
#[verifier::ext_equal]
pub struct RdoqView {
    /// Its levels.
    pub levels: Seq<i32>,
    /// Where each step of the scan lies among them.
    pub places: Seq<int>,
    /// How much of the scan is left.
    pub at: int,
    /// How many more steps may be tried.
    pub budget: int,
    /// The largest level that is tried lower.
    pub max_level: int,
    /// The level that is tried lower now.
    pub pending: Option<(int, i32)>,
}

/// Where a position of the coded corner lies in the block.
pub open spec fn place(p: int, side: int, coded: int) -> int {
    (p / coded) * side + p % coded
}

/// Where each step of a scan lies in the block.
pub open spec fn places(order: Seq<int>, side: int, coded: int) -> Seq<int> {
    Seq::new(order.len(), |k: int| place(order[k], side, coded))
}

impl View for Rdoq {
    type V = RdoqView;

    open spec fn view(&self) -> RdoqView {
        RdoqView {
            levels: self.levels@,
            places: places(
                scan::positions(self.order@),
                self.side as int,
                self.coded as int,
            ),
            at: self.at as int,
            budget: self.budget as int,
            max_level: self.max_level as int,
            pending: match self.pending {
                Some(p) => Some((p.0 as int, p.1)),
                None => None,
            },
        }
    }
}

/// Whether a walk stays inside its block.
pub open spec fn is_walk(v: RdoqView) -> bool {
    &&& 0 <= v.at <= v.places.len()
    &&& 0 <= v.budget
    &&& 0 <= v.max_level
    &&& forall|k: int|
        0 <= k < v.places.len() ==> 0 <= #[trigger] v.places[k] < v.levels.len()
    &&& v.pending matches Some(p) ==> {
        &&& 1 <= v.at
        &&& v.places[v.at - 1] == p.0
        &&& is_candidate(p.1, v.max_level)
        &&& v.levels[p.0] == lowered(p.1)
    }
}

/// Whether a block's sides are a transform's.
pub open spec fn is_rdoq(r: Rdoq) -> bool {
    &&& 1 <= r.coded <= r.side <= 64
    &&& r.levels@.len() == r.side * r.side
    &&& is_walk(r@)
}

/// Whether a level is tried lower.
pub open spec fn is_candidate(level: i32, max_level: int) -> bool {
    level != 0 && -max_level <= level <= max_level
}

/// A level one step nearer to zero.
pub open spec fn lowered(level: i32) -> i32 {
    if level > 0 {
        (level - 1) as i32
    } else if level < 0 {
        (level + 1) as i32
    } else {
        level
    }
}

/// How far into the scan its last candidate among the first `count` steps lies;
/// zero where there is none.
pub open spec fn last_candidate(v: RdoqView, count: int) -> int
    decreases count,
{
    if count <= 0 {
        0
    } else if is_candidate(v.levels[v.places[count - 1]], v.max_level) {
        count
    } else {
        last_candidate(v, count - 1)
    }
}

/// Whether nothing is left to try.
pub open spec fn is_over(v: RdoqView) -> bool {
    v.budget == 0 || last_candidate(v, v.at) == 0
}

/// The walk with its last candidate tried one step lower.
pub open spec fn proposed(v: RdoqView) -> RdoqView {
    if is_over(v) {
        v
    } else {
        let k = last_candidate(v, v.at);
        let i = v.places[k - 1];
        RdoqView {
            levels: v.levels.update(i, lowered(v.levels[i])),
            at: k,
            budget: v.budget - 1,
            pending: Some((i, v.levels[i])),
            ..v
        }
    }
}

/// The walk after a step was found better or not: a step not taken is undone,
/// and its place not tried again.
pub open spec fn answered(v: RdoqView, better: bool) -> RdoqView {
    match v.pending {
        Some(p) => if better {
            RdoqView { pending: None, ..v }
        } else {
            RdoqView {
                levels: v.levels.update(p.0, p.1),
                at: v.at - 1,
                pending: None,
                ..v
            }
        },
        None => v,
    }
}

/// The walk after the first `count` answers.
pub open spec fn walked(v: RdoqView, answers: Seq<bool>, count: int) -> RdoqView
    decreases count,
{
    if count <= 0 {
        v
    } else {
        answered(proposed(walked(v, answers, count - 1)), answers[count - 1])
    }
}

proof fn lemma_last_candidate(v: RdoqView, count: int)
    requires
        0 <= count <= v.places.len(),
    ensures
        0 <= last_candidate(v, count) <= count,
        last_candidate(v, count) > 0 ==> is_candidate(
            v.levels[v.places[last_candidate(v, count) - 1]],
            v.max_level,
        ),
    decreases count,
{
    if count > 0 {
        lemma_last_candidate(v, count - 1);
    }
}

proof fn lemma_step(v: RdoqView, better: bool)
    requires
        is_walk(v),
        v.pending is None,
    ensures
        is_walk(proposed(v)),
        is_walk(answered(proposed(v), better)),
        answered(proposed(v), better).pending is None,
        is_over(v) ==> answered(proposed(v), better) == v,
        !is_over(v) ==> answered(proposed(v), better).budget == v.budget - 1,
{
    lemma_last_candidate(v, v.at);
}

/// Whether a level is as it was or nearer to zero on the same side.
pub open spec fn is_nearer(now: i32, was: i32) -> bool {
    &&& was >= 0 ==> 0 <= now <= was
    &&& was <= 0 ==> was <= now <= 0
}

/// Whatever the answers, a walk only moves levels towards zero, and leaves
/// those above the largest it tries alone.
pub proof fn levels_only_shrink(v: RdoqView, answers: Seq<bool>, count: int, p: int)
    requires
        is_walk(v),
        v.pending is None,
        0 <= count,
        0 <= p < v.levels.len(),
    ensures
        is_walk(walked(v, answers, count)),
        walked(v, answers, count).pending is None,
        walked(v, answers, count).levels.len() == v.levels.len(),
        walked(v, answers, count).places == v.places,
        walked(v, answers, count).max_level == v.max_level,
        is_nearer(walked(v, answers, count).levels[p], v.levels[p]),
        !is_candidate(v.levels[p], v.max_level) ==> walked(v, answers, count).levels[p]
            == v.levels[p],
    decreases count,
{
    if count > 0 {
        levels_only_shrink(v, answers, count - 1, p);
        let before = walked(v, answers, count - 1);
        lemma_step(before, answers[count - 1]);
        lemma_last_candidate(before, before.at);
    }
}

/// A walk is over after as many answers as it has steps, at the latest.
pub proof fn walks_end_within_their_budget(v: RdoqView, answers: Seq<bool>, count: int)
    requires
        is_walk(v),
        v.pending is None,
        0 <= count,
    ensures
        is_walk(walked(v, answers, count)),
        walked(v, answers, count).pending is None,
        is_over(walked(v, answers, count)) || walked(v, answers, count).budget == v.budget
            - count,
        count >= v.budget ==> is_over(walked(v, answers, count)),
    decreases count,
{
    if count > 0 {
        walks_end_within_their_budget(v, answers, count - 1);
        lemma_step(walked(v, answers, count - 1), answers[count - 1]);
    }
}

proof fn lemma_place(p: int, side: int, coded: int)
    requires
        1 <= coded <= side,
        0 <= p < coded * coded,
    ensures
        0 <= p / coded < coded,
        0 <= p % coded < coded,
        0 <= place(p, side, coded) < side * side,
{
    vstd::arithmetic::div_mod::lemma_fundamental_div_mod(p, coded);
    let r = p / coded;
    let c = p % coded;
    assert(0 <= r < coded) by (nonlinear_arith)
        requires
            p == coded * r + c,
            0 <= c < coded,
            0 <= p < coded * coded,
    ;
    assert(0 <= r * side + c < side * side) by (nonlinear_arith)
        requires
            0 <= r < coded,
            0 <= c < coded,
            coded <= side,
    ;
}

impl Rdoq {
    /// A walk over a block of levels that its type's scan orders, from the end
    /// of the scan backwards.
    pub fn new(
        levels: Vec<i32>,
        side: usize,
        tx_type: TxType,
        budget: u32,
        max_level: u32,
    ) -> (r: Rdoq)
        requires
            1 <= side <= 64,
            levels@.len() == side * side,
        ensures
            is_rdoq(r),
            r.side == side,
            r.coded == if side < 32 {
                side
            } else {
                32
            },
            r@ == (RdoqView {
                levels: levels@,
                places: places(
                    scan::scan_for(r.coded as int, scan::class_of(tx_type)),
                    side as int,
                    r.coded as int,
                ),
                at: r.coded * r.coded,
                budget: budget as int,
                max_level: max_level as int,
                pending: None,
            }),
    {
        let coded: usize = if side < 32 {
            side
        } else {
            32
        };
        let class: TxClass = TxClass::of(tx_type);
        let order: Vec<u16> = scan_of(coded, class);
        proof {
            scan::scans_stay_inside(coded as int, class);
            assert(scan::positions(order@).len() == order@.len());
            assert forall|k: int| 0 <= k < order@.len() implies 0 <= place(
                #[trigger] scan::positions(order@)[k],
                side as int,
                coded as int,
            ) < side * side by {
                lemma_place(scan::positions(order@)[k], side as int, coded as int);
            }
            assert(coded * coded <= 4096) by (nonlinear_arith)
                requires
                    coded <= 32,
            ;
        }
        let at: usize = coded * coded;
        Rdoq { levels, side, coded, order, at, budget, max_level, pending: None }
    }

    /// Tries the last candidate one step lower, and says where it is and what
    /// is tried; nothing where the walk is over.
    pub fn propose(&mut self) -> (r: Option<(usize, i32)>)
        requires
            is_rdoq(*old(self)),
            old(self).pending is None,
        ensures
            is_rdoq(*final(self)),
            final(self).side == old(self).side,
            final(self).coded == old(self).coded,
            final(self)@ == proposed(old(self)@),
            r is None == is_over(old(self)@),
            r matches Some(x) ==> final(self).pending matches Some(p) && p.0 == x.0
                && final(self).levels@[x.0 as int] == x.1 && x.1 == lowered(p.1),
    {
        let ghost start = self@;
        if self.budget == 0 {
            return None;
        }
        let max: i64 = self.max_level as i64;
        let mut k: usize = self.at;
        while k > 0
            invariant
                is_rdoq(*self),
                self@ == start,
                self == old(self),
                start == old(self)@,
                start.pending is None,
                start.budget > 0,
                max == self.max_level,
                k <= self.at,
                last_candidate(start, start.at) == last_candidate(start, k as int),
            decreases k,
        {
            let p: usize = self.order[k - 1] as usize;
            proof {
                assert(start.places[k - 1] == place(
                    p as int,
                    self.side as int,
                    self.coded as int,
                ));
                assert(self.side * self.side <= 4096) by (nonlinear_arith)
                    requires
                        self.side <= 64,
                ;
                assert((p as int / self.coded as int) * self.side >= 0) by (nonlinear_arith)
                    requires
                        p as int / self.coded as int >= 0,
                ;
            }
            let i: usize = (p / self.coded) * self.side + p % self.coded;
            let level: i32 = self.levels[i];
            let wide: i64 = level as i64;
            if level != 0 && -max <= wide && wide <= max {
                let next: i32 = if level > 0 {
                    level - 1
                } else {
                    level + 1
                };
                self.levels.set(i, next);
                self.at = k;
                self.budget = self.budget - 1;
                self.pending = Some((i, level));
                proof {
                    assert(self@ =~= proposed(start));
                }
                return Some((i, next));
            }
            k -= 1;
        }
        None
    }

    /// Keeps the step that was tried where it was found better, and undoes it
    /// where it was not.
    pub fn answer(&mut self, better: bool)
        requires
            is_rdoq(*old(self)),
            old(self).pending is Some,
        ensures
            is_rdoq(*final(self)),
            final(self).side == old(self).side,
            final(self).coded == old(self).coded,
            final(self).pending is None,
            final(self)@ == answered(old(self)@, better),
    {
        if let Some((i, level)) = self.pending {
            if !better {
                self.levels.set(i, level);
                self.at = self.at - 1;
            }
            self.pending = None;
        }
        proof {
            assert(self@ =~= answered(old(self)@, better));
        }
    }
}

/// A proposal lowers one level by one towards zero: the last one of the scan, up to where the
/// walk has come, that is not zero and within the limit. A walk without budget or such a
/// level proposes nothing, and an answer of no puts the level back.
pub proof fn proposals_lower_the_last_small_level(v: RdoqView, k: int)
    requires
        is_walk(v),
        v.pending is None,
        0 <= k < v.places.len(),
    ensures
        ({
            let p = proposed(v);
            let small = |i: int| v.levels[i] != 0 && -v.max_level <= v.levels[i] <= v.max_level;
            &&& p.pending is None ==> p == v && (v.budget == 0 || (k < v.at ==> !small(
                v.places[k],
            )))
            &&& p.pending matches Some(q) ==> {
                &&& q.0 == v.places[p.at - 1] && q.1 == v.levels[q.0] && small(q.0)
                &&& 0 < p.at <= v.at && p.budget == v.budget - 1
                &&& p.at <= k < v.at ==> !small(v.places[k])
                &&& q.1 > 0 ==> p.levels[q.0] == q.1 - 1
                &&& q.1 < 0 ==> p.levels[q.0] == q.1 + 1
                &&& forall|i: int|
                    0 <= i < v.levels.len() && i != q.0 ==> #[trigger] p.levels[i] == v.levels[i]
                &&& answered(p, false).levels == v.levels
                &&& answered(p, true).levels == p.levels
            }
        }),
{
    lemma_last_small(v, v.at, k);
    let p = proposed(v);
    if !is_over(v) {
        let n = last_candidate(v, v.at);
        let i = v.places[n - 1];
        assert(0 <= i < v.levels.len());
        assert(p.levels.update(i, v.levels[i]) =~= v.levels);
    }
}

proof fn lemma_last_small(v: RdoqView, count: int, k: int)
    requires
        0 <= count <= v.places.len(),
    ensures
        0 <= last_candidate(v, count) <= count,
        last_candidate(v, count) > 0 ==> is_candidate(
            v.levels[v.places[last_candidate(v, count) - 1]],
            v.max_level,
        ),
        last_candidate(v, count) <= k < count ==> !is_candidate(
            v.levels[v.places[k]],
            v.max_level,
        ),
    decreases count,
{
    if count > 0 {
        lemma_last_small(v, count - 1, k);
    }
}

} // verus!
