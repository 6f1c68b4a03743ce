//! What a decoder reads back of a transform block: every level, and nothing of
//! what comes after it.
use crate::bits;
use crate::tile::coeffs;
use crate::tile::coeffs::{TxbCoding, EOB_LOW_BITS, EOB_TOP};
use crate::tile::context;
use crate::tile::golomb;
use crate::tile::levels;
use crate::tile::levels::MAX_BR_LEVEL;
use crate::tile::neighbours::Bands;
use crate::tile::ops;
use crate::tile::ops::{Op, TxbSet};
use crate::tile::plans::FramePlan;
use crate::tile::residual;
use crate::tile::residual::PlaneSets;
use crate::tile::scan;
use crate::tile::scan::TxClass;
use crate::transform::tx_type::TxType;
use vstd::prelude::*;

verus! {

/// Two sequences that start with parts of one length agree in both parts.
pub proof fn lemma_parts(p: Seq<Op>, x: Seq<Op>, q: Seq<Op>, y: Seq<Op>)
    requires
        p + x == q + y,
        p.len() == q.len(),
    ensures
        p == q,
        x == y,
{
    assert forall|i: int| 0 <= i < p.len() implies p[i] == q[i] by {
        assert((p + x)[i] == p[i]);
        assert((q + y)[i] == q[i]);
    }
    assert(p =~= q);
    assert((p + x).len() == p.len() + x.len());
    assert((q + y).len() == q.len() + y.len());
    assert forall|i: int| 0 <= i < x.len() implies x[i] == y[i] by {
        assert((p + x)[p.len() + i] == x[i]);
        assert((q + y)[q.len() + i] == y[i]);
    }
    assert(x =~= y);
}

/// Two sequences that end in the same part agree before it.
pub proof fn lemma_before(a: Seq<Op>, b: Seq<Op>, x: Seq<Op>)
    requires
        a + x == b + x,
    ensures
        a == b,
{
    assert((a + x).len() == a.len() + x.len());
    assert((b + x).len() == b.len() + x.len());
    lemma_parts(a, x, b, x);
}

/// What a decoder sees of a sequence: all but its marks.
pub open spec fn coded(s: Seq<Op>) -> Seq<Op>
    decreases s.len(),
{
    if s.len() == 0 {
        Seq::empty()
    } else {
        let before = coded(s.drop_last());
        if s.last() is Note {
            before
        } else {
            before.push(s.last())
        }
    }
}

/// What a decoder sees of two sequences in turn is what it sees of each.
pub proof fn marks_are_not_coded(a: Seq<Op>, b: Seq<Op>)
    ensures
        coded(a + b) == coded(a) + coded(b),
    decreases b.len(),
{
    if b.len() == 0 {
        assert(a + b =~= a);
        assert(coded(a) + coded(b) =~= coded(a));
    } else {
        marks_are_not_coded(a, b.drop_last());
        assert((a + b).drop_last() =~= a + b.drop_last());
        assert((a + b).last() == b.last());
        assert(coded(a + b) =~= coded(a) + coded(b));
    }
}

/// A decoder sees all of a sequence without marks.
pub proof fn lemma_unmarked(s: Seq<Op>)
    requires
        forall|i: int| 0 <= i < s.len() ==> !(#[trigger] s[i] is Note),
    ensures
        coded(s) == s,
    decreases s.len(),
{
    if s.len() > 0 {
        assert forall|i: int| 0 <= i < s.drop_last().len() implies !(#[trigger] s.drop_last()[i]
            is Note) by {
            assert(s.drop_last()[i] == s[i]);
        }
        lemma_unmarked(s.drop_last());
        assert(s.drop_last().push(s.last()) =~= s);
    }
}

/// A decoder does not see a mark.
pub proof fn lemma_mark(s: Seq<Op>, op: Op)
    requires
        op is Note,
    ensures
        coded(s.push(op)) == coded(s),
{
    assert(s.push(op).drop_last() =~= s);
}

/// No Golomb tail starts another: two that are read from the same bits are one.
pub proof fn golomb_tails_end_themselves(v: int, w: int, x: Seq<Op>, y: Seq<Op>)
    requires
        0 <= v,
        0 <= w,
        golomb::golomb_ops(v) + x == golomb::golomb_ops(w) + y,
    ensures
        v == w,
        x == y,
{
    lemma_shorter_tail(v, w, x, y);
    lemma_shorter_tail(w, v, y, x);
    lemma_parts(golomb::golomb_ops(v), x, golomb::golomb_ops(w), y);
    golomb::golomb_tail_reads_back(v);
    golomb::golomb_tail_reads_back(w);
}

proof fn lemma_shorter_tail(v: int, w: int, x: Seq<Op>, y: Seq<Op>)
    requires
        0 <= v,
        0 <= w,
        golomb::golomb_ops(v) + x == golomb::golomb_ops(w) + y,
    ensures
        golomb::bit_length(v + 1) >= golomb::bit_length(w + 1),
{
    let lv = golomb::bit_length(v + 1);
    let lw = golomb::bit_length(w + 1);
    golomb::bit_length_is_tight(v + 1);
    golomb::bit_length_is_tight(w + 1);
    if lv < lw {
        let p = bits::pow2((lv - 1) as nat);
        assert(bits::pow2(lv as nat) == 2 * p);
        bits::lemma_quotient(v + 1, p, 1);
        assert(golomb::bit_of(v + 1, lv - 1) == 1);
        assert(golomb::golomb_ops(v)[lv - 1] == ops::literal(1, 1));
        assert(golomb::golomb_ops(w)[lv - 1] == ops::literal(0, 1));
        assert((golomb::golomb_ops(v) + x)[lv - 1] == golomb::golomb_ops(v)[lv - 1]);
        assert((golomb::golomb_ops(w) + y)[lv - 1] == golomb::golomb_ops(w)[lv - 1]);
    }
}

/// The end-of-block symbols end themselves.
proof fn lemma_eob(set: TxbSet, a: int, b: int, class: TxClass, x: Seq<Op>, y: Seq<Op>)
    requires
        1 <= a <= 1024,
        1 <= b <= 1024,
        coeffs::eob_ops(set, a, class) + x == coeffs::eob_ops(set, b, class) + y,
    ensures
        a == b,
        x == y,
{
    coeffs::eob_reads_back(a);
    coeffs::eob_reads_back(b);
    let oa = coeffs::eob_ops(set, a, class);
    let ob = coeffs::eob_ops(set, b, class);
    let ga = coeffs::eob_group(a, 11);
    let gb = coeffs::eob_group(b, 11);
    assert((oa + x)[0] == oa[0]);
    assert((ob + y)[0] == ob[0]);
    assert(ga == gb);
    lemma_parts(oa, x, ob, y);
    if EOB_TOP[ga] != 0 {
        assert(oa[1] == ob[1]);
        if EOB_LOW_BITS[ga] != 0 {
            assert(oa[2] == ob[2]);
            assert(EOB_TOP[ga] <= 256);
        } else {
            assert(EOB_TOP[ga] == 1);
        }
    }
}

/// What the magnitude symbols of a level say of it: all of it up to fourteen.
pub open spec fn heard(level: int) -> int {
    context::min(context::abs(level), MAX_BR_LEVEL + 1)
}

proof fn lemma_br_index(set: TxbSet, a: int, ctx: int, j: int)
    requires
        3 <= a,
        0 <= j < coeffs::br_count(a),
    ensures
        coeffs::br_ops(set, a, ctx)[j] == ops::symbol(
            coeffs::br_step(a, j),
            coeffs::txb(set, ops::TxbTable::Br(ctx as usize)),
        ),
        0 <= coeffs::br_step(a, j) <= 3,
        j < coeffs::br_count(a) - 1 ==> coeffs::br_step(a, j) == 3,
        j == coeffs::br_count(a) - 1 && a < 15 ==> coeffs::br_step(a, j) < 3,
{
}

proof fn lemma_br_no_longer(
    set: TxbSet,
    a: int,
    b: int,
    ca: int,
    cb: int,
    x: Seq<Op>,
    y: Seq<Op>,
)
    requires
        3 <= a,
        3 <= b,
        coeffs::br_ops(set, a, ca) + x == coeffs::br_ops(set, b, cb) + y,
    ensures
        coeffs::br_count(a) >= coeffs::br_count(b),
{
    let na = coeffs::br_count(a);
    let nb = coeffs::br_count(b);
    if na < nb {
        let j = na - 1;
        lemma_br_index(set, a, ca, j);
        lemma_br_index(set, b, cb, j);
        let oa = coeffs::br_ops(set, a, ca);
        let ob = coeffs::br_ops(set, b, cb);
        assert((oa + x)[j] == oa[j]);
        assert((ob + y)[j] == ob[j]);
    }
}

/// The base-range tail ends itself.
proof fn lemma_br(set: TxbSet, a: int, b: int, ca: int, cb: int, x: Seq<Op>, y: Seq<Op>)
    requires
        3 <= a,
        3 <= b,
        coeffs::br_ops(set, a, ca) + x == coeffs::br_ops(set, b, cb) + y,
    ensures
        context::min(a, 15) == context::min(b, 15),
        x == y,
{
    lemma_br_no_longer(set, a, b, ca, cb, x, y);
    lemma_br_no_longer(set, b, a, cb, ca, y, x);
    let oa = coeffs::br_ops(set, a, ca);
    let ob = coeffs::br_ops(set, b, cb);
    lemma_parts(oa, x, ob, y);
    let j = coeffs::br_count(a) - 1;
    lemma_br_index(set, a, ca, j);
    lemma_br_index(set, b, cb, j);
    assert(oa[j] == ob[j]);
}

/// One level's magnitude symbols end themselves.
proof fn lemma_level(
    set: TxbSet,
    a: Seq<i32>,
    b: Seq<i32>,
    order: Seq<int>,
    class: TxClass,
    eob: int,
    i: int,
    x: Seq<Op>,
    y: Seq<Op>,
)
    requires
        0 <= i < eob,
        i == eob - 1 ==> a[order[i]] != 0 && b[order[i]] != 0,
        coeffs::level_ops(set, a, order, class, eob, i) + x == coeffs::level_ops(
            set,
            b,
            order,
            class,
            eob,
            i,
        ) + y,
    ensures
        heard(a[order[i]] as int) == heard(b[order[i]] as int),
        x == y,
{
    reveal(coeffs::level_ops);
    let side = ops::coeff_side(set);
    let row = order[i] / side;
    let col = order[i] % side;
    let oa = coeffs::level_ops(set, a, order, class, eob, i);
    let ob = coeffs::level_ops(set, b, order, class, eob, i);
    let la = context::abs(a[order[i]] as int);
    let lb = context::abs(b[order[i]] as int);
    assert((oa + x)[0] == oa[0]);
    assert((ob + y)[0] == ob[0]);
    assert(context::min(la, 3) == context::min(lb, 3));
    if la > 2 {
        let ca = context::spec_br_ctx(a, side, row, col, class);
        let cb = context::spec_br_ctx(b, side, row, col, class);
        let ta = coeffs::br_ops(set, la, ca);
        let tb = coeffs::br_ops(set, lb, cb);
        assert(oa + x =~= seq![oa[0]] + (ta + x));
        assert(ob + y =~= seq![ob[0]] + (tb + y));
        lemma_parts(seq![oa[0]], ta + x, seq![ob[0]], tb + y);
        lemma_br(set, la, lb, ca, cb, x, y);
    } else {
        lemma_parts(oa, x, ob, y);
    }
}

/// The magnitude symbols of a block end themselves.
proof fn lemma_magnitudes(
    set: TxbSet,
    a: Seq<i32>,
    b: Seq<i32>,
    order: Seq<int>,
    class: TxClass,
    eob: int,
    from: int,
    x: Seq<Op>,
    y: Seq<Op>,
)
    requires
        0 <= from <= eob,
        eob > 0 ==> a[order[eob - 1]] != 0 && b[order[eob - 1]] != 0,
        coeffs::magnitudes_ops(set, a, order, class, eob, from) + x == coeffs::magnitudes_ops(
            set,
            b,
            order,
            class,
            eob,
            from,
        ) + y,
    ensures
        forall|k: int|
            from <= k < eob ==> heard(a[#[trigger] order[k]] as int) == heard(
                b[order[k]] as int,
            ),
        x == y,
    decreases eob - from,
{
    if from < eob {
        let la = coeffs::level_ops(set, a, order, class, eob, from);
        let lb = coeffs::level_ops(set, b, order, class, eob, from);
        let ma = coeffs::magnitudes_ops(set, a, order, class, eob, from + 1);
        let mb = coeffs::magnitudes_ops(set, b, order, class, eob, from + 1);
        assert((ma + la) + x =~= ma + (la + x));
        assert((mb + lb) + y =~= mb + (lb + y));
        lemma_magnitudes(set, a, b, order, class, eob, from + 1, la + x, lb + y);
        lemma_level(set, a, b, order, class, eob, from, x, y);
    } else {
        assert(coeffs::magnitudes_ops(set, a, order, class, eob, from) + x =~= x);
        assert(coeffs::magnitudes_ops(set, b, order, class, eob, from) + y =~= y);
    }
}

/// One level's sign and Golomb tail end themselves, where the magnitude symbols
/// agree.
proof fn lemma_sign(set: TxbSet, a: int, b: int, pos: int, ctx: int, x: Seq<Op>, y: Seq<Op>)
    requires
        heard(a) == heard(b),
        coeffs::sign_ops(set, a, pos, ctx) + x == coeffs::sign_ops(set, b, pos, ctx) + y,
    ensures
        a == b,
        x == y,
{
    let oa = coeffs::sign_ops(set, a, pos, ctx);
    let ob = coeffs::sign_ops(set, b, pos, ctx);
    if a == 0 {
        assert(b == 0);
        assert(oa + x =~= x);
        assert(ob + y =~= y);
    } else {
        assert((oa + x)[0] == oa[0]);
        assert((ob + y)[0] == ob[0]);
        assert((a < 0) == (b < 0));
        if context::abs(a) > MAX_BR_LEVEL {
            let va = context::abs(a) - MAX_BR_LEVEL - 1;
            let vb = context::abs(b) - MAX_BR_LEVEL - 1;
            let ta = golomb::golomb_ops(va);
            let tb = golomb::golomb_ops(vb);
            assert(oa + x =~= seq![oa[0]] + (ta + x));
            assert(ob + y =~= seq![ob[0]] + (tb + y));
            lemma_parts(seq![oa[0]], ta + x, seq![ob[0]], tb + y);
            golomb_tails_end_themselves(va, vb, x, y);
        } else {
            lemma_parts(oa, x, ob, y);
        }
    }
}

/// The signs of a block end themselves.
proof fn lemma_signs(
    set: TxbSet,
    a: Seq<i32>,
    b: Seq<i32>,
    order: Seq<int>,
    ctx: int,
    count: int,
    x: Seq<Op>,
    y: Seq<Op>,
)
    requires
        0 <= count,
        forall|k: int|
            0 <= k < count ==> heard(a[#[trigger] order[k]] as int) == heard(b[order[k]] as int),
        coeffs::signs_ops(set, a, order, ctx, count) + x == coeffs::signs_ops(
            set,
            b,
            order,
            ctx,
            count,
        ) + y,
    ensures
        forall|k: int| 0 <= k < count ==> a[#[trigger] order[k]] == b[order[k]],
        x == y,
    decreases count,
{
    if count > 0 {
        let p = order[count - 1];
        let la = coeffs::sign_ops(set, a[p] as int, p, ctx);
        let lb = coeffs::sign_ops(set, b[p] as int, p, ctx);
        let sa = coeffs::signs_ops(set, a, order, ctx, count - 1);
        let sb = coeffs::signs_ops(set, b, order, ctx, count - 1);
        assert((sa + la) + x =~= sa + (la + x));
        assert((sb + lb) + y =~= sb + (lb + y));
        lemma_signs(set, a, b, order, ctx, count - 1, la + x, lb + y);
        lemma_sign(set, a[p] as int, b[p] as int, p, ctx, x, y);
    } else {
        assert(coeffs::signs_ops(set, a, order, ctx, count) + x =~= x);
        assert(coeffs::signs_ops(set, b, order, ctx, count) + y =~= y);
    }
}

proof fn lemma_end(grid: Seq<i32>, order: Seq<int>, count: int)
    requires
        0 <= count,
    ensures
        0 <= coeffs::end_of_block(grid, order, count) <= count,
        coeffs::end_of_block(grid, order, count) > 0 ==> grid[order[coeffs::end_of_block(
            grid,
            order,
            count,
        ) - 1]] != 0,
        forall|k: int|
            coeffs::end_of_block(grid, order, count) <= k < count ==> grid[#[trigger] order[k]]
                == 0,
    decreases count,
{
    if count > 0 {
        lemma_end(grid, order, count - 1);
    }
}

/// A scan reaches every position.
pub proof fn scans_reach_everything(side: int, class: TxClass, p: int)
    requires
        1 <= side,
        0 <= p < side * side,
    ensures
        exists|k: int| 0 <= k < side * side && #[trigger] scan::scan_for(side, class)[k] == p,
{
    let order = scan::scan_for(side, class);
    if class == TxClass::TwoD {
        scan::default_scan_walks_every_position_outwards(side);
        assert(order.contains(p));
    } else {
        vstd::arithmetic::div_mod::lemma_fundamental_div_mod(p, side);
        let r = p / side;
        let c = p % side;
        assert(0 <= r < side) by (nonlinear_arith)
            requires
                p == side * r + c,
                0 <= c < side,
                0 <= p < side * side,
        ;
        let k = if class == TxClass::Horiz {
            c * side + r
        } else {
            p
        };
        if class == TxClass::Horiz {
            assert(0 <= c * side + r < side * side) by (nonlinear_arith)
                requires
                    0 <= r < side,
                    0 <= c < side,
            ;
            vstd::arithmetic::div_mod::lemma_fundamental_div_mod_converse(k, side, c, r);
            assert(side * r == r * side) by (nonlinear_arith);
        }
        assert(order[k] == p);
    }
}

/// The symbols of a block with something to code, in their four parts.
proof fn lemma_head(coding: TxbCoding, grid: Seq<i32>, x: Seq<Op>, head: Seq<Op>, eob: int)
    requires
        eob == coeffs::end_of_block(
            grid,
            scan::scan_for(ops::coeff_side(coding.set), scan::class_of(coding.tx_type)),
            ops::coeff_side(coding.set) * ops::coeff_side(coding.set),
        ),
        eob > 0,
        head == seq![
            ops::symbol(0, coeffs::txb(coding.set, ops::TxbTable::Skip(coding.skip_ctx))),
        ] + coeffs::tx_type_ops(coding),
    ensures
        coeffs::coeffs_ops(coding, grid) + x == head + (coeffs::eob_ops(
            coding.set,
            eob,
            scan::class_of(coding.tx_type),
        ) + (coeffs::magnitudes_ops(
            coding.set,
            grid,
            scan::scan_for(ops::coeff_side(coding.set), scan::class_of(coding.tx_type)),
            scan::class_of(coding.tx_type),
            eob,
            0,
        ) + (coeffs::signs_ops(
            coding.set,
            grid,
            scan::scan_for(ops::coeff_side(coding.set), scan::class_of(coding.tx_type)),
            coding.sign_ctx as int,
            eob,
        ) + x))),
{
    let class = scan::class_of(coding.tx_type);
    let order = scan::scan_for(ops::coeff_side(coding.set), class);
    let v = coeffs::eob_ops(coding.set, eob, class);
    let m = coeffs::magnitudes_ops(coding.set, grid, order, class, eob, 0);
    let s = coeffs::signs_ops(coding.set, grid, order, coding.sign_ctx as int, eob);
    assert(coeffs::coeffs_ops(coding, grid) =~= head + v + m + s);
    assert((head + v + m + s) + x =~= head + (v + (m + (s + x))));
}

/// A transform block reads back: whatever follows it, its symbols tell every
/// level, and where they end.
pub proof fn coefficients_read_back(
    coding: TxbCoding,
    a: Seq<i32>,
    b: Seq<i32>,
    x: Seq<Op>,
    y: Seq<Op>,
)
    requires
        levels::is_grid(a, ops::coeff_side(coding.set)),
        levels::is_grid(b, ops::coeff_side(coding.set)),
        coeffs::coeffs_ops(coding, a) + x == coeffs::coeffs_ops(coding, b) + y,
    ensures
        a == b,
        x == y,
{
    let set = coding.set;
    let side = ops::coeff_side(set);
    let class = scan::class_of(coding.tx_type);
    let order = scan::scan_for(side, class);
    let area = side * side;
    assert(1 <= area <= 1024) by (nonlinear_arith)
        requires
            1 <= side <= 32,
            area == side * side,
    ;
    let ea = coeffs::end_of_block(a, order, area);
    let eb = coeffs::end_of_block(b, order, area);
    lemma_end(a, order, area);
    lemma_end(b, order, area);
    let oa = coeffs::coeffs_ops(coding, a);
    let ob = coeffs::coeffs_ops(coding, b);
    assert((oa + x)[0] == oa[0]);
    assert((ob + y)[0] == ob[0]);
    assert((ea == 0) == (eb == 0));
    if ea == 0 {
        lemma_parts(oa, x, ob, y);
    } else {
        let head = seq![
            ops::symbol(0, coeffs::txb(set, ops::TxbTable::Skip(coding.skip_ctx))),
        ] + coeffs::tx_type_ops(coding);
        let va = coeffs::eob_ops(set, ea, class);
        let vb = coeffs::eob_ops(set, eb, class);
        let ma = coeffs::magnitudes_ops(set, a, order, class, ea, 0);
        let mb = coeffs::magnitudes_ops(set, b, order, class, eb, 0);
        let sa = coeffs::signs_ops(set, a, order, coding.sign_ctx as int, ea);
        let sb = coeffs::signs_ops(set, b, order, coding.sign_ctx as int, eb);
        lemma_head(coding, a, x, head, ea);
        lemma_head(coding, b, y, head, eb);
        lemma_parts(head, va + (ma + (sa + x)), head, vb + (mb + (sb + y)));
        lemma_eob(set, ea, eb, class, ma + (sa + x), mb + (sb + y));
        lemma_magnitudes(set, a, b, order, class, ea, 0, sa + x, sb + y);
        lemma_signs(set, a, b, order, coding.sign_ctx as int, ea, x, y);
    }
    assert forall|p: int| 0 <= p < a.len() implies a[p] == b[p] by {
        scans_reach_everything(side, class, p);
        let k = choose|k: int| 0 <= k < side * side && #[trigger] order[k] == p;
        if k < ea {
            assert(a[order[k]] == b[order[k]]);
        } else {
            assert(a[order[k]] == 0);
            assert(b[order[k]] == 0);
        }
    }
    assert(a =~= b);
}

/// A type that a set holds has its place as its symbol.
proof fn lemma_type_symbol(types: Seq<TxType>, tx: TxType, from: int)
    requires
        0 <= from <= types.len(),
        exists|i: int| from <= i < types.len() && #[trigger] types[i] == tx,
    ensures
        coeffs::symbol_from(types, tx, from) matches Some(i) && from <= i < types.len()
            && types[i] == tx,
    decreases types.len() - from,
{
    if types[from] != tx {
        lemma_type_symbol(types, tx, from + 1);
    }
}

/// A symbol names one of a set's types.
proof fn lemma_same_type(types: Seq<TxType>, t: TxType, u: TxType)
    requires
        types.contains(t),
        types.contains(u),
        coeffs::tx_symbol(types, t) == coeffs::tx_symbol(types, u),
    ensures
        t == u,
{
    lemma_type_symbol(types, t, 0);
    lemma_type_symbol(types, u, 0);
}

/// The second symbol of a block with something to code names its type.
proof fn lemma_type_op(coding: TxbCoding, types: Seq<TxType>, grid: Seq<i32>, x: Seq<Op>)
    requires
        coeffs::tx_set(coding.set, coding.reduced) == Some(types),
        types.contains(coding.tx_type),
        coeffs::end_of_block(
            grid,
            scan::scan_for(ops::coeff_side(coding.set), scan::class_of(coding.tx_type)),
            ops::coeff_side(coding.set) * ops::coeff_side(coding.set),
        ) != 0,
    ensures
        (coeffs::coeffs_ops(coding, grid) + x)[1] == ops::symbol(
            coeffs::tx_symbol(types, coding.tx_type),
            coeffs::txb(coding.set, ops::TxbTable::TxType(coding.mode)),
        ),
        0 <= coeffs::tx_symbol(types, coding.tx_type) < 16,
{
    let side = ops::coeff_side(coding.set);
    let order = scan::scan_for(side, scan::class_of(coding.tx_type));
    let eob = coeffs::end_of_block(grid, order, side * side);
    assert(0 <= side * side) by (nonlinear_arith);
    lemma_end(grid, order, side * side);
    let head = seq![
        ops::symbol(0, coeffs::txb(coding.set, ops::TxbTable::Skip(coding.skip_ctx))),
    ] + coeffs::tx_type_ops(coding);
    lemma_head(coding, grid, x, head, eob);
    assert(head.len() == 2);
    assert((coeffs::coeffs_ops(coding, grid) + x)[1] == head[1]);
    lemma_type_symbol(types, coding.tx_type, 0);
    assert(types.len() <= 16);
}

/// A block is all zeros where its end is at its start.
proof fn lemma_zero_block(grid: Seq<i32>, side: int, class: TxClass)
    requires
        1 <= side,
        grid.len() == side * side,
        coeffs::end_of_block(grid, scan::scan_for(side, class), side * side) == 0,
    ensures
        forall|p: int| 0 <= p < grid.len() ==> grid[p] == 0,
{
    let order = scan::scan_for(side, class);
    assert(0 <= side * side) by (nonlinear_arith);
    lemma_end(grid, order, side * side);
    assert forall|p: int| 0 <= p < grid.len() implies grid[p] == 0 by {
        scans_reach_everything(side, class, p);
        let k = choose|k: int| 0 <= k < side * side && #[trigger] order[k] == p;
        assert(grid[order[k]] == 0);
    }
}

/// Whether a transform of a set can have a type: one of those the set leaves a
/// choice of, else the DCT.
pub open spec fn is_offered(set: TxbSet, reduced: bool, tx: TxType) -> bool {
    match coeffs::tx_set(set, reduced) {
        Some(types) => types.contains(tx),
        None => tx == TxType::DctDct,
    }
}

/// Whether two types are one, or a decoder can tell them apart.
pub open spec fn are_told(set: TxbSet, reduced: bool, t: TxType, u: TxType) -> bool {
    t == u || (is_offered(set, reduced, t) && is_offered(set, reduced, u))
}

/// Whether a grid holds a level.
pub open spec fn holds_any(grid: Seq<i32>) -> bool {
    exists|p: int| 0 <= p < grid.len() && grid[p] != 0
}

/// A block holds a level where its end is past its start.
proof fn lemma_held_level(grid: Seq<i32>, side: int, class: TxClass)
    requires
        1 <= side,
        grid.len() == side * side,
        coeffs::end_of_block(grid, scan::scan_for(side, class), side * side) != 0,
    ensures
        holds_any(grid),
{
    let order = scan::scan_for(side, class);
    let eob = coeffs::end_of_block(grid, order, side * side);
    assert(0 <= side * side) by (nonlinear_arith);
    lemma_end(grid, order, side * side);
    lemma_step(side, class, eob - 1);
    assert(grid[order[eob - 1]] != 0);
}

/// A transform block's type reads back with its levels, where it codes any.
#[verifier::rlimit(40)]
pub proof fn transform_types_read_back(
    coding: TxbCoding,
    tx: TxType,
    a: Seq<i32>,
    b: Seq<i32>,
    x: Seq<Op>,
    y: Seq<Op>,
)
    requires
        levels::is_grid(a, ops::coeff_side(coding.set)),
        levels::is_grid(b, ops::coeff_side(coding.set)),
        holds_any(a) && holds_any(b) ==> are_told(
            coding.set,
            coding.reduced,
            coding.tx_type,
            tx,
        ),
        coeffs::coeffs_ops(coding, a) + x == coeffs::coeffs_ops(
            (TxbCoding { tx_type: tx, ..coding }),
            b,
        ) + y,
    ensures
        a == b,
        x == y,
        holds_any(a) ==> tx == coding.tx_type,
{
    let other = TxbCoding { tx_type: tx, ..coding };
    let side = ops::coeff_side(coding.set);
    let class = scan::class_of(coding.tx_type);
    let area = side * side;
    let oa = coeffs::coeffs_ops(coding, a);
    let ob = coeffs::coeffs_ops(other, b);
    let ea = coeffs::end_of_block(a, scan::scan_for(side, class), area);
    let eb = coeffs::end_of_block(b, scan::scan_for(side, scan::class_of(tx)), area);
    if tx == coding.tx_type {
        coefficients_read_back(coding, a, b, x, y);
    } else {
        let types = coeffs::tx_set(coding.set, coding.reduced)->0;
        assert((oa + x)[0] == oa[0]);
        assert((ob + y)[0] == ob[0]);
        assert((ea == 0) == (eb == 0));
        if ea == 0 {
            lemma_zero_block(a, side, class);
            lemma_zero_block(b, side, scan::class_of(tx));
            assert(a =~= b);
            lemma_parts(oa, x, ob, y);
        } else {
            lemma_held_level(a, side, class);
            lemma_held_level(b, side, scan::class_of(tx));
            lemma_type_op(coding, types, a, x);
            lemma_type_op(other, types, b, y);
            lemma_same_type(types, coding.tx_type, tx);
        }
    }
}

/// Three parts and what follows them, grouped from the end.
pub proof fn lemma_regroup(a: Seq<Op>, b: Seq<Op>, c: Seq<Op>, x: Seq<Op>)
    ensures
        (a + b + c) + x == a + (b + (c + x)),
{
    assert((a + b + c) + x =~= a + (b + (c + x)));
}

/// A block's planes read back: from the same neighbours, and whatever follows,
/// their symbols tell every level of each plane that is coded with them, and
/// luma's type where it has any.
#[verifier::rlimit(60)]
pub proof fn planes_read_back(
    plan: FramePlan,
    bands: Bands,
    mi: (int, int),
    side: int,
    sets: PlaneSets,
    mode: usize,
    skip_luma: bool,
    tx: (TxType, TxType),
    a: (Seq<i32>, Seq<i32>, Seq<i32>),
    b: (Seq<i32>, Seq<i32>, Seq<i32>),
    x: Seq<Op>,
    y: Seq<Op>,
)
    requires
        !skip_luma ==> levels::is_grid(a.0, ops::coeff_side(sets.y)),
        !skip_luma ==> levels::is_grid(b.0, ops::coeff_side(sets.y)),
        levels::is_grid(a.1, ops::coeff_side(sets.uv)),
        levels::is_grid(b.1, ops::coeff_side(sets.uv)),
        levels::is_grid(a.2, ops::coeff_side(sets.uv)),
        levels::is_grid(b.2, ops::coeff_side(sets.uv)),
        !skip_luma && holds_any(a.0) && holds_any(b.0) ==> are_told(
            sets.y,
            plan.reduced_tx_set,
            tx.0,
            tx.1,
        ),
        residual::planes_ops(
            plan,
            bands,
            mi.0,
            mi.1,
            side,
            sets,
            mode,
            skip_luma,
            tx.0,
            a.0,
            a.1,
            a.2,
        ) + x == residual::planes_ops(
            plan,
            bands,
            mi.0,
            mi.1,
            side,
            sets,
            mode,
            skip_luma,
            tx.1,
            b.0,
            b.1,
            b.2,
        ) + y,
    ensures
        !skip_luma ==> a.0 == b.0 && (holds_any(a.0) ==> tx.0 == tx.1),
        a.1 == b.1,
        a.2 == b.2,
        x == y,
{
    reveal(residual::planes_ops);
    let luma = residual::plane_coding(plan, bands, mi.0, mi.1, side, sets.y, mode, 0, tx.0);
    let other = residual::plane_coding(plan, bands, mi.0, mi.1, side, sets.y, mode, 0, tx.1);
    let first = residual::plane_coding(plan, bands, mi.0, mi.1, side, sets.uv, mode, 1, tx.0);
    let second = residual::plane_coding(plan, bands, mi.0, mi.1, side, sets.uv, mode, 2, tx.0);
    let ya = if skip_luma {
        Seq::empty()
    } else {
        coeffs::coeffs_ops(luma, a.0)
    };
    let yb = if skip_luma {
        Seq::empty()
    } else {
        coeffs::coeffs_ops(other, b.0)
    };
    let ua = coeffs::coeffs_ops(first, a.1);
    let ub = coeffs::coeffs_ops(first, b.1);
    let va = coeffs::coeffs_ops(second, a.2);
    let vb = coeffs::coeffs_ops(second, b.2);
    lemma_regroup(ya, ua, va, x);
    lemma_regroup(yb, ub, vb, y);
    if skip_luma {
        lemma_parts(ya, ua + (va + x), yb, ub + (vb + y));
    } else {
        assert(other == (TxbCoding { tx_type: tx.1, ..luma }));
        transform_types_read_back(luma, tx.1, a.0, b.0, ua + (va + x), ub + (vb + y));
    }
    coefficients_read_back(first, a.1, b.1, va + x, vb + y);
    coefficients_read_back(second, a.2, b.2, x, y);
}

proof fn lemma_magnitudes_unmarked(
    set: TxbSet,
    grid: Seq<i32>,
    order: Seq<int>,
    class: TxClass,
    eob: int,
    from: int,
)
    ensures
        forall|i: int|
            0 <= i < coeffs::magnitudes_ops(set, grid, order, class, eob, from).len() ==> !(
            #[trigger] coeffs::magnitudes_ops(set, grid, order, class, eob, from)[i] is Note),
    decreases eob - from,
{
    if from < eob {
        lemma_magnitudes_unmarked(set, grid, order, class, eob, from + 1);
        reveal(coeffs::level_ops);
        let own = coeffs::level_ops(set, grid, order, class, eob, from);
        assert(forall|i: int| 0 <= i < own.len() ==> !(#[trigger] own[i] is Note));
    }
}

proof fn lemma_signs_unmarked(
    set: TxbSet,
    grid: Seq<i32>,
    order: Seq<int>,
    sign_ctx: int,
    count: int,
)
    ensures
        forall|i: int|
            0 <= i < coeffs::signs_ops(set, grid, order, sign_ctx, count).len() ==> !(
            #[trigger] coeffs::signs_ops(set, grid, order, sign_ctx, count)[i] is Note),
    decreases count,
{
    if count > 0 {
        lemma_signs_unmarked(set, grid, order, sign_ctx, count - 1);
        let level = grid[order[count - 1]] as int;
        let own = coeffs::sign_ops(set, level, order[count - 1], sign_ctx);
        assert(forall|i: int| 0 <= i < own.len() ==> !(#[trigger] own[i] is Note));
    }
}

/// A transform block has no marks.
pub proof fn coefficients_are_unmarked(coding: TxbCoding, grid: Seq<i32>)
    ensures
        forall|i: int|
            0 <= i < coeffs::coeffs_ops(coding, grid).len() ==> !(#[trigger] coeffs::coeffs_ops(
                coding,
                grid,
            )[i] is Note),
{
    let side = ops::coeff_side(coding.set);
    let class = scan::class_of(coding.tx_type);
    let order = scan::scan_for(side, class);
    let eob = coeffs::end_of_block(grid, order, side * side);
    lemma_magnitudes_unmarked(coding.set, grid, order, class, eob, 0);
    lemma_signs_unmarked(coding.set, grid, order, coding.sign_ctx as int, eob);
    let end = coeffs::eob_ops(coding.set, eob, class);
    assert(forall|i: int| 0 <= i < end.len() ==> !(#[trigger] end[i] is Note));
}

/// Where step `i` of a scan sits.
proof fn lemma_step(side: int, class: TxClass, i: int)
    requires
        1 <= side,
        0 <= i < side * side,
    ensures
        ({
            let p = scan::scan_for(side, class)[i];
            &&& 0 <= p < side * side
            &&& 0 <= p / side < side
            &&& 0 <= p % side < side
            &&& p == (p / side) * side + p % side
            &&& class == TxClass::Horiz ==> p / side == i % side && p % side == i / side
        }),
{
    let p = scan::scan_for(side, class)[i];
    vstd::arithmetic::div_mod::lemma_fundamental_div_mod(i, side);
    assert(0 <= i / side < side) by (nonlinear_arith)
        requires
            i == side * (i / side) + i % side,
            0 <= i % side < side,
            0 <= i < side * side,
    ;
    match class {
        TxClass::TwoD => {
            scan::default_scan_walks_every_position_outwards(side);
        },
        TxClass::Horiz => {
            let r = i % side;
            let c = i / side;
            assert(0 <= r * side + c < side * side) by (nonlinear_arith)
                requires
                    0 <= r < side,
                    0 <= c < side,
            ;
            vstd::arithmetic::div_mod::lemma_fundamental_div_mod_converse(p, side, r, c);
        },
        TxClass::Vert => {},
    }
    vstd::arithmetic::div_mod::lemma_fundamental_div_mod(p, side);
    assert(0 <= p / side < side) by (nonlinear_arith)
        requires
            p == side * (p / side) + p % side,
            0 <= p % side < side,
            0 <= p < side * side,
    ;
    assert(side * (p / side) == (p / side) * side) by (nonlinear_arith);
}

/// A position below or to the right of a step's is one of a later step.
proof fn lemma_later(side: int, class: TxClass, i: int, down: int, right: int)
    requires
        1 <= side,
        0 <= i < side * side,
        0 <= down,
        0 <= right,
        1 <= down + right,
        scan::scan_for(side, class)[i] / side + down < side,
        scan::scan_for(side, class)[i] % side + right < side,
    ensures
        exists|k: int|
            i < k < side * side && #[trigger] scan::scan_for(side, class)[k] == (scan::scan_for(
                side,
                class,
            )[i] / side + down) * side + (scan::scan_for(side, class)[i] % side + right),
{
    let order = scan::scan_for(side, class);
    lemma_step(side, class, i);
    let r = order[i] / side;
    let c = order[i] % side;
    let row = r + down;
    let col = c + right;
    let p = row * side + col;
    assert(0 <= p < side * side) by (nonlinear_arith)
        requires
            0 <= row < side,
            0 <= col < side,
            p == row * side + col,
    ;
    scans_reach_everything(side, class, p);
    let k = choose|k: int| 0 <= k < side * side && #[trigger] order[k] == p;
    lemma_step(side, class, k);
    vstd::arithmetic::div_mod::lemma_fundamental_div_mod_converse(p, side, row, col);
    match class {
        TxClass::TwoD => {
            scan::default_scan_walks_every_position_outwards(side);
            if k < i {
                assert(order[k] / side + order[k] % side <= order[i] / side + order[i] % side);
            }
        },
        TxClass::Horiz => {
            vstd::arithmetic::div_mod::lemma_fundamental_div_mod(i, side);
            vstd::arithmetic::div_mod::lemma_fundamental_div_mod(k, side);
            assert(k > i) by (nonlinear_arith)
                requires
                    i == side * c + r,
                    k == side * (c + right) + (r + down),
                    0 <= down,
                    0 <= right,
                    1 <= down + right,
                    1 <= side,
            ;
        },
        TxClass::Vert => {
            assert(k > i) by (nonlinear_arith)
                requires
                    i == r * side + c,
                    k == (r + down) * side + (c + right),
                    0 <= down,
                    0 <= right,
                    1 <= down + right,
                    1 <= side,
            ;
        },
    }
    assert(order[k] == p);
}

/// What the contexts read at a place below or to the right of a step's.
proof fn lemma_neighbour(
    a: Seq<i32>,
    b: Seq<i32>,
    side: int,
    class: TxClass,
    i: int,
    down: int,
    right: int,
)
    requires
        1 <= side,
        0 <= i < side * side,
        0 <= down,
        0 <= right,
        1 <= down + right,
        forall|k: int|
            i < k < side * side ==> heard(a[#[trigger] scan::scan_for(side, class)[k]] as int)
                == heard(b[scan::scan_for(side, class)[k]] as int),
    ensures
        ({
            let row = scan::scan_for(side, class)[i] / side + down;
            let col = scan::scan_for(side, class)[i] % side + right;
            let va = context::magnitude(a, side, row, col);
            let vb = context::magnitude(b, side, row, col);
            &&& 0 <= va
            &&& 0 <= vb
            &&& va == vb || (va > MAX_BR_LEVEL && vb > MAX_BR_LEVEL)
            &&& context::capped(a, side, row, col) == context::capped(b, side, row, col)
        }),
{
    let order = scan::scan_for(side, class);
    let row = order[i] / side + down;
    let col = order[i] % side + right;
    if row < side && col < side {
        lemma_later(side, class, i, down, right);
        let k = choose|k: int|
            i < k < side * side && #[trigger] order[k] == row * side + col;
        assert(heard(a[order[k]] as int) == heard(b[order[k]] as int));
    }
}

/// A decoder has every context in time: those of a level are the same for two
/// blocks whose later levels are heard alike.
pub proof fn contexts_are_known_in_time(
    a: Seq<i32>,
    b: Seq<i32>,
    side: int,
    class: TxClass,
    i: int,
)
    requires
        1 <= side,
        0 <= i < side * side,
        forall|k: int|
            i < k < side * side ==> heard(a[#[trigger] scan::scan_for(side, class)[k]] as int)
                == heard(b[scan::scan_for(side, class)[k]] as int),
    ensures
        ({
            let row = scan::scan_for(side, class)[i] / side;
            let col = scan::scan_for(side, class)[i] % side;
            &&& context::spec_base_ctx(a, side, row, col, class) == context::spec_base_ctx(
                b,
                side,
                row,
                col,
                class,
            )
            &&& context::spec_br_ctx(a, side, row, col, class) == context::spec_br_ctx(
                b,
                side,
                row,
                col,
                class,
            )
        }),
{
    lemma_neighbour(a, b, side, class, i, 1, 0);
    lemma_neighbour(a, b, side, class, i, 0, 1);
    match class {
        TxClass::TwoD => {
            lemma_neighbour(a, b, side, class, i, 1, 1);
            lemma_neighbour(a, b, side, class, i, 2, 0);
            lemma_neighbour(a, b, side, class, i, 0, 2);
        },
        TxClass::Horiz => {
            lemma_neighbour(a, b, side, class, i, 0, 2);
            lemma_neighbour(a, b, side, class, i, 0, 3);
            lemma_neighbour(a, b, side, class, i, 0, 4);
        },
        TxClass::Vert => {
            lemma_neighbour(a, b, side, class, i, 2, 0);
            lemma_neighbour(a, b, side, class, i, 3, 0);
            lemma_neighbour(a, b, side, class, i, 4, 0);
        },
    }
}

} // verus!
