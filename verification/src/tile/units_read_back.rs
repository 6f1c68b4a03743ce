//! What a decoder reads back of a block's luma transform units.
use crate::tile::coeffs;
use crate::tile::coeffs::TxbCoding;
use crate::tile::levels;
use crate::tile::neighbours;
use crate::tile::neighbours::Bands;
use crate::tile::ops;
use crate::tile::ops::Op;
use crate::tile::plans::FramePlan;
use crate::tile::read_back;
use crate::tile::residual;
use crate::tile::residual::{LumaUnits, Written};
use crate::transform::tx_type::TxType;
use vstd::prelude::*;

verus! {

/// Whether two blocks have their units alike but for the levels and the types.
pub open spec fn are_alike(l: LumaUnits, m: LumaUnits) -> bool {
    m == LumaUnits { grid: m.grid, types: m.types, ..l }
}

/// Whether the types of two such blocks are one unit by unit, or a decoder can
/// tell them apart, where they lie in the frame and have levels.
pub open spec fn are_types_told(plan: FramePlan, b: Bands, l: LumaUnits, m: LumaUnits) -> bool {
    let n = l.side / l.tx;
    forall|r: int, c: int|
        0 <= r < n && 0 <= c < n && is_unit_inside(b, l, r, c) && read_back::holds_any(
            #[trigger] unit_levels(l, r, c),
        ) && read_back::holds_any(unit_levels(m, r, c)) ==> read_back::are_told(
            residual::luma_set(l.tx, l.inter),
            plan.reduced_tx_set,
            unit_type(l, r, c),
            unit_type(m, r, c),
        )
}

/// The type of a unit.
pub open spec fn unit_type(l: LumaUnits, r: int, c: int) -> TxType {
    residual::type_at(l.types, r * (l.side / l.tx) + c)
}

/// Whether two sets of bands hold the same, whatever palettes are about to be
/// left in them.
pub open spec fn same_cells(a: Bands, b: Bands) -> bool {
    b == Bands { pending: b.pending, pending_uv: b.pending_uv, ..a }
}

/// Whether a unit lies in the frame.
pub open spec fn is_unit_inside(b: Bands, l: LumaUnits, r: int, c: int) -> bool {
    l.mi_r + r * (l.tx / 4) < b.mi_rows && l.mi_c + c * (l.tx / 4) < b.mi_cols
}

/// A block is a whole number of units.
proof fn lemma_sides(b: Bands, l: LumaUnits)
    requires
        residual::are_units(b, l),
    ensures
        (l.side / l.tx) * l.tx == l.side,
        1 <= l.side / l.tx,
{
    if l.tx == 4 {
        assert((l.side / 4) * 4 == l.side);
    } else if l.tx == 8 {
        assert((l.side / 8) * 8 == l.side);
    } else if l.tx == 16 {
        assert((l.side / 16) * 16 == l.side);
    } else if l.tx == 32 {
        assert((l.side / 32) * 32 == l.side);
    } else {
        assert((l.side / 64) * 64 == l.side);
    }
}

/// The levels of a unit are levels.
proof fn lemma_unit(b: Bands, l: LumaUnits, r: int, c: int)
    requires
        residual::are_units(b, l),
        0 <= r < l.side / l.tx,
        0 <= c < l.side / l.tx,
    ensures
        levels::is_grid(
            residual::unit_grid(l.grid, l.side, l.tx, r, c),
            ops::coeff_side(residual::luma_set(l.tx, l.inter)),
        ),
{
    let unit = residual::unit_grid(l.grid, l.side, l.tx, r, c);
    if l.side != l.tx {
        let tx = l.tx;
        let side = l.side;
        let n = side / tx;
        lemma_sides(b, l);
        assert(0 <= tx * tx) by (nonlinear_arith);
        assert forall|p: int| 0 <= p < unit.len() implies #[trigger] unit[p] == 0
            || levels::is_codable(unit[p] as int) by {
            vstd::arithmetic::div_mod::lemma_fundamental_div_mod(p, tx);
            let i = p / tx;
            let j = p % tx;
            assert(0 <= i < tx) by (nonlinear_arith)
                requires
                    p == tx * i + j,
                    0 <= j < tx,
                    0 <= p < tx * tx,
            ;
            let at = (r * tx + i) * side + (c * tx + j);
            assert(0 <= at < side * side) by (nonlinear_arith)
                requires
                    0 <= r < n,
                    0 <= c < n,
                    0 <= i < tx,
                    0 <= j < tx,
                    n * tx == side,
                    at == (r * tx + i) * side + (c * tx + j),
            ;
            assert(l.grid[at] == 0 || levels::is_codable(l.grid[at] as int));
        }
    }
}

/// How a unit is coded.
spec fn unit_coding(plan: FramePlan, b: Bands, l: LumaUnits, r: int, c: int) -> TxbCoding {
    let n = l.side / l.tx;
    let mi_r = l.mi_r + r * (l.tx / 4);
    let mi_c = l.mi_c + c * (l.tx / 4);
    TxbCoding {
        set: residual::luma_set(l.tx, l.inter),
        mode: l.mode,
        reduced: plan.reduced_tx_set,
        skip_ctx: if n == 1 {
            0
        } else {
            neighbours::spec_luma_skip_ctx(b, mi_r, mi_c, l.tx / 4) as usize
        },
        sign_ctx: neighbours::spec_dc_sign_ctx(
            neighbours::around_of(b, mi_r, mi_c, l.tx / 4, 0).dc_vote as int,
        ) as usize,
        tx_type: residual::type_at(l.types, r * n + c),
    }
}

/// The symbols of a unit.
#[verifier::opaque]
spec fn unit_ops(plan: FramePlan, b: Bands, l: LumaUnits, r: int, c: int) -> Seq<Op> {
    coeffs::coeffs_ops(unit_coding(plan, b, l, r, c), unit_levels(l, r, c))
}

/// The levels of a unit.
#[verifier::opaque]
pub open spec fn unit_levels(l: LumaUnits, r: int, c: int) -> Seq<i32> {
    residual::unit_grid(l.grid, l.side, l.tx, r, c)
}

/// Whether the units of the first `rows` rows, and the first `count` of the
/// next, that lie in the frame have the same levels, and the same type where
/// they have any.
#[verifier::opaque]
spec fn agree(b: Bands, l: LumaUnits, m: LumaUnits, rows: int, count: int) -> bool {
    forall|r: int, c: int|
        0 <= r && 0 <= c < l.side / l.tx && (r < rows || (r == rows && c < count))
            && is_unit_inside(b, l, r, c) ==> #[trigger] is_unit_told(l, m, r, c)
}

/// Whether two units have the same levels, and the same type where they have
/// any.
pub open spec fn is_unit_told(l: LumaUnits, m: LumaUnits, r: int, c: int) -> bool {
    &&& unit_levels(l, r, c) == unit_levels(m, r, c)
    &&& read_back::holds_any(unit_levels(l, r, c)) ==> unit_type(l, r, c) == unit_type(m, r, c)
}

proof fn lemma_agree_more(b: Bands, l: LumaUnits, m: LumaUnits, r: int, c: int)
    requires
        agree(b, l, m, r, c),
        is_unit_inside(b, l, r, c) ==> is_unit_told(l, m, r, c),
    ensures
        agree(b, l, m, r, c + 1),
{
    reveal(agree);
}

proof fn lemma_agree_rows(b: Bands, l: LumaUnits, m: LumaUnits, r: int)
    requires
        agree(b, l, m, r, l.side / l.tx),
    ensures
        agree(b, l, m, r + 1, 0),
{
    reveal(agree);
}

/// One unit's symbols end themselves, and with the levels the state it leaves
/// is known.
proof fn lemma_unit_told(
    plan: FramePlan,
    frame: Bands,
    a: Written,
    b: Written,
    l: LumaUnits,
    m: LumaUnits,
    r: int,
    c: int,
    x: Seq<Op>,
    y: Seq<Op>,
)
    requires
        same_cells(a.bands, b.bands),
        are_alike(l, m),
        are_types_told(plan, frame, l, m),
        is_unit_inside(frame, l, r, c),
        residual::are_units(frame, l),
        residual::are_units(frame, m),
        0 <= r < l.side / l.tx,
        0 <= c < l.side / l.tx,
        unit_ops(plan, a.bands, l, r, c) + x == unit_ops(plan, b.bands, m, r, c) + y,
    ensures
        is_unit_told(l, m, r, c),
        x == y,
        same_cells(
            residual::unit_written(plan, a, l, r, c).bands,
            residual::unit_written(plan, b, m, r, c).bands,
        ),
{
    reveal(unit_ops);
    lemma_unit(frame, l, r, c);
    lemma_unit(frame, m, r, c);
    let coding = unit_coding(plan, a.bands, l, r, c);
    let tx = unit_type(m, r, c);
    assert(unit_type(l, r, c) == coding.tx_type);
    assert(unit_coding(plan, b.bands, m, r, c) == (TxbCoding { tx_type: tx, ..coding }));
    assert(read_back::holds_any(unit_levels(l, r, c)) && read_back::holds_any(
        unit_levels(m, r, c),
    ) ==> read_back::are_told(coding.set, coding.reduced, coding.tx_type, tx));
    reveal(unit_levels);
    read_back::transform_types_read_back(
        coding,
        tx,
        unit_levels(l, r, c),
        unit_levels(m, r, c),
        x,
        y,
    );
}

/// What the first `r` rows of units and the first `c` units of the next write.
#[verifier::opaque]
spec fn cells_written(plan: FramePlan, w: Written, l: LumaUnits, r: int, c: int) -> Written {
    residual::unit_row_written(plan, residual::unit_rows_written(plan, w, l, r), l, r, c)
}

/// How the units follow each other.
proof fn lemma_cells(plan: FramePlan, w: Written, l: LumaUnits, r: int, c: int)
    ensures
        cells_written(plan, w, l, 0, 0) == w,
        r > 0 ==> cells_written(plan, w, l, r, 0) == cells_written(
            plan,
            w,
            l,
            r - 1,
            l.side / l.tx,
        ),
        c > 0 ==> cells_written(plan, w, l, r, c) == residual::unit_written(
            plan,
            cells_written(plan, w, l, r, c - 1),
            l,
            r,
            c - 1,
        ),
        cells_written(plan, w, l, r, c).bands.mi_rows == w.bands.mi_rows,
        cells_written(plan, w, l, r, c).bands.mi_cols == w.bands.mi_cols,
{
    reveal(cells_written);
    residual::lemma_rows_keep(plan, w, l, r);
    residual::lemma_row_keeps(plan, residual::unit_rows_written(plan, w, l, r), l, r, c);
}

/// What one unit adds: its symbols in the frame, nothing outside.
proof fn lemma_cell(plan: FramePlan, w: Written, l: LumaUnits, r: int, c: int, x: Seq<Op>)
    ensures
        is_unit_inside(w.bands, l, r, c) ==> residual::unit_written(plan, w, l, r, c).ops + x
            == w.ops + (unit_ops(plan, w.bands, l, r, c) + x),
        !is_unit_inside(w.bands, l, r, c) ==> residual::unit_written(plan, w, l, r, c) == w,
{
    reveal(unit_ops);
    reveal(unit_levels);
    if is_unit_inside(w.bands, l, r, c) {
        let own = unit_ops(plan, w.bands, l, r, c);
        assert(residual::unit_written(plan, w, l, r, c).ops == w.ops + own);
        lemma_after(w.ops, own, x);
    }
}

proof fn lemma_after(a: Seq<Op>, b: Seq<Op>, x: Seq<Op>)
    ensures
        (a + b) + x == a + (b + x),
{
    assert((a + b) + x =~= a + (b + x));
}

/// The units up to one read back.
proof fn lemma_cells_told(
    plan: FramePlan,
    w: Written,
    v: Written,
    l: LumaUnits,
    m: LumaUnits,
    r: int,
    c: int,
    x: Seq<Op>,
    y: Seq<Op>,
)
    requires
        w.ops == v.ops,
        same_cells(w.bands, v.bands),
        are_alike(l, m),
        are_types_told(plan, w.bands, l, m),
        residual::are_units(w.bands, l),
        residual::are_units(w.bands, m),
        0 <= r,
        r < l.side / l.tx || (r == l.side / l.tx && c == 0),
        0 <= c <= l.side / l.tx,
        cells_written(plan, w, l, r, c).ops + x == cells_written(plan, v, m, r, c).ops + y,
    ensures
        x == y,
        same_cells(
            cells_written(plan, w, l, r, c).bands,
            cells_written(plan, v, m, r, c).bands,
        ),
        agree(w.bands, l, m, r, c),
    decreases r, c,
{
    let n = l.side / l.tx;
    lemma_sides(w.bands, l);
    lemma_cells(plan, w, l, r, c);
    lemma_cells(plan, v, m, r, c);
    if c == 0 {
        if r == 0 {
            read_back::lemma_parts(w.ops, x, v.ops, y);
            reveal(agree);
        } else {
            lemma_cells_told(plan, w, v, l, m, r - 1, n, x, y);
            lemma_agree_rows(w.bands, l, m, r - 1);
        }
    } else {
        let a = cells_written(plan, w, l, r, c - 1);
        let b = cells_written(plan, v, m, r, c - 1);
        lemma_cells(plan, w, l, r, c - 1);
        lemma_cells(plan, v, m, r, c - 1);
        lemma_cell(plan, a, l, r, c - 1, x);
        lemma_cell(plan, b, m, r, c - 1, y);
        if is_unit_inside(w.bands, l, r, c - 1) {
            let ca = unit_ops(plan, a.bands, l, r, c - 1) + x;
            let cb = unit_ops(plan, b.bands, m, r, c - 1) + y;
            lemma_cells_told(plan, w, v, l, m, r, c - 1, ca, cb);
            lemma_unit_told(plan, w.bands, a, b, l, m, r, c - 1, x, y);
        } else {
            lemma_cells_told(plan, w, v, l, m, r, c - 1, x, y);
        }
        lemma_agree_more(w.bands, l, m, r, c - 1);
    }
}

/// A block's luma transform units read back: from the same neighbours, and
/// whatever follows, their symbols tell the levels of every unit in the frame,
/// the type of each that has any, and the state they leave.
pub proof fn luma_units_read_back(
    plan: FramePlan,
    w: Written,
    v: Written,
    l: LumaUnits,
    m: LumaUnits,
    x: Seq<Op>,
    y: Seq<Op>,
)
    requires
        w.ops == v.ops,
        same_cells(w.bands, v.bands),
        are_alike(l, m),
        are_types_told(plan, w.bands, l, m),
        residual::are_units(w.bands, l),
        residual::are_units(w.bands, m),
        residual::luma_written(plan, w, l).ops + x == residual::luma_written(plan, v, m).ops + y,
    ensures
        x == y,
        same_cells(
            residual::luma_written(plan, w, l).bands,
            residual::luma_written(plan, v, m).bands,
        ),
        forall|r: int, c: int|
            0 <= r < l.side / l.tx && 0 <= c < l.side / l.tx && is_unit_inside(w.bands, l, r, c)
                ==> #[trigger] is_unit_told(l, m, r, c),
{
    let n = l.side / l.tx;
    lemma_sides(w.bands, l);
    assert(residual::luma_written(plan, w, l) == cells_written(plan, w, l, n, 0)) by {
        reveal(residual::luma_written);
        reveal(cells_written);
    }
    assert(residual::luma_written(plan, v, m) == cells_written(plan, v, m, n, 0)) by {
        reveal(residual::luma_written);
        reveal(cells_written);
    }
    lemma_cells_told(plan, w, v, l, m, n, 0, x, y);
    reveal(agree);
}

/// What a block's units leave besides symbols does not depend on those before
/// them, nor on the palettes about to be left, which they keep; and they leave
/// no marks.
proof fn lemma_cells_own(plan: FramePlan, w: Written, l: LumaUnits, r: int, c: int)
    requires
        0 <= r,
        0 <= c <= l.side / l.tx,
    ensures
        ({
            let bare = Written { ops: Seq::empty(), bands: w.bands };
            let own = cells_written(plan, bare, l, r, c);
            let all = cells_written(plan, w, l, r, c);
            &&& all.ops == w.ops + own.ops
            &&& all.bands == own.bands
            &&& all.bands.pending == w.bands.pending
            &&& all.bands.pending_uv == w.bands.pending_uv
            &&& forall|i: int| 0 <= i < own.ops.len() ==> !(#[trigger] own.ops[i] is Note)
        }),
    decreases r, c,
{
    let n = l.side / l.tx;
    let bare = Written { ops: Seq::empty(), bands: w.bands };
    lemma_cells(plan, w, l, r, c);
    lemma_cells(plan, bare, l, r, c);
    if c == 0 {
        if r == 0 {
            assert(w.ops + Seq::<Op>::empty() =~= w.ops);
        } else {
            lemma_cells_own(plan, w, l, r - 1, n);
        }
    } else {
        lemma_cells_own(plan, w, l, r, c - 1);
        let a = cells_written(plan, w, l, r, c - 1);
        let b = cells_written(plan, bare, l, r, c - 1);
        lemma_cell(plan, a, l, r, c - 1, Seq::empty());
        lemma_cell(plan, b, l, r, c - 1, Seq::empty());
        let own = unit_ops(plan, a.bands, l, r, c - 1);
        if is_unit_inside(a.bands, l, r, c - 1) {
            assert(own + Seq::<Op>::empty() =~= own);
            assert(residual::unit_written(plan, a, l, r, c - 1).ops + Seq::<Op>::empty()
                =~= residual::unit_written(plan, a, l, r, c - 1).ops);
            assert(residual::unit_written(plan, b, l, r, c - 1).ops + Seq::<Op>::empty()
                =~= residual::unit_written(plan, b, l, r, c - 1).ops);
            assert((w.ops + b.ops) + own =~= w.ops + (b.ops + own));
            assert(forall|i: int| 0 <= i < own.len() ==> !(#[trigger] own[i] is Note)) by {
                reveal(unit_ops);
                read_back::coefficients_are_unmarked(
                    unit_coding(plan, a.bands, l, r, c - 1),
                    unit_levels(l, r, c - 1),
                );
            }
        }
    }
}

/// The symbols of a block's units alone.
pub open spec fn units_ops(plan: FramePlan, bands: Bands, l: LumaUnits) -> Seq<Op> {
    residual::luma_written(plan, Written { ops: Seq::empty(), bands }, l).ops
}

/// A block's units add their own symbols to those before them, none of them a
/// mark, and keep the palettes about to be left.
pub proof fn units_add_their_own(plan: FramePlan, w: Written, l: LumaUnits)
    requires
        l.side / l.tx >= 0,
    ensures
        ({
            let all = residual::luma_written(plan, w, l);
            let bare = Written { ops: Seq::empty(), bands: w.bands };
            &&& all.ops == w.ops + units_ops(plan, w.bands, l)
            &&& all.bands == residual::luma_written(plan, bare, l).bands
            &&& all.bands.pending == w.bands.pending
            &&& all.bands.pending_uv == w.bands.pending_uv
            &&& read_back::coded(units_ops(plan, w.bands, l)) == units_ops(plan, w.bands, l)
        }),
{
    let n = l.side / l.tx;
    let bare = Written { ops: Seq::empty(), bands: w.bands };
    assert(residual::luma_written(plan, w, l) == cells_written(plan, w, l, n, 0)) by {
        reveal(residual::luma_written);
        reveal(cells_written);
    }
    assert(residual::luma_written(plan, bare, l) == cells_written(plan, bare, l, n, 0)) by {
        reveal(residual::luma_written);
        reveal(cells_written);
    }
    lemma_cells_own(plan, w, l, n, 0);
    read_back::lemma_unmarked(units_ops(plan, w.bands, l));
}

} // verus!
