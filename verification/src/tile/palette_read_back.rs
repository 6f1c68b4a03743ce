//! What a decoder reads back of a palette: its colours and its map.
use crate::tile::color_map;
use crate::tile::color_map::MapPlane;
use crate::tile::colours;
use crate::tile::neighbours::Bands;
use crate::tile::ops;
use crate::tile::ops::Op;
use crate::tile::palette;
use crate::tile::read_back;
use crate::tile::scan;
use vstd::prelude::*;

verus! {

/// A uniform value ends itself: no other starts with its bits.
pub proof fn uniform_values_end_themselves(v: int, w: int, n: int, x: Seq<Op>, y: Seq<Op>)
    requires
        2 <= n <= 256,
        0 <= v < n,
        0 <= w < n,
        colours::uniform_ops(v, n) + x == colours::uniform_ops(w, n) + y,
    ensures
        v == w,
        x == y,
{
    colours::uniform_values_read_back(v, n);
    colours::uniform_values_read_back(w, n);
    let ov = colours::uniform_ops(v, n);
    let ow = colours::uniform_ops(w, n);
    assert((ov + x)[0] == ov[0]);
    assert((ow + y)[0] == ow[0]);
    palette::ceil_log2_is_tight(n);
    let m = crate::bits::pow2(palette::spec_ceil_log2(n) as nat) - n;
    assert(m < n);
    read_back::lemma_parts(ov, x, ow, y);
    if v >= m {
        assert(ov[1] == ow[1]);
    }
}

/// Whether two maps agree before anti-diagonal `d`.
spec fn agree(a: Seq<u8>, b: Seq<u8>, side: int, d: int) -> bool {
    forall|r: int, c: int|
        0 <= r < side && 0 <= c < side && r + c < d ==> #[trigger] color_map::pixel(a, side, r, c)
            == color_map::pixel(b, side, r, c)
}

proof fn lemma_rank_alike(
    a: Seq<u8>,
    b: Seq<u8>,
    side: int,
    row: int,
    col: int,
    color: int,
    n: int,
)
    requires
        0 <= row < side,
        0 <= col < side,
        agree(a, b, side, row + col),
    ensures
        color_map::rank(a, side, row, col, color, n) == color_map::rank(
            b,
            side,
            row,
            col,
            color,
            n,
        ),
    decreases n,
{
    if n > 0 {
        lemma_rank_alike(a, b, side, row, col, color, n - 1);
        lemma_score_alike(a, b, side, row, col, n - 1);
        lemma_score_alike(a, b, side, row, col, color);
    }
}

proof fn lemma_score_alike(a: Seq<u8>, b: Seq<u8>, side: int, row: int, col: int, color: int)
    requires
        0 <= row < side,
        0 <= col < side,
        agree(a, b, side, row + col),
    ensures
        color_map::score(a, side, row, col, color) == color_map::score(b, side, row, col, color),
{
    if col > 0 {
        assert(color_map::pixel(a, side, row, col - 1) == color_map::pixel(b, side, row, col - 1));
    }
    if row > 0 {
        assert(color_map::pixel(a, side, row - 1, col) == color_map::pixel(b, side, row - 1, col));
    }
    if row > 0 && col > 0 {
        assert(color_map::pixel(a, side, row - 1, col - 1) == color_map::pixel(
            b,
            side,
            row - 1,
            col - 1,
        ));
    }
}

proof fn lemma_pixel(map: Seq<u8>, side: int, n: int, row: int, col: int)
    requires
        color_map::is_map(map, side, n),
        0 <= row < side,
        0 <= col < side,
    ensures
        0 <= color_map::pixel(map, side, row, col) < n,
{
    assert(0 <= row * side + col < side * side) by (nonlinear_arith)
        requires
            0 <= row < side,
            0 <= col < side,
    ;
    assert(map[row * side + col] < n);
}

/// A pixel's symbol tells its colour, where what came before it agrees.
proof fn lemma_pixel_op(
    plane: MapPlane,
    a: Seq<u8>,
    b: Seq<u8>,
    side: int,
    n: int,
    row: int,
    col: int,
)
    requires
        2 <= n <= 256,
        color_map::is_map(a, side, n),
        color_map::is_map(b, side, n),
        0 <= row < side,
        0 <= col < side,
        agree(a, b, side, row + col),
        color_map::pixel_op(plane, a, side, row, col, n) == color_map::pixel_op(
            plane,
            b,
            side,
            row,
            col,
            n,
        ),
    ensures
        color_map::pixel(a, side, row, col) == color_map::pixel(b, side, row, col),
{
    let va = color_map::pixel(a, side, row, col);
    let vb = color_map::pixel(b, side, row, col);
    lemma_pixel(a, side, n, row, col);
    lemma_pixel(b, side, n, row, col);
    lemma_rank_alike(a, b, side, row, col, vb, n);
    if va != vb {
        color_map::colour_ranks_are_distinct(a, side, row, col, va, vb, n);
        color_map::colour_ranks_are_distinct(a, side, row, col, vb, va, n);
    }
}

proof fn lemma_wave(
    plane: MapPlane,
    a: Seq<u8>,
    b: Seq<u8>,
    side: int,
    n: int,
    count: int,
    x: Seq<Op>,
    y: Seq<Op>,
)
    requires
        1 <= side,
        2 <= n <= 256,
        1 <= count <= 2 * side - 1,
        color_map::is_map(a, side, n),
        color_map::is_map(b, side, n),
        a[0] == b[0],
        color_map::wave_ops(plane, a, side, n, count) + x == color_map::wave_ops(
            plane,
            b,
            side,
            n,
            count,
        ) + y,
    ensures
        agree(a, b, side, count),
        x == y,
    decreases count,
{
    let wa = color_map::wave_ops(plane, a, side, n, count);
    let wb = color_map::wave_ops(plane, b, side, n, count);
    if count == 1 {
        assert(wa + x =~= x);
        assert(wb + y =~= y);
        assert(0 * side + 0 == 0);
        assert forall|r: int, c: int| 0 <= r < side && 0 <= c < side && r + c < count implies
            #[trigger] color_map::pixel(a, side, r, c) == color_map::pixel(b, side, r, c) by {
            assert(r == 0 && c == 0);
        }
    } else {
        let d = count - 1;
        let pa = color_map::wave_ops(plane, a, side, n, d);
        let pb = color_map::wave_ops(plane, b, side, n, d);
        let da = color_map::diagonal_ops(plane, a, side, n, d);
        let db = color_map::diagonal_ops(plane, b, side, n, d);
        assert(wa == pa + da);
        assert(wb == pb + db);
        assert(wa + x =~= pa + (da + x));
        assert(wb + y =~= pb + (db + y));
        lemma_wave(plane, a, b, side, n, d, da + x, db + y);
        read_back::lemma_parts(da, x, db, y);
        assert forall|r: int, c: int| 0 <= r < side && 0 <= c < side && r + c < count implies
            #[trigger] color_map::pixel(a, side, r, c) == color_map::pixel(b, side, r, c) by {
            if r + c == d {
                let k = r - scan::first_row(side, d);
                assert(da[k] == color_map::pixel_op(plane, a, side, r, c, n));
                assert(db[k] == color_map::pixel_op(plane, b, side, r, c, n));
                lemma_pixel_op(plane, a, b, side, n, r, c);
            }
        }
    }
}

/// A palette's map reads back: whatever follows it, its symbols tell every
/// pixel's colour, and where they end.
pub proof fn color_maps_read_back(
    plane: MapPlane,
    a: Seq<u8>,
    b: Seq<u8>,
    side: int,
    n: int,
    x: Seq<Op>,
    y: Seq<Op>,
)
    requires
        1 <= side,
        2 <= n <= 256,
        color_map::is_map(a, side, n),
        color_map::is_map(b, side, n),
        color_map::color_map_ops(plane, a, side, n) + x == color_map::color_map_ops(
            plane,
            b,
            side,
            n,
        ) + y,
    ensures
        a == b,
        x == y,
{
    assert(1 <= side * side) by (nonlinear_arith)
        requires
            1 <= side,
    ;
    let last = 2 * side - 1;
    let wa = color_map::wave_ops(plane, a, side, n, last);
    let wb = color_map::wave_ops(plane, b, side, n, last);
    let ua = colours::uniform_ops(a[0] as int, n);
    let ub = colours::uniform_ops(b[0] as int, n);
    assert((ua + wa) + x =~= ua + (wa + x));
    assert((ub + wb) + y =~= ub + (wb + y));
    uniform_values_end_themselves(a[0] as int, b[0] as int, n, wa + x, wb + y);
    lemma_wave(plane, a, b, side, n, last, x, y);
    assert forall|p: int| 0 <= p < a.len() implies a[p] == b[p] by {
        vstd::arithmetic::div_mod::lemma_fundamental_div_mod(p, side);
        let r = p / side;
        let c = p % side;
        assert(0 <= r < side) by (nonlinear_arith)
            requires
                p == side * r + c,
                0 <= c < side,
                0 <= p < side * side,
        ;
        assert(r * side + c == p) by (nonlinear_arith)
            requires
                p == side * r + c,
        ;
        assert(color_map::pixel(a, side, r, c) == color_map::pixel(b, side, r, c));
    }
    assert(a =~= b);
}

/// The flags of the cache tell which of its colours a palette takes.
proof fn lemma_flags(
    a: Seq<u16>,
    b: Seq<u16>,
    cache: Seq<u16>,
    count: int,
    marks: bool,
    x: Seq<Op>,
    y: Seq<Op>,
)
    requires
        a.len() == b.len(),
        0 <= count <= cache.len(),
        colours::flag_ops(a, cache, count, marks) + x == colours::flag_ops(b, cache, count, marks)
            + y,
    ensures
        colours::supplied(a, cache, count) == colours::supplied(b, cache, count),
        x == y,
    decreases count,
{
    let fa = colours::flag_ops(a, cache, count, marks);
    let fb = colours::flag_ops(b, cache, count, marks);
    if count == 0 {
        assert(fa + x =~= x);
        assert(fb + y =~= y);
    } else {
        let pa = colours::flag_ops(a, cache, count - 1, marks);
        let pb = colours::flag_ops(b, cache, count - 1, marks);
        let ta = lemma_flag(a, cache, count, marks);
        let tb = lemma_flag(b, cache, count, marks);
        assert(fa + x =~= pa + (ta + x));
        assert(fb + y =~= pb + (tb + y));
        lemma_flags(a, b, cache, count - 1, marks, ta + x, tb + y);
        if colours::supplied(a, cache, count - 1).len() < a.len() {
            assert((ta + x)[0] == ta[0]);
            assert((tb + y)[0] == tb[0]);
        }
        read_back::lemma_parts(ta, x, tb, y);
    }
}

/// What one entry of the cache adds to the flags.
proof fn lemma_flag(colors: Seq<u16>, cache: Seq<u16>, count: int, marks: bool) -> (tail: Seq<Op>)
    requires
        1 <= count,
    ensures
        colours::flag_ops(colors, cache, count, marks) == colours::flag_ops(
            colors,
            cache,
            count - 1,
            marks,
        ) + tail,
        colours::supplied(colors, cache, count - 1).len() >= colors.len() ==> tail.len() == 0,
        colours::supplied(colors, cache, count - 1).len() < colors.len() ==> {
            let take = colors.contains(cache[count - 1]);
            &&& tail.len() == 1 + ops::flag(take && marks)
            &&& tail[0] == ops::literal(ops::flag(take), 1)
        },
{
    let before = colours::flag_ops(colors, cache, count - 1, marks);
    let after = colours::flag_ops(colors, cache, count, marks);
    let tail = after.subrange(before.len() as int, after.len() as int);
    assert(after =~= before + tail);
    tail
}

/// The colours a cache in order supplies are in order, the palette's, and no
/// entry that comes after.
proof fn lemma_supplied(colors: Seq<u16>, cache: Seq<u16>, count: int)
    requires
        palette::ascends(cache),
        0 <= count <= cache.len(),
    ensures
        palette::ascends(colours::supplied(colors, cache, count)),
        forall|i: int|
            0 <= i < colours::supplied(colors, cache, count).len() ==> {
                let v = #[trigger] colours::supplied(colors, cache, count)[i];
                &&& colors.contains(v)
                &&& count > 0
                &&& v <= cache[count - 1]
            },
    decreases count,
{
    if count > 0 {
        lemma_supplied(colors, cache, count - 1);
        let before = colours::supplied(colors, cache, count - 1);
        let after = colours::supplied(colors, cache, count);
        if count > 1 {
            assert(cache[count - 2] < cache[count - 1]);
        }
        assert forall|i: int, j: int| 0 <= i < j < after.len() implies after[i] < after[j] by {
            if j == before.len() {
                assert(after[i] == before[i]);
            }
        }
        assert forall|i: int| 0 <= i < after.len() implies {
            let v = #[trigger] after[i];
            &&& colors.contains(v)
            &&& v <= cache[count - 1]
        } by {
            if i < before.len() {
                assert(after[i] == before[i]);
            }
        }
    }
}

/// What is transmitted: the colours that were not supplied.
proof fn lemma_sent(colors: Seq<u16>, cached: Seq<u16>, count: int)
    requires
        0 <= count <= colors.len(),
    ensures
        forall|v: u16| #[trigger]
            colours::transmitted(colors, cached, count).contains(v) <==> colors.take(
                count,
            ).contains(v) && !cached.contains(v),
    decreases count,
{
    let after = colours::transmitted(colors, cached, count);
    if count > 0 {
        lemma_sent(colors, cached, count - 1);
        let before = colours::transmitted(colors, cached, count - 1);
        let own = colors[count - 1];
        assert(colors.take(count) =~= colors.take(count - 1).push(own));
        assert forall|v: u16| #[trigger] after.contains(v) <==> colors.take(count).contains(v)
            && !cached.contains(v) by {
            lemma_pushed(colors.take(count - 1), own, v);
            lemma_pushed(before, own, v);
        }
    } else {
        assert(colors.take(0) =~= Seq::<u16>::empty());
    }
}

proof fn lemma_pushed(s: Seq<u16>, own: u16, v: u16)
    ensures
        s.push(own).contains(v) <==> s.contains(v) || v == own,
{
    if s.contains(v) {
        let i = choose|i: int| 0 <= i < s.len() && s[i] == v;
        assert(s.push(own)[i] == v);
    }
    if v == own {
        assert(s.push(own)[s.len() as int] == v);
    }
}

/// How many colours are transmitted: as many as the cache leaves open.
proof fn lemma_sent_count(colors: Seq<u16>, cached: Seq<u16>)
    requires
        colours::are_bytes(colors),
        palette::ascends(cached),
        forall|i: int| 0 <= i < cached.len() ==> colors.contains(#[trigger] cached[i]),
    ensures
        colours::transmitted(colors, cached, colors.len() as int).len() + cached.len()
            == colors.len(),
{
    let sent = colours::transmitted(colors, cached, colors.len() as int);
    colours::lemma_transmitted(colors, cached, colors.len() as int);
    lemma_sent(colors, cached, colors.len() as int);
    assert(colors.take(colors.len() as int) =~= colors);
    colors.unique_seq_to_set();
    sent.unique_seq_to_set();
    cached.unique_seq_to_set();
    vstd::seq_lib::seq_to_set_is_finite(sent);
    vstd::seq_lib::seq_to_set_is_finite(cached);
    assert(sent.to_set() + cached.to_set() =~= colors.to_set()) by {
        assert forall|v: u16|
            (sent.to_set() + cached.to_set()).contains(v) <==> colors.to_set().contains(v) by {
            assert(sent.contains(v) <==> colors.contains(v) && !cached.contains(v));
            if cached.contains(v) {
                let i = choose|i: int| 0 <= i < cached.len() && cached[i] == v;
                assert(colors.contains(cached[i]));
            }
        }
    }
    assert(sent.to_set().disjoint(cached.to_set())) by {
        assert forall|v: u16| sent.to_set().contains(v) implies !cached.to_set().contains(v) by {
            assert(sent.contains(v));
        }
    }
    vstd::set_lib::lemma_set_disjoint_lens(sent.to_set(), cached.to_set());
}

/// The transmitted colours read back, where their number is known.
proof fn lemma_steps(
    s: Seq<u16>,
    t: Seq<u16>,
    top: int,
    bias: int,
    x: Seq<Op>,
    y: Seq<Op>,
)
    requires
        colours::are_bytes(s),
        colours::are_bytes(t),
        s.len() == t.len(),
        top + bias == 256,
        bias == 0 || bias == 1,
        colours::transmitted_ops(s, top, bias) + x == colours::transmitted_ops(t, top, bias) + y,
    ensures
        s == t,
        x == y,
{
    let os = colours::transmitted_ops(s, top, bias);
    let ot = colours::transmitted_ops(t, top, bias);
    read_back::lemma_parts(os, x, ot, y);
    if s.len() > 0 {
        assert(os[0] == ot[0]);
        assert(s[0] == t[0]);
        lemma_step_chain(s, t, top, bias, s.len() as int);
    }
    assert(s =~= t);
}

proof fn lemma_step_chain(s: Seq<u16>, t: Seq<u16>, top: int, bias: int, count: int)
    requires
        colours::are_bytes(s),
        colours::are_bytes(t),
        s.len() == t.len(),
        bias == 0 || bias == 1,
        1 <= count <= s.len(),
        s[0] == t[0],
        colours::transmitted_ops(s, top, bias) == colours::transmitted_ops(t, top, bias),
    ensures
        forall|i: int| 0 <= i < count ==> s[i] == t[i],
    decreases count,
{
    if count > 1 {
        lemma_step_chain(s, t, top, bias, count - 1);
        let j = count - 2;
        let os = colours::transmitted_ops(s, top, bias);
        let ot = colours::transmitted_ops(t, top, bias);
        assert(os[2 + j] == ot[2 + j]);
        assert(s[j] < s[j + 1]);
        assert(t[j] < t[j + 1]);
        assert(s[j + 1] <= 255);
        assert(t[j + 1] <= 255);
        let es = colours::extra_of(s, top, bias);
        let et = colours::extra_of(t, top, bias);
        assert(os[2 + j] == colours::step_ops(s, top, bias, es)[j]);
        assert(ot[2 + j] == colours::step_ops(t, top, bias, et)[j]);
        assert(colours::step(s, bias, j) == colours::step(t, bias, j));
    }
}

/// Two ascending lists of the same colours are one list.
proof fn lemma_same_colours(a: Seq<u16>, b: Seq<u16>, count: int)
    requires
        palette::ascends(a),
        palette::ascends(b),
        a.len() == b.len(),
        forall|v: u16| #[trigger] a.contains(v) <==> b.contains(v),
        0 <= count <= a.len(),
    ensures
        forall|i: int| 0 <= i < count ==> a[i] == b[i],
    decreases count,
{
    if count > 0 {
        lemma_same_colours(a, b, count - 1);
        let i = count - 1;
        assert(a.contains(a[i]));
        assert(b.contains(b[i]));
        assert(a.contains(b[i]));
        let j = choose|j: int| 0 <= j < b.len() && b[j] == a[i];
        let k = choose|k: int| 0 <= k < a.len() && a[k] == b[i];
        if j < i {
            assert(a[j] < a[i]);
        }
        if k < i {
            assert(b[k] < b[i]);
        }
        if j > i {
            assert(b[i] < b[j]);
        }
        if k > i {
            assert(a[i] < a[k]);
        }
    }
}

/// A plane's colours read back against the cache they were coded with.
proof fn lemma_plane(
    a: Seq<u16>,
    b: Seq<u16>,
    cache: Seq<u16>,
    top: int,
    bias: int,
    marks: bool,
    x: Seq<Op>,
    y: Seq<Op>,
)
    requires
        colours::are_bytes(a),
        colours::are_bytes(b),
        a.len() == b.len(),
        palette::ascends(cache),
        top + bias == 256,
        bias == 0 || bias == 1,
        colours::plane_ops(a, cache, top, bias, marks) + x == colours::plane_ops(
            b,
            cache,
            top,
            bias,
            marks,
        ) + y,
    ensures
        a == b,
        x == y,
{
    let size = cache.len() as int;
    let n = a.len() as int;
    let ca = colours::supplied(a, cache, size);
    let cb = colours::supplied(b, cache, size);
    let fa = colours::flag_ops(a, cache, size, marks);
    let fb = colours::flag_ops(b, cache, size, marks);
    let sa = colours::transmitted(a, ca, n);
    let sb = colours::transmitted(b, cb, n);
    let ta = colours::transmitted_ops(sa, top, bias);
    let tb = colours::transmitted_ops(sb, top, bias);
    assert((fa + ta) + x =~= fa + (ta + x));
    assert((fb + tb) + y =~= fb + (tb + y));
    lemma_flags(a, b, cache, size, marks, ta + x, tb + y);
    lemma_supplied(a, cache, size);
    lemma_supplied(b, cache, size);
    lemma_sent_count(a, ca);
    lemma_sent_count(b, cb);
    colours::lemma_transmitted(a, ca, n);
    colours::lemma_transmitted(b, cb, n);
    lemma_steps(sa, sb, top, bias, x, y);
    lemma_sent(a, ca, n);
    lemma_sent(b, cb, n);
    assert(a.take(n) =~= a);
    assert(b.take(n) =~= b);
    assert forall|v: u16| #[trigger] a.contains(v) <==> b.contains(v) by {
        assert(sa.contains(v) <==> sb.contains(v));
        if ca.contains(v) {
            let i = choose|i: int| 0 <= i < ca.len() && ca[i] == v;
            assert(a.contains(ca[i]));
            assert(b.contains(cb[i]));
        }
    }
    lemma_same_colours(a, b, n);
    assert(a =~= b);
}

/// Luma's base colours read back: against the same cache, and whatever follows
/// them, the symbols of a palette of a known size tell its colours.
pub proof fn palette_colours_read_back(
    a: Seq<u16>,
    b: Seq<u16>,
    cache: Seq<u16>,
    x: Seq<Op>,
    y: Seq<Op>,
)
    requires
        colours::are_bytes(a),
        colours::are_bytes(b),
        a.len() == b.len(),
        palette::ascends(cache),
        colours::colors_y_ops(a, cache) + x == colours::colors_y_ops(b, cache) + y,
    ensures
        a == b,
        x == y,
{
    lemma_plane(a, b, cache, 255, 1, false, x, y);
}

/// A decoder sees the flags of the cache and not their marks.
proof fn lemma_flags_seen(colors: Seq<u16>, cache: Seq<u16>, count: int)
    ensures
        read_back::coded(colours::flag_ops(colors, cache, count, true)) == colours::flag_ops(
            colors,
            cache,
            count,
            false,
        ),
    decreases count,
{
    if count > 0 {
        lemma_flags_seen(colors, cache, count - 1);
        let before = colours::flag_ops(colors, cache, count - 1, true);
        if colours::supplied(colors, cache, count - 1).len() < colors.len() {
            let take = colors.contains(cache[count - 1]);
            let bit = ops::literal(ops::flag(take), 1);
            let flagged = before.push(bit);
            assert(flagged.drop_last() =~= before);
            assert(read_back::coded(flagged) == read_back::coded(before).push(bit));
            if take {
                read_back::lemma_mark(flagged, Op::Note(ops::Note::PaletteUvCache));
            }
        }
    }
}

/// What a decoder sees of a plane's colours is what there is of them without
/// marks.
proof fn lemma_plane_seen(colors: Seq<u16>, cache: Seq<u16>, top: int, bias: int)
    ensures
        read_back::coded(colours::plane_ops(colors, cache, top, bias, true))
            == colours::plane_ops(colors, cache, top, bias, false),
{
    let size = cache.len() as int;
    let cached = colours::supplied(colors, cache, size);
    let sent = colours::transmitted_ops(
        colours::transmitted(colors, cached, colors.len() as int),
        top,
        bias,
    );
    read_back::marks_are_not_coded(colours::flag_ops(colors, cache, size, true), sent);
    lemma_flags_seen(colors, cache, size);
    read_back::lemma_unmarked(sent);
}

/// What a decoder sees of chroma's colours.
pub proof fn lemma_chroma_seen(u: Seq<u16>, v: Seq<u16>, cache: Seq<u16>)
    ensures
        read_back::coded(colours::colors_uv_ops(u, v, cache)) == colours::plane_ops(
            u,
            cache,
            256,
            0,
            false,
        ) + seq![ops::literal(0, 1)] + Seq::new(
            v.len(),
            |i: int| ops::literal(v[i] as int, 8),
        ),
{
    let plane = colours::plane_ops(u, cache, 256, 0, true);
    let zero = seq![ops::literal(0, 1)];
    let raw = Seq::new(v.len(), |i: int| ops::literal(v[i] as int, 8));
    read_back::marks_are_not_coded(plane + zero, raw);
    read_back::marks_are_not_coded(plane, zero);
    lemma_plane_seen(u, cache, 256, 0);
    read_back::lemma_unmarked(zero);
    read_back::lemma_unmarked(raw);
}

/// Chroma's base colours read back likewise from what a decoder sees: U's
/// against their cache, V's one by one.
pub proof fn chroma_colours_read_back(
    ua: Seq<u16>,
    va: Seq<u16>,
    ub: Seq<u16>,
    vb: Seq<u16>,
    cache: Seq<u16>,
    x: Seq<Op>,
    y: Seq<Op>,
)
    requires
        colours::are_bytes(ua),
        colours::are_bytes(ub),
        ua.len() == ub.len(),
        va.len() == ua.len(),
        vb.len() == ub.len(),
        palette::ascends(cache),
        read_back::coded(colours::colors_uv_ops(ua, va, cache)) + x == read_back::coded(
            colours::colors_uv_ops(ub, vb, cache),
        ) + y,
    ensures
        ua == ub,
        va == vb,
        x == y,
{
    lemma_chroma_seen(ua, va, cache);
    lemma_chroma_seen(ub, vb, cache);
    let zero = seq![ops::literal(0, 1)];
    let pa = colours::plane_ops(ua, cache, 256, 0, false);
    let pb = colours::plane_ops(ub, cache, 256, 0, false);
    let ra = Seq::new(va.len(), |i: int| ops::literal(va[i] as int, 8));
    let rb = Seq::new(vb.len(), |i: int| ops::literal(vb[i] as int, 8));
    read_back::lemma_regroup(pa, zero, ra, x);
    read_back::lemma_regroup(pb, zero, rb, y);
    lemma_plane(ua, ub, cache, 256, 0, false, zero + (ra + x), zero + (rb + y));
    read_back::lemma_parts(zero, ra + x, zero, rb + y);
    read_back::lemma_parts(ra, x, rb, y);
    assert forall|i: int| 0 <= i < va.len() implies va[i] == vb[i] by {
        assert(ra[i] == rb[i]);
    }
    assert(va =~= vb);
}

/// The caches a block's colours are coded against ascend where its neighbours'
/// palettes do.
pub proof fn caches_ascend(bands: Bands, mi_r: int, mi_c: int)
    requires
        palette::ascends(palette::above_colors(bands, mi_r, mi_c)),
        palette::ascends(palette::left_colors(bands, mi_r, mi_c)),
        palette::ascends(palette::above_uv_colors(bands, mi_r, mi_c)),
        palette::ascends(palette::left_uv_colors(bands, mi_r, mi_c)),
    ensures
        palette::ascends(palette::spec_cache(bands, mi_r, mi_c)),
        palette::ascends(palette::spec_uv_cache(bands, mi_r, mi_c)),
{
    palette::merged_colours_ascend(
        palette::above_colors(bands, mi_r, mi_c),
        palette::left_colors(bands, mi_r, mi_c),
        0,
        0,
        Seq::empty(),
    );
    palette::merged_colours_ascend(
        palette::above_uv_colors(bands, mi_r, mi_c),
        palette::left_uv_colors(bands, mi_r, mi_c),
        0,
        0,
        Seq::empty(),
    );
}

} // verus!
