//! What the contexts of palettes and their colour maps mean.
use crate::bits;
use crate::tile::color_map;
use crate::tile::color_map::MapPlane;
use crate::tile::colours;
use crate::tile::intra;
use crate::tile::neighbour_laws;
use crate::tile::neighbours::Bands;
use crate::tile::ops;
use crate::tile::ops::{Cdf, Op};
use crate::tile::palette;
use crate::tile::syntax_laws;
use vstd::prelude::*;

verus! {

/// The context of a palette is the number of the two neighbours in the frame that
/// have one; the sizes of block it is offered to have a table each.
pub proof fn palette_contexts_count_palettes(b: Bands, mi_r: int, mi_c: int, side: int)
    requires
        mi_r >= 0,
        mi_c >= 0,
        intra::is_block_side(side),
    ensures
        palette::spec_palette_ctx(b, mi_r, mi_c) == syntax_laws::count2(
            mi_r > 0 && b.above[mi_c].palette_size > 0,
            mi_c > 0 && b.left[mi_r].palette_size > 0,
        ),
        palette::spec_palette_ctx(neighbour_laws::mirrored(b), mi_c, mi_r)
            == palette::spec_palette_ctx(b, mi_r, mi_c),
        intra::palette_class(side) == 0 <==> side == 8,
        intra::palette_class(side) == 2 <==> side == 16,
        intra::palette_class(side) == 4 <==> side == 32,
        intra::palette_class(side) == 6 <==> side == 64,
        intra::spec_palette_uv_side(side) == side / 2,
{
}

/// Whether a colour is one of the first `size` of eight.
pub open spec fn is_among(v: u16, size: u8, colors: [u16; 8]) -> bool {
    exists|k: int| 0 <= k < size && k < 8 && #[trigger] colors[k] == v
}

/// The colours a block can take from its neighbours are those of the palette above,
/// but for the first row of a superblock, and of the one to the left, but for the
/// first column of the frame; each once and in ascending order.
pub proof fn caches_are_the_neighbours_colours(b: Bands, mi_r: int, mi_c: int, v: u16)
    requires
        b.above[mi_c].palette_size <= 8,
        b.left[mi_r].palette_size <= 8,
        b.above[mi_c].palette_uv_size <= 8,
        b.left[mi_r].palette_uv_size <= 8,
        palette::ascends(palette::above_colors(b, mi_r, mi_c)),
        palette::ascends(palette::left_colors(b, mi_r, mi_c)),
        palette::ascends(palette::above_uv_colors(b, mi_r, mi_c)),
        palette::ascends(palette::left_uv_colors(b, mi_r, mi_c)),
    ensures
        ({
            let (a, l) = (b.above[mi_c], b.left[mi_r]);
            let (y, uv) = (
                palette::spec_cache(b, mi_r, mi_c),
                palette::spec_uv_cache(b, mi_r, mi_c),
            );
            &&& palette::ascends(y) && palette::ascends(uv)
            &&& y.contains(v) <==> mi_r % 16 != 0 && is_among(v, a.palette_size, a.palette_colors)
                || mi_c > 0 && is_among(v, l.palette_size, l.palette_colors)
            &&& uv.contains(v) <==> mi_r % 16 != 0 && is_among(
                v,
                a.palette_uv_size,
                a.palette_uv_colors,
            ) || mi_c > 0 && is_among(v, l.palette_uv_size, l.palette_uv_colors)
        }),
{
    let (a, l) = (b.above[mi_c], b.left[mi_r]);
    lemma_union(palette::above_colors(b, mi_r, mi_c), palette::left_colors(b, mi_r, mi_c), v);
    lemma_union(
        palette::above_uv_colors(b, mi_r, mi_c),
        palette::left_uv_colors(b, mi_r, mi_c),
        v,
    );
    lemma_among(v, a.palette_size, a.palette_colors);
    lemma_among(v, l.palette_size, l.palette_colors);
    lemma_among(v, a.palette_uv_size, a.palette_uv_colors);
    lemma_among(v, l.palette_uv_size, l.palette_uv_colors);
}

proof fn lemma_union(a: Seq<u16>, l: Seq<u16>, v: u16)
    requires
        palette::ascends(a),
        palette::ascends(l),
    ensures
        palette::ascends(palette::merged(a, l, 0, 0, Seq::empty())),
        palette::merged(a, l, 0, 0, Seq::empty()).contains(v) <==> a.contains(v) || l.contains(v),
{
    palette::merged_colours_ascend(a, l, 0, 0, Seq::empty());
    assert(a.skip(0) =~= a);
    assert(l.skip(0) =~= l);
    let none = Seq::<u16>::empty();
    assert(palette::merged(a, l, 0, 0, none).contains(v) <==> none.contains(v) || a.skip(
        0,
    ).contains(v) || l.skip(0).contains(v));
}

proof fn lemma_among(v: u16, size: u8, colors: [u16; 8])
    requires
        size <= 8,
    ensures
        palette::palette_of(size, colors).contains(v) <==> is_among(v, size, colors),
{
    let s = palette::palette_of(size, colors);
    if s.contains(v) {
        let k = choose|k: int| 0 <= k < s.len() && s[k] == v;
        assert(colors[k] == v);
    }
    if is_among(v, size, colors) {
        let k = choose|k: int| 0 <= k < size && k < 8 && #[trigger] colors[k] == v;
        assert(s[k] == v);
    }
}

/// The pixel at a place of a map.
pub open spec fn colour_at(map: Seq<u8>, side: int, row: int, col: int) -> int {
    map[row * side + col] as int
}

proof fn lemma_top(map: Seq<u8>, side: int, row: int, col: int, n: int, best: int)
    requires
        0 <= best < n,
        forall|c: int|
            0 <= c < n ==> #[trigger] color_map::score(map, side, row, col, c)
                <= color_map::score(map, side, row, col, best),
    ensures
        color_map::top_score(map, side, row, col, n) == color_map::score(map, side, row, col, best),
{
    lemma_top_upto(map, side, row, col, n, best);
}

proof fn lemma_top_upto(map: Seq<u8>, side: int, row: int, col: int, n: int, best: int)
    requires
        0 <= best,
        forall|c: int|
            0 <= c < n ==> #[trigger] color_map::score(map, side, row, col, c)
                <= color_map::score(map, side, row, col, best),
    ensures
        color_map::top_score(map, side, row, col, n) <= color_map::score(
            map,
            side,
            row,
            col,
            best,
        ),
        best < n ==> color_map::top_score(map, side, row, col, n) == color_map::score(
            map,
            side,
            row,
            col,
            best,
        ),
        0 <= color_map::top_score(map, side, row, col, n),
    decreases n,
{
    if n > 0 {
        lemma_top_upto(map, side, row, col, n - 1, best);
    }
}

/// The context of a pixel goes by the three around it, to the left, above and between
/// the two: 0 in the first row or column; else 4 where all three are one colour, 3
/// where the left and the upper one are, 2 where one of them is the colour between
/// them, and 1 where all three differ.
pub proof fn map_contexts_go_by_three_neighbours(
    map: Seq<u8>,
    side: int,
    row: int,
    col: int,
    n: int,
)
    requires
        0 <= row < side,
        0 <= col < side,
        color_map::is_map(map, side, n),
    ensures
        ({
            let ctx = color_map::color_ctx(map, side, row, col, n);
            let left = colour_at(map, side, row, col - 1);
            let above = colour_at(map, side, row - 1, col);
            let between = colour_at(map, side, row - 1, col - 1);
            &&& row == 0 || col == 0 ==> ctx == 0
            &&& row > 0 && col > 0 && left == above && above == between ==> ctx == 4
            &&& row > 0 && col > 0 && left == above && above != between ==> ctx == 3
            &&& row > 0 && col > 0 && left != above && (left == between || above == between)
                ==> ctx == 2
            &&& row > 0 && col > 0 && left != above && left != between && above != between ==> ctx
                == 1
        }),
{
    if row > 0 && col > 0 {
        lemma_inside(side, row, col - 1);
        lemma_inside(side, row - 1, col);
        lemma_inside(side, row - 1, col - 1);
        let left = colour_at(map, side, row, col - 1);
        let above = colour_at(map, side, row - 1, col);
        let between = colour_at(map, side, row - 1, col - 1);
        assert(0 <= left < n && 0 <= above < n && 0 <= between < n);
        let best = if above == between {
            above
        } else {
            left
        };
        lemma_top(map, side, row, col, n, best);
    }
}

proof fn lemma_inside(side: int, row: int, col: int)
    requires
        0 <= row < side,
        0 <= col < side,
    ensures
        0 <= row * side + col < side * side,
{
    assert(0 <= row * side + col < side * side) by (nonlinear_arith)
        requires
            0 <= row < side,
            0 <= col < side,
    ;
}

proof fn lemma_first_rank(map: Seq<u8>, side: int, row: int, col: int, color: int, n: int)
    requires
        forall|c: int|
            0 <= c < n && c != color ==> #[trigger] color_map::score(map, side, row, col, c)
                < color_map::score(map, side, row, col, color),
    ensures
        color_map::rank(map, side, row, col, color, n) == 0,
    decreases n,
{
    if n > 0 {
        lemma_first_rank(map, side, row, col, color, n - 1);
    }
}

/// A pixel like both the left and the upper one, or like the only one of them there is,
/// is coded as 0; and colours that no neighbour has keep their order behind those that
/// one has.
pub proof fn likely_colours_come_first(
    map: Seq<u8>,
    side: int,
    row: int,
    col: int,
    n: int,
)
    requires
        0 <= row < side,
        0 <= col < side,
        row + col > 0,
        color_map::is_map(map, side, n),
    ensures
        ({
            let own = colour_at(map, side, row, col);
            let left = colour_at(map, side, row, col - 1);
            let above = colour_at(map, side, row - 1, col);
            let said = color_map::pixel_op(MapPlane::Y, map, side, row, col, n);
            let ctx = color_map::color_ctx(map, side, row, col, n);
            let first = ops::symbol(0, Cdf::PaletteYColorIndex((n - 2) as usize, ctx as usize));
            &&& row > 0 && col > 0 && own == left && own == above ==> said == first
            &&& row == 0 && own == left ==> said == first
            &&& col == 0 && own == above ==> said == first
            &&& color_map::pixel_op(MapPlane::Uv, map, side, row, col, n) == ops::symbol(
                color_map::rank(map, side, row, col, own, n),
                Cdf::PaletteUvColorIndex((n - 2) as usize, ctx as usize),
            )
        }),
        forall|a: int, c: int|
            #![trigger color_map::rank(map, side, row, col, a, n), color_map::rank(map, side, row, col, c, n)]
            0 <= a < n && 0 <= c < n && color_map::score(map, side, row, col, a)
                > color_map::score(map, side, row, col, c) ==> color_map::rank(
                map,
                side,
                row,
                col,
                a,
                n,
            ) < color_map::rank(map, side, row, col, c, n),
        forall|a: int, c: int|
            #![trigger color_map::rank(map, side, row, col, a, n), color_map::rank(map, side, row, col, c, n)]
            0 <= a < c < n && color_map::score(map, side, row, col, a) == color_map::score(
                map,
                side,
                row,
                col,
                c,
            ) ==> color_map::rank(map, side, row, col, a, n) < color_map::rank(
                map,
                side,
                row,
                col,
                c,
                n,
            ),
{
    let own = colour_at(map, side, row, col);
    if row > 0 && col > 0 && own == colour_at(map, side, row, col - 1) && own == colour_at(
        map,
        side,
        row - 1,
        col,
    ) {
        lemma_first_rank(map, side, row, col, own, n);
    }
    if row == 0 && own == colour_at(map, side, row, col - 1) {
        lemma_first_rank(map, side, row, col, own, n);
    }
    if col == 0 && own == colour_at(map, side, row - 1, col) {
        lemma_first_rank(map, side, row, col, own, n);
    }
    assert forall|a: int, c: int|
        #![trigger color_map::rank(map, side, row, col, a, n), color_map::rank(map, side, row, col, c, n)]
        0 <= a < n && 0 <= c < n && (color_map::score(map, side, row, col, a) > color_map::score(
            map,
            side,
            row,
            col,
            c,
        ) || color_map::score(map, side, row, col, a) == color_map::score(map, side, row, col, c)
            && a < c) implies color_map::rank(map, side, row, col, a, n) < color_map::rank(
        map,
        side,
        row,
        col,
        c,
        n,
    ) by {
        lemma_earlier(map, side, row, col, a, c, n);
    }
}

proof fn lemma_earlier(
    map: Seq<u8>,
    side: int,
    row: int,
    col: int,
    a: int,
    c: int,
    n: int,
)
    requires
        0 <= a,
        0 <= c,
        color_map::score(map, side, row, col, a) > color_map::score(map, side, row, col, c)
            || color_map::score(map, side, row, col, a) == color_map::score(map, side, row, col, c)
            && a < c,
    ensures
        color_map::rank(map, side, row, col, a, n) + (if a < n {
            1int
        } else {
            0
        }) <= color_map::rank(map, side, row, col, c, n),
    decreases n,
{
    if n > 0 {
        lemma_earlier(map, side, row, col, a, c, n - 1);
    }
}

/// A neighbour to the left and one above count two each for a colour, and the one
/// between them counts one.
pub proof fn nearer_pixels_count_double(
    map: Seq<u8>,
    side: int,
    row: int,
    col: int,
    color: int,
)
    ensures
        ({
            let left = col > 0 && colour_at(map, side, row, col - 1) == color;
            let above = row > 0 && colour_at(map, side, row - 1, col) == color;
            let between = row > 0 && col > 0 && colour_at(map, side, row - 1, col - 1) == color;
            let s = color_map::score(map, side, row, col, color);
            &&& s % 2 == 1 <==> between
            &&& s / 2 == syntax_laws::count2(left, above)
            &&& 0 <= s <= 5
        }),
{
}

proof fn lemma_all_transmitted(colors: Seq<u16>, count: int)
    requires
        0 <= count <= colors.len(),
    ensures
        colours::transmitted(colors, Seq::empty(), count) == colors.take(count),
    decreases count,
{
    if count > 0 {
        lemma_all_transmitted(colors, count - 1);
        assert(colors.take(count) =~= colors.take(count - 1).push(colors[count - 1]));
    } else {
        assert(colors.take(0) =~= Seq::<u16>::empty());
    }
}

/// Colours that no neighbour has are coded in ascending order: the first in eight bits, then
/// how many bits above five the steps take, then each step. Luma's colours are at least one
/// apart, and a step counts from there; chroma's first plane counts from the colour before.
pub proof fn colours_are_coded_by_steps(colors: Seq<u16>, j: int)
    requires
        colors.len() >= 2,
        0 <= j < colors.len() - 1,
    ensures
        ({
            let none = Seq::<u16>::empty();
            let said = colours::colors_y_ops(colors, none);
            let extra = colours::extra_of(colors, 255, 1);
            &&& said.len() == colors.len() + 1
            &&& said[0] == ops::literal(colors[0] as int, 8)
            &&& said[1] == ops::literal(extra, 2)
            &&& said[2 + j] == ops::literal(
                colors[j + 1] - colors[j] - 1,
                colours::step_bits(colors, 255, extra, j),
            )
            &&& colours::step_bits(colors, 255, extra, 0) == 5 + extra
        }),
        ({
            let none = Seq::<u16>::empty();
            let said = colours::colors_uv_ops(colors, colors, none);
            let extra = colours::extra_of(colors, 256, 0);
            let n = colors.len() as int;
            &&& said.len() == 2 * n + 2
            &&& said[0] == ops::literal(colors[0] as int, 8)
            &&& said[1] == ops::literal(extra, 2)
            &&& said[2 + j] == ops::literal(
                colors[j + 1] - colors[j],
                colours::step_bits(colors, 256, extra, j),
            )
            &&& said[n + 1] == ops::literal(0, 1)
            &&& said[n + 2 + j] == ops::literal(colors[j] as int, 8)
        }),
{
    let n = colors.len() as int;
    lemma_all_transmitted(colors, n);
    assert(colors.take(n) =~= colors);
    assert(colours::supplied(colors, Seq::empty(), 0) =~= Seq::<u16>::empty());
    assert(colours::flag_ops(colors, Seq::empty(), 0, true) =~= Seq::<Op>::empty());
}

/// A later step takes no more bits than the one before it, and no more than it takes to reach
/// the top from the colour it starts at.
pub proof fn steps_take_fewer_bits_near_the_top(colors: Seq<u16>, top: int, extra: int, j: int)
    requires
        0 < j < colors.len(),
        colors[j] + 2 <= top,
    ensures
        ({
            let (before, own) = (
                colours::step_bits(colors, top, extra, j - 1),
                colours::step_bits(colors, top, extra, j),
            );
            let far = top - colors[j];
            &&& own <= before
            &&& own < before ==> bits::pow2((own - 1) as nat) < far && far <= bits::pow2(
                own as nat,
            )
            &&& own == before ==> own <= palette::spec_ceil_log2(far)
        }),
{
    palette::ceil_log2_is_tight(top - colors[j]);
}

/// A value below `n` is coded in just enough bits, or in one less where it is low: the number
/// of bits tells `n` values apart, and the low values are those for which one less will do.
pub proof fn uniform_values_take_just_enough_bits(value: int, n: int, l: int)
    requires
        2 <= n <= 256,
        0 <= value < n,
        1 <= l <= 8,
        bits::pow2((l - 1) as nat) < n <= bits::pow2(l as nat),
    ensures
        ({
            let said = colours::uniform_ops(value, n);
            let low = bits::pow2(l as nat) - n;
            &&& value < low ==> said =~= seq![ops::literal(value, l - 1)]
            &&& value >= low ==> said.len() == 2 && said[0] == ops::literal(
                (value + low) / 2,
                l - 1,
            ) && said[1] == ops::literal((value + low) % 2, 1)
            &&& 0 <= low < bits::pow2((l - 1) as nat)
        }),
{
    palette::ceil_log2_is_tight(n);
    let m = palette::spec_ceil_log2(n);
    if m < l {
        bits::lemma_pow2_monotonic(m as nat, (l - 1) as nat);
    } else if l < m {
        bits::lemma_pow2_monotonic(l as nat, (m - 1) as nat);
    }
    assert(bits::pow2(l as nat) == 2 * bits::pow2((l - 1) as nat));
}

/// Steps take no more bits than they need: with one fewer, one of them would not fit.
pub proof fn steps_take_no_bit_too_many(t: Seq<u16>, top: int, bias: int)
    ensures
        ({
            let extra = colours::extra_of(t, top, bias);
            &&& 0 <= extra <= 3
            &&& extra > 0 ==> !colours::fits(t, top, bias, extra - 1)
            &&& extra < 3 ==> colours::fits(t, top, bias, extra)
        }),
{
}

/// A colour on offer is taken or not by a flag of its own, as long as colours are missing, and
/// no flag follows once none is.
pub proof fn offers_stop_when_nothing_is_missing(colors: Seq<u16>, cache: Seq<u16>, count: int)
    requires
        0 <= count < cache.len(),
    ensures
        ({
            let (before, after) = (
                colours::flag_ops(colors, cache, count, false),
                colours::flag_ops(colors, cache, count + 1, false),
            );
            let taken = colours::supplied(colors, cache, count);
            let next = colours::supplied(colors, cache, count + 1);
            let wanted = colors.contains(cache[count]);
            &&& taken.len() >= colors.len() ==> after == before && next == taken
            &&& taken.len() < colors.len() ==> after == before.push(
                ops::literal(
                    if wanted {
                        1
                    } else {
                        0
                    },
                    1,
                ),
            )
            &&& taken.len() < colors.len() && wanted ==> next == taken.push(cache[count])
            &&& taken.len() < colors.len() && !wanted ==> next == taken
        }),
{
}

} // verus!
