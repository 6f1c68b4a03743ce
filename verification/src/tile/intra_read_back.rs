//! What a decoder reads back of an intra block's modes.
use crate::tile::blocks::{BlockCoeffs, PaletteUv, PaletteY};
use crate::tile::color_map;
use crate::tile::color_map::MapPlane;
use crate::tile::colours;
use crate::tile::context;
use crate::tile::intra;
use crate::tile::intra::UV_CFL_PRED;
use crate::tile::neighbours::{Bands, DC_PRED, INTRA_MODES};
use crate::tile::ops;
use crate::tile::ops::{Cdf, Op};
use crate::tile::palette;
use crate::tile::palette_read_back;
use crate::tile::plans::FramePlan;
use crate::tile::read_back;
use vstd::prelude::*;

verus! {

/// Chroma-from-luma scales read back, whatever follows them.
pub proof fn scales_read_back(a: (int, int), b: (int, int), x: Seq<Op>, y: Seq<Op>)
    requires
        -16 <= a.0 <= 16,
        -16 <= a.1 <= 16,
        -16 <= b.0 <= 16,
        -16 <= b.1 <= 16,
        a.0 != 0 || a.1 != 0,
        b.0 != 0 || b.1 != 0,
        intra::cfl_ops(a.0, a.1) + x == intra::cfl_ops(b.0, b.1) + y,
    ensures
        a == b,
        x == y,
{
    intra::joint_signs_read_back(a.0, a.1);
    intra::joint_signs_read_back(b.0, b.1);
    let oa = intra::cfl_ops(a.0, a.1);
    let ob = intra::cfl_ops(b.0, b.1);
    assert((oa + x)[0] == oa[0]);
    assert((ob + y)[0] == ob[0]);
    assert(intra::joint_sign(a.0, a.1) == intra::joint_sign(b.0, b.1));
    assert(intra::sign_class(a.0) == intra::sign_class(b.0));
    assert(intra::sign_class(a.1) == intra::sign_class(b.1));
    read_back::lemma_parts(oa, x, ob, y);
    if a.0 != 0 {
        assert(oa[1] == ob[1]);
        assert(context::abs(a.0) == context::abs(b.0));
        if a.1 != 0 {
            assert(oa[2] == ob[2]);
        }
    } else {
        assert(oa[1] == ob[1]);
    }
}

/// Whether two blocks have the same luma palette, or neither has one.
pub open spec fn alike_y(a: Option<PaletteY>, b: Option<PaletteY>) -> bool {
    match (a, b) {
        (Some(p), Some(q)) => {
            &&& p.size == q.size
            &&& palette::palette_of(p.size, p.colors) == palette::palette_of(q.size, q.colors)
            &&& p.map@ == q.map@
        },
        (None, None) => true,
        _ => false,
    }
}

/// Whether two blocks have the same chroma palette, or neither has one.
pub open spec fn alike_uv(a: Option<PaletteUv>, b: Option<PaletteUv>) -> bool {
    match (a, b) {
        (Some(p), Some(q)) => {
            &&& p.size == q.size
            &&& palette::palette_of(p.size, p.u_colors) == palette::palette_of(q.size, q.u_colors)
            &&& palette::palette_of(p.size, p.v_colors) == palette::palette_of(q.size, q.v_colors)
            &&& p.map@ == q.map@
        },
        (None, None) => true,
        _ => false,
    }
}

/// The part of a luma palette that its colours' symbols tell.
spec fn told_y(a: Option<PaletteY>, b: Option<PaletteY>) -> bool {
    match (a, b) {
        (Some(p), Some(q)) => p.size == q.size && palette::palette_of(p.size, p.colors)
            == palette::palette_of(q.size, q.colors),
        (None, None) => true,
        _ => false,
    }
}

spec fn told_uv(a: Option<PaletteUv>, b: Option<PaletteUv>) -> bool {
    match (a, b) {
        (Some(p), Some(q)) => {
            &&& p.size == q.size
            &&& palette::palette_of(p.size, p.u_colors) == palette::palette_of(q.size, q.u_colors)
            &&& palette::palette_of(p.size, p.v_colors) == palette::palette_of(q.size, q.v_colors)
        },
        (None, None) => true,
        _ => false,
    }
}

proof fn lemma_colours_unmarked(colors: Seq<u16>, cache: Seq<u16>, count: int)
    ensures
        forall|i: int|
            0 <= i < colours::flag_ops(colors, cache, count, false).len() ==> !(
            #[trigger] colours::flag_ops(colors, cache, count, false)[i] is Note),
    decreases count,
{
    if count > 0 {
        lemma_colours_unmarked(colors, cache, count - 1);
    }
}

proof fn lemma_y_unmarked(
    bands: Bands,
    p: Option<PaletteY>,
    mode: int,
    mi: (int, int),
    side: int,
)
    ensures
        read_back::coded(intra::palette_y_ops(bands, p, mode, mi.0, mi.1, side))
            == intra::palette_y_ops(bands, p, mode, mi.0, mi.1, side),
{
    reveal(intra::palette_y_ops);
    if p is Some {
        let y = p->0;
        let cache = palette::spec_cache(bands, mi.0, mi.1);
        lemma_colours_unmarked(
            palette::palette_of(y.size, y.colors),
            cache,
            cache.len() as int,
        );
    }
    read_back::lemma_unmarked(intra::palette_y_ops(bands, p, mode, mi.0, mi.1, side));
}

/// A luma palette's flag, size and colours end themselves.
proof fn lemma_y(
    bands: Bands,
    a: Option<PaletteY>,
    b: Option<PaletteY>,
    mode: int,
    mi: (int, int),
    side: int,
    x: Seq<Op>,
    y: Seq<Op>,
)
    requires
        a matches Some(p) ==> mode == DC_PRED && intra::is_palette_y(p, side),
        b matches Some(p) ==> mode == DC_PRED && intra::is_palette_y(p, side),
        palette::ascends(palette::spec_cache(bands, mi.0, mi.1)),
        intra::palette_y_ops(bands, a, mode, mi.0, mi.1, side) + x == intra::palette_y_ops(
            bands,
            b,
            mode,
            mi.0,
            mi.1,
            side,
        ) + y,
    ensures
        told_y(a, b),
        x == y,
{
    reveal(intra::palette_y_ops);
    let oa = intra::palette_y_ops(bands, a, mode, mi.0, mi.1, side);
    let ob = intra::palette_y_ops(bands, b, mode, mi.0, mi.1, side);
    if mode == DC_PRED {
        assert((oa + x)[0] == oa[0]);
        assert((ob + y)[0] == ob[0]);
        assert(a is Some == b is Some);
    }
    if a is Some {
        let p = a->0;
        let q = b->0;
        assert((oa + x)[1] == oa[1]);
        assert((ob + y)[1] == ob[1]);
        assert(p.size == q.size);
        let cache = palette::spec_cache(bands, mi.0, mi.1);
        let pc = palette::palette_of(p.size, p.colors);
        let qc = palette::palette_of(q.size, q.colors);
        let pa = colours::colors_y_ops(pc, cache);
        let pb = colours::colors_y_ops(qc, cache);
        let head = seq![oa[0], oa[1]];
        assert(oa + x =~= head + (pa + x));
        assert(ob + y =~= head + (pb + y));
        read_back::lemma_parts(head, pa + x, head, pb + y);
        palette_read_back::palette_colours_read_back(pc, qc, cache, x, y);
    } else {
        read_back::lemma_parts(oa, x, ob, y);
    }
}

/// What a decoder sees of a chroma palette's flag, size and colours.
proof fn lemma_uv_seen(
    bands: Bands,
    p: PaletteUv,
    has_y: bool,
    mi: (int, int),
    side: int,
)
    requires
        2 <= p.size <= 8,
    ensures
        read_back::coded(
            intra::palette_uv_ops(bands, Some(p), has_y, DC_PRED as int, mi.0, mi.1, side),
        ) == seq![
            ops::symbol(1, Cdf::PaletteUvMode(ops::flag(has_y) as usize)),
            ops::symbol(p.size - 2, Cdf::PaletteUvSize(intra::palette_class(side) as usize)),
        ] + read_back::coded(
            colours::colors_uv_ops(
                palette::palette_of(p.size, p.u_colors),
                palette::palette_of(p.size, p.v_colors),
                palette::spec_uv_cache(bands, mi.0, mi.1),
            ),
        ),
{
    reveal(intra::palette_uv_ops);
    let head = seq![
        ops::symbol(1, Cdf::PaletteUvMode(ops::flag(has_y) as usize)),
        ops::symbol(p.size - 2, Cdf::PaletteUvSize(intra::palette_class(side) as usize)),
    ];
    let rest = colours::colors_uv_ops(
        palette::palette_of(p.size, p.u_colors),
        palette::palette_of(p.size, p.v_colors),
        palette::spec_uv_cache(bands, mi.0, mi.1),
    );
    assert(intra::palette_uv_ops(bands, Some(p), has_y, DC_PRED as int, mi.0, mi.1, side)
        =~= head + rest);
    read_back::marks_are_not_coded(head, rest);
    read_back::lemma_unmarked(head);
}

proof fn lemma_uv_none_seen(
    bands: Bands,
    has_y: bool,
    uv_mode: int,
    mi: (int, int),
    side: int,
)
    ensures
        read_back::coded(intra::palette_uv_ops(bands, None, has_y, uv_mode, mi.0, mi.1, side))
            == if uv_mode == DC_PRED {
            seq![ops::symbol(0, Cdf::PaletteUvMode(ops::flag(has_y) as usize))]
        } else {
            Seq::empty()
        },
{
    reveal(intra::palette_uv_ops);
    read_back::lemma_unmarked(
        intra::palette_uv_ops(bands, None, has_y, uv_mode, mi.0, mi.1, side),
    );
}

/// A chroma palette's flag, size and colours end themselves.
proof fn lemma_uv(
    bands: Bands,
    a: Option<PaletteUv>,
    b: Option<PaletteUv>,
    has_y: bool,
    uv_mode: int,
    mi: (int, int),
    side: int,
    x: Seq<Op>,
    y: Seq<Op>,
)
    requires
        a matches Some(p) ==> uv_mode == DC_PRED && intra::is_palette_uv(p, side),
        b matches Some(p) ==> uv_mode == DC_PRED && intra::is_palette_uv(p, side),
        palette::ascends(palette::spec_uv_cache(bands, mi.0, mi.1)),
        read_back::coded(intra::palette_uv_ops(bands, a, has_y, uv_mode, mi.0, mi.1, side)) + x
            == read_back::coded(
            intra::palette_uv_ops(bands, b, has_y, uv_mode, mi.0, mi.1, side),
        ) + y,
    ensures
        told_uv(a, b),
        x == y,
{
    let oa = read_back::coded(intra::palette_uv_ops(bands, a, has_y, uv_mode, mi.0, mi.1, side));
    let ob = read_back::coded(intra::palette_uv_ops(bands, b, has_y, uv_mode, mi.0, mi.1, side));
    if a is Some {
        lemma_uv_seen(bands, a->0, has_y, mi, side);
    } else {
        lemma_uv_none_seen(bands, has_y, uv_mode, mi, side);
    }
    if b is Some {
        lemma_uv_seen(bands, b->0, has_y, mi, side);
    } else {
        lemma_uv_none_seen(bands, has_y, uv_mode, mi, side);
    }
    if uv_mode == DC_PRED {
        assert((oa + x)[0] == oa[0]);
        assert((ob + y)[0] == ob[0]);
        assert(a is Some == b is Some);
    }
    if a is Some {
        let p = a->0;
        let q = b->0;
        assert((oa + x)[1] == oa[1]);
        assert((ob + y)[1] == ob[1]);
        assert(p.size == q.size);
        let cache = palette::spec_uv_cache(bands, mi.0, mi.1);
        let pu = palette::palette_of(p.size, p.u_colors);
        let pv = palette::palette_of(p.size, p.v_colors);
        let qu = palette::palette_of(q.size, q.u_colors);
        let qv = palette::palette_of(q.size, q.v_colors);
        let pa = read_back::coded(colours::colors_uv_ops(pu, pv, cache));
        let pb = read_back::coded(colours::colors_uv_ops(qu, qv, cache));
        let head = seq![oa[0], oa[1]];
        assert(oa + x =~= head + (pa + x));
        assert(ob + y =~= head + (pb + y));
        read_back::lemma_parts(head, pa + x, head, pb + y);
        palette_read_back::chroma_colours_read_back(pu, pv, qu, qv, cache, x, y);
    } else {
        read_back::lemma_parts(oa, x, ob, y);
    }
}

/// The recursive filter a block's symbols tell: none where it cannot have one.
pub open spec fn filter_of(
    on: bool,
    mode: int,
    side: int,
    has_palette: bool,
    fi: Option<u8>,
) -> Option<u8> {
    if !on || mode != DC_PRED || has_palette || side > 32 {
        None
    } else {
        fi
    }
}

/// A recursive filter's symbols end themselves.
proof fn lemma_filter(
    on: bool,
    mode: int,
    side: int,
    has_palette: bool,
    a: Option<u8>,
    b: Option<u8>,
    x: Seq<Op>,
    y: Seq<Op>,
)
    requires
        read_back::coded(intra::filter_intra_ops(on, mode, side, has_palette, a)) + x
            == read_back::coded(intra::filter_intra_ops(on, mode, side, has_palette, b)) + y,
    ensures
        filter_of(on, mode, side, has_palette, a) == filter_of(on, mode, side, has_palette, b),
        x == y,
{
    lemma_filter_seen(on, mode, side, has_palette, a);
    lemma_filter_seen(on, mode, side, has_palette, b);
    let oa = read_back::coded(intra::filter_intra_ops(on, mode, side, has_palette, a));
    let ob = read_back::coded(intra::filter_intra_ops(on, mode, side, has_palette, b));
    if on && mode == DC_PRED && !has_palette && side <= 32 {
        assert((oa + x)[0] == oa[0]);
        assert((ob + y)[0] == ob[0]);
        assert(a is Some == b is Some);
        read_back::lemma_parts(oa, x, ob, y);
        if a is Some {
            assert(oa[1] == ob[1]);
        }
    } else {
        read_back::lemma_parts(oa, x, ob, y);
    }
}

proof fn lemma_filter_seen(on: bool, mode: int, side: int, has_palette: bool, fi: Option<u8>)
    ensures
        ({
            let seen = read_back::coded(
                intra::filter_intra_ops(on, mode, side, has_palette, fi),
            );
            if !on || mode != DC_PRED || has_palette || side > 32 {
                seen == Seq::<Op>::empty()
            } else {
                match fi {
                    Some(f) => seen == seq![
                        ops::symbol(1, Cdf::FilterIntra(side as usize)),
                        ops::symbol(f as int, Cdf::FilterIntraMode),
                    ],
                    None => seen == seq![ops::symbol(0, Cdf::FilterIntra(side as usize))],
                }
            }
        }),
{
    let all = intra::filter_intra_ops(on, mode, side, has_palette, fi);
    if on && mode == DC_PRED && !has_palette && side <= 32 && fi is Some {
        let head = seq![all[0], all[1]];
        assert(all =~= head.push(all[2]));
        read_back::lemma_mark(head, all[2]);
        read_back::lemma_unmarked(head);
    } else {
        read_back::lemma_unmarked(all);
    }
}

proof fn lemma_wave_unmarked(plane: MapPlane, map: Seq<u8>, side: int, n: int, count: int)
    ensures
        forall|i: int|
            0 <= i < color_map::wave_ops(plane, map, side, n, count).len() ==> !(
            #[trigger] color_map::wave_ops(plane, map, side, n, count)[i] is Note),
    decreases count,
{
    if count > 1 {
        lemma_wave_unmarked(plane, map, side, n, count - 1);
    }
}

/// What a decoder sees of a map and the mark after it.
proof fn lemma_map_seen(plane: MapPlane, map: Seq<u8>, side: int, n: int, mark: Op)
    requires
        mark is Note,
    ensures
        read_back::coded(color_map::color_map_ops(plane, map, side, n).push(mark))
            == color_map::color_map_ops(plane, map, side, n),
{
    read_back::lemma_mark(color_map::color_map_ops(plane, map, side, n), mark);
    lemma_wave_unmarked(plane, map, side, n, 2 * side - 1);
    read_back::lemma_unmarked(color_map::color_map_ops(plane, map, side, n));
}

/// The maps of a block's palettes, one after the other.
spec fn maps_seen(y: Option<PaletteY>, uv: Option<PaletteUv>, side: int) -> Seq<Op> {
    (match y {
        Some(p) => color_map::color_map_ops(MapPlane::Y, p.map@, side, p.size as int),
        None => Seq::empty(),
    }) + (match uv {
        Some(p) => color_map::color_map_ops(
            MapPlane::Uv,
            p.map@,
            intra::spec_palette_uv_side(side),
            p.size as int,
        ),
        None => Seq::empty(),
    })
}

proof fn lemma_maps_seen(y: Option<PaletteY>, uv: Option<PaletteUv>, side: int)
    ensures
        read_back::coded(intra::maps_ops(y, uv, side)) == maps_seen(y, uv, side),
{
    reveal(intra::maps_ops);
    let first = match y {
        Some(p) => color_map::color_map_ops(MapPlane::Y, p.map@, side, p.size as int).push(
            Op::Note(ops::Note::Palette(p.size as usize)),
        ),
        None => Seq::empty(),
    };
    if y is Some {
        let p = y->0;
        lemma_map_seen(
            MapPlane::Y,
            p.map@,
            side,
            p.size as int,
            Op::Note(ops::Note::Palette(p.size as usize)),
        );
    } else {
        read_back::lemma_unmarked(first);
    }
    if uv is Some {
        let p = uv->0;
        let mark = Op::Note(ops::Note::PaletteUv(p.size as usize));
        let map = color_map::color_map_ops(
            MapPlane::Uv,
            p.map@,
            intra::spec_palette_uv_side(side),
            p.size as int,
        );
        lemma_map_seen(
            MapPlane::Uv,
            p.map@,
            intra::spec_palette_uv_side(side),
            p.size as int,
            mark,
        );
        read_back::marks_are_not_coded(first, map.push(mark));
    } else {
        assert(maps_seen(y, uv, side) =~= read_back::coded(first));
    }
}

/// The maps of palettes whose sizes are known end themselves.
proof fn lemma_maps(
    ya: Option<PaletteY>,
    yb: Option<PaletteY>,
    ua: Option<PaletteUv>,
    ub: Option<PaletteUv>,
    side: int,
    x: Seq<Op>,
    y: Seq<Op>,
)
    requires
        intra::is_block_side(side),
        ya matches Some(p) ==> intra::is_palette_y(p, side),
        yb matches Some(p) ==> intra::is_palette_y(p, side),
        ua matches Some(p) ==> intra::is_palette_uv(p, side),
        ub matches Some(p) ==> intra::is_palette_uv(p, side),
        told_y(ya, yb),
        told_uv(ua, ub),
        read_back::coded(intra::maps_ops(ya, ua, side)) + x == read_back::coded(
            intra::maps_ops(yb, ub, side),
        ) + y,
    ensures
        alike_y(ya, yb),
        alike_uv(ua, ub),
        x == y,
{
    lemma_maps_seen(ya, ua, side);
    lemma_maps_seen(yb, ub, side);
    let half = intra::spec_palette_uv_side(side);
    let ta = match ua {
        Some(p) => color_map::color_map_ops(MapPlane::Uv, p.map@, half, p.size as int) + x,
        None => x,
    };
    let tb = match ub {
        Some(p) => color_map::color_map_ops(MapPlane::Uv, p.map@, half, p.size as int) + y,
        None => y,
    };
    if ya is Some {
        let p = ya->0;
        let q = yb->0;
        let ma = color_map::color_map_ops(MapPlane::Y, p.map@, side, p.size as int);
        let mb = color_map::color_map_ops(MapPlane::Y, q.map@, side, q.size as int);
        assert(maps_seen(ya, ua, side) + x =~= ma + ta);
        assert(maps_seen(yb, ub, side) + y =~= mb + tb);
        palette_read_back::color_maps_read_back(
            MapPlane::Y,
            p.map@,
            q.map@,
            side,
            p.size as int,
            ta,
            tb,
        );
    } else {
        assert(maps_seen(ya, ua, side) + x =~= ta);
        assert(maps_seen(yb, ub, side) + y =~= tb);
    }
    if ua is Some {
        let p = ua->0;
        let q = ub->0;
        palette_read_back::color_maps_read_back(
            MapPlane::Uv,
            p.map@,
            q.map@,
            half,
            p.size as int,
            x,
            y,
        );
    }
}

/// Whether a block's recursive filter is one its symbols tell: none where it
/// cannot have one.
pub open spec fn is_filter_told(plan: FramePlan, block: BlockCoeffs, side: int) -> bool {
    let palette = intra::kept(block.palette, block.mode as int);
    block.filter_intra == filter_of(
        plan.filter_intra,
        block.mode as int,
        side,
        plan.screen && palette is Some,
        block.filter_intra,
    )
}

/// Whether the colours of the palettes that a block's neighbours left ascend.
pub open spec fn caches_ascend(bands: Bands, mi: (int, int)) -> bool {
    &&& palette::ascends(palette::spec_cache(bands, mi.0, mi.1))
    &&& palette::ascends(palette::spec_uv_cache(bands, mi.0, mi.1))
}

/// Whether a block's palettes hold nothing past their sizes.
pub open spec fn is_settled(block: BlockCoeffs) -> bool {
    &&& block.palette matches Some(p) ==> forall|i: int|
        p.size <= i < 8 ==> #[trigger] p.colors@[i] == 0
    &&& block.palette_uv matches Some(p) ==> forall|i: int|
        p.size <= i < 8 ==> #[trigger] p.u_colors@[i] == 0
}

proof fn lemma_colours(size: u8, a: [u16; 8], b: [u16; 8])
    requires
        size <= 8,
        palette::palette_of(size, a) == palette::palette_of(size, b),
        forall|i: int| size <= i < 8 ==> #[trigger] a@[i] == 0,
        forall|i: int| size <= i < 8 ==> #[trigger] b@[i] == 0,
    ensures
        a == b,
{
    assert forall|i: int| 0 <= i < 8 implies a@[i] == b@[i] by {
        if i < size {
            assert(palette::palette_of(size, a)[i] == a@[i]);
            assert(palette::palette_of(size, b)[i] == b@[i]);
        }
    }
    assert(a =~= b);
}

/// Blocks of the same choices leave the same palettes, where they hold nothing
/// past their sizes.
pub proof fn settled_palettes_are_the_same(
    plan: FramePlan,
    bands: Bands,
    a: BlockCoeffs,
    b: BlockCoeffs,
    side: int,
    cfl: bool,
)
    requires
        intra::is_intra(plan, a, side, cfl),
        intra::is_intra(plan, b, side, cfl),
        same_choices(plan, a, b, side),
        is_settled(a),
        is_settled(b),
    ensures
        intra::with_pending(plan, bands, a) == intra::with_pending(plan, bands, b),
{
    if plan.screen {
        let mode = a.mode as int;
        let uv_mode = a.uv_mode as int;
        if intra::kept(a.palette, mode) is Some {
            lemma_colours(
                (a.palette->0).size,
                (a.palette->0).colors,
                (b.palette->0).colors,
            );
        }
        if intra::kept(a.palette_uv, uv_mode) is Some {
            lemma_colours(
                (a.palette_uv->0).size,
                (a.palette_uv->0).u_colors,
                (b.palette_uv->0).u_colors,
            );
        }
    }
}

/// Whether two intra blocks make the same choices, as far as a block of their
/// modes and size has them.
pub open spec fn same_choices(
    plan: FramePlan,
    a: BlockCoeffs,
    b: BlockCoeffs,
    side: int,
) -> bool {
    &&& a.mode == b.mode
    &&& intra::is_directional(a.mode as int) ==> a.angle_delta_y == b.angle_delta_y
    &&& a.uv_mode == b.uv_mode
    &&& a.uv_mode == UV_CFL_PRED ==> a.cfl_alphas == b.cfl_alphas
    &&& same_palettes(plan, a, b, side)
}

/// The part of that which the palettes and the recursive filter are.
pub open spec fn same_palettes(
    plan: FramePlan,
    a: BlockCoeffs,
    b: BlockCoeffs,
    side: int,
) -> bool {
    let ya = intra::kept(a.palette, a.mode as int);
    let yb = intra::kept(b.palette, b.mode as int);
    &&& plan.screen ==> alike_y(ya, yb)
    &&& plan.screen ==> alike_uv(
        intra::kept(a.palette_uv, a.uv_mode as int),
        intra::kept(b.palette_uv, b.uv_mode as int),
    )
    &&& filter_of(
        plan.filter_intra,
        a.mode as int,
        side,
        plan.screen && ya is Some,
        a.filter_intra,
    ) == filter_of(
        plan.filter_intra,
        b.mode as int,
        side,
        plan.screen && yb is Some,
        b.filter_intra,
    )
}

/// What a decoder sees of a block's palettes on a screen's frame.
proof fn lemma_syntax_seen(
    plan: FramePlan,
    bands: Bands,
    block: BlockCoeffs,
    mi: (int, int),
    side: int,
    x: Seq<Op>,
)
    requires
        plan.screen,
    ensures
        ({
            let mode = block.mode as int;
            let uv_mode = block.uv_mode as int;
            let y = intra::kept(block.palette, mode);
            let uv = intra::kept(block.palette_uv, uv_mode);
            read_back::coded(
                intra::palette_syntax_ops(plan, bands, block, mi.0, mi.1, side),
            ) + x == intra::palette_y_ops(bands, y, mode, mi.0, mi.1, side) + (read_back::coded(
                intra::palette_uv_ops(bands, uv, y is Some, uv_mode, mi.0, mi.1, side),
            ) + (read_back::coded(
                intra::filter_intra_ops(
                    plan.filter_intra,
                    mode,
                    side,
                    y is Some,
                    block.filter_intra,
                ),
            ) + (read_back::coded(intra::maps_ops(y, uv, side)) + x)))
        }),
{
    reveal(intra::palette_syntax_ops);
    let mode = block.mode as int;
    let uv_mode = block.uv_mode as int;
    let y = intra::kept(block.palette, mode);
    let uv = intra::kept(block.palette_uv, uv_mode);
    let first = intra::palette_y_ops(bands, y, mode, mi.0, mi.1, side);
    let second = intra::palette_uv_ops(bands, uv, y is Some, uv_mode, mi.0, mi.1, side);
    let third = intra::filter_intra_ops(
        plan.filter_intra,
        mode,
        side,
        y is Some,
        block.filter_intra,
    );
    let fourth = intra::maps_ops(y, uv, side);
    read_back::marks_are_not_coded(first + second + third, fourth);
    read_back::marks_are_not_coded(first + second, third);
    read_back::marks_are_not_coded(first, second);
    lemma_y_unmarked(bands, y, mode, mi, side);
    let b = read_back::coded(second);
    let c = read_back::coded(third);
    let d = read_back::coded(fourth);
    read_back::lemma_regroup(first + b, c, d, x);
    read_back::lemma_regroup(first, b, c + (d + x), Seq::empty());
    assert(((first + b) + (c + (d + x))) + Seq::<Op>::empty() =~= (first + b) + (c + (d + x)));
    assert((c + (d + x)) + Seq::<Op>::empty() =~= c + (d + x));
}

/// A block's palettes and its recursive filter read back from what a decoder
/// sees, where its two modes are known.
pub proof fn palettes_read_back(
    plan: FramePlan,
    bands: Bands,
    a: BlockCoeffs,
    b: BlockCoeffs,
    mi: (int, int),
    side: int,
    cfl: bool,
    x: Seq<Op>,
    y: Seq<Op>,
)
    requires
        intra::is_block_side(side),
        intra::is_intra(plan, a, side, cfl),
        intra::is_intra(plan, b, side, cfl),
        a.mode == b.mode,
        a.uv_mode == b.uv_mode,
        plan.screen ==> palette::ascends(palette::spec_cache(bands, mi.0, mi.1)),
        plan.screen ==> palette::ascends(palette::spec_uv_cache(bands, mi.0, mi.1)),
        read_back::coded(intra::palette_syntax_ops(plan, bands, a, mi.0, mi.1, side)) + x
            == read_back::coded(intra::palette_syntax_ops(plan, bands, b, mi.0, mi.1, side)) + y,
    ensures
        same_palettes(plan, a, b, side),
        x == y,
{
    let mode = a.mode as int;
    let uv_mode = a.uv_mode as int;
    let ya = intra::kept(a.palette, mode);
    let yb = intra::kept(b.palette, mode);
    if !plan.screen {
        reveal(intra::palette_syntax_ops);
        lemma_filter(
            plan.filter_intra,
            mode,
            side,
            false,
            a.filter_intra,
            b.filter_intra,
            x,
            y,
        );
    } else {
        let ua = intra::kept(a.palette_uv, uv_mode);
        let ub = intra::kept(b.palette_uv, uv_mode);
        lemma_syntax_seen(plan, bands, a, mi, side, x);
        lemma_syntax_seen(plan, bands, b, mi, side, y);
        let ma = read_back::coded(intra::maps_ops(ya, ua, side)) + x;
        let mb = read_back::coded(intra::maps_ops(yb, ub, side)) + y;
        let fa = read_back::coded(
            intra::filter_intra_ops(plan.filter_intra, mode, side, ya is Some, a.filter_intra),
        ) + ma;
        let fb = read_back::coded(
            intra::filter_intra_ops(plan.filter_intra, mode, side, yb is Some, b.filter_intra),
        ) + mb;
        let va = read_back::coded(
            intra::palette_uv_ops(bands, ua, ya is Some, uv_mode, mi.0, mi.1, side),
        ) + fa;
        let vb = read_back::coded(
            intra::palette_uv_ops(bands, ub, yb is Some, uv_mode, mi.0, mi.1, side),
        ) + fb;
        lemma_y(bands, ya, yb, mode, mi, side, va, vb);
        lemma_uv(bands, ua, ub, ya is Some, uv_mode, mi, side, fa, fb);
        lemma_filter(
            plan.filter_intra,
            mode,
            side,
            ya is Some,
            a.filter_intra,
            b.filter_intra,
            ma,
            mb,
        );
        lemma_maps(ya, yb, ua, ub, side, x, y);
    }
}

/// The symbols of a block's modes before its palettes.
spec fn before_palettes(block: BlockCoeffs, cfl: bool) -> Seq<Op> {
    let mode = block.mode as int;
    let uv_mode = block.uv_mode as int;
    let angle = if intra::is_directional(mode) {
        seq![
            ops::symbol(
                intra::ANGLE_DELTA_ZERO + block.angle_delta_y,
                Cdf::AngleDelta((mode - intra::V_PRED) as usize),
            ),
        ]
    } else {
        Seq::empty()
    };
    angle.push(
        ops::symbol(
            uv_mode,
            if cfl {
                Cdf::UvModeCfl(mode as usize)
            } else {
                Cdf::UvModeNoCfl(mode as usize)
            },
        ),
    )
}

/// The symbols of a chroma mode's scales or angle.
spec fn chroma_choice(block: BlockCoeffs) -> Seq<Op> {
    let uv_mode = block.uv_mode as int;
    if uv_mode == UV_CFL_PRED {
        intra::cfl_ops((block.cfl_alphas->0).0 as int, (block.cfl_alphas->0).1 as int)
    } else if intra::is_directional(uv_mode) {
        seq![
            ops::symbol(
                intra::ANGLE_DELTA_ZERO as int,
                Cdf::AngleDelta((uv_mode - intra::V_PRED) as usize),
            ),
        ]
    } else {
        Seq::empty()
    }
}

proof fn lemma_modes_seen(
    plan: FramePlan,
    bands: Bands,
    block: BlockCoeffs,
    cfl: bool,
    mi: (int, int),
    side: int,
    x: Seq<Op>,
)
    ensures
        read_back::coded(intra::modes_ops(plan, bands, block, cfl, mi.0, mi.1, side)) + x
            == before_palettes(block, cfl) + (chroma_choice(block) + (read_back::coded(
            intra::palette_syntax_ops(plan, bands, block, mi.0, mi.1, side),
        ) + x)),
{
    let first = before_palettes(block, cfl);
    let second = chroma_choice(block);
    let third = intra::palette_syntax_ops(plan, bands, block, mi.0, mi.1, side);
    assert(intra::modes_ops(plan, bands, block, cfl, mi.0, mi.1, side) =~= first + second
        + third);
    read_back::marks_are_not_coded(first + second, third);
    read_back::marks_are_not_coded(first, second);
    read_back::lemma_unmarked(first);
    read_back::lemma_unmarked(second);
    read_back::lemma_regroup(first, second, read_back::coded(third), x);
}

/// An intra block's modes read back: from the same neighbours, and whatever
/// follows, a decoder that knows its luma mode learns every other choice.
pub proof fn intra_modes_read_back(
    plan: FramePlan,
    bands: Bands,
    a: BlockCoeffs,
    b: BlockCoeffs,
    cfl: bool,
    mi: (int, int),
    side: int,
    x: Seq<Op>,
    y: Seq<Op>,
)
    requires
        intra::is_block_side(side),
        intra::is_intra(plan, a, side, cfl),
        intra::is_intra(plan, b, side, cfl),
        a.mode == b.mode,
        a.mode < INTRA_MODES,
        plan.screen ==> palette::ascends(palette::spec_cache(bands, mi.0, mi.1)),
        plan.screen ==> palette::ascends(palette::spec_uv_cache(bands, mi.0, mi.1)),
        read_back::coded(intra::modes_ops(plan, bands, a, cfl, mi.0, mi.1, side)) + x
            == read_back::coded(intra::modes_ops(plan, bands, b, cfl, mi.0, mi.1, side)) + y,
    ensures
        same_choices(plan, a, b, side),
        x == y,
{
    lemma_modes_seen(plan, bands, a, cfl, mi, side, x);
    lemma_modes_seen(plan, bands, b, cfl, mi, side, y);
    let ha = before_palettes(a, cfl);
    let hb = before_palettes(b, cfl);
    let ca = chroma_choice(a);
    let cb = chroma_choice(b);
    let pa = read_back::coded(intra::palette_syntax_ops(plan, bands, a, mi.0, mi.1, side)) + x;
    let pb = read_back::coded(intra::palette_syntax_ops(plan, bands, b, mi.0, mi.1, side)) + y;
    read_back::lemma_parts(ha, ca + pa, hb, cb + pb);
    if intra::is_directional(a.mode as int) {
        assert(ha[0] == hb[0]);
        assert(ha[1] == hb[1]);
    } else {
        assert(ha[0] == hb[0]);
    }
    assert(a.uv_mode == b.uv_mode);
    if a.uv_mode == UV_CFL_PRED {
        let sa = a.cfl_alphas->0;
        let sb = b.cfl_alphas->0;
        scales_read_back((sa.0 as int, sa.1 as int), (sb.0 as int, sb.1 as int), pa, pb);
    } else {
        read_back::lemma_parts(ca, pa, cb, pb);
    }
    palettes_read_back(plan, bands, a, b, mi, side, cfl, x, y);
}

} // verus!
