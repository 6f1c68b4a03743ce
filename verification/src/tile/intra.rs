//! The modes of an intra block.
use crate::tile::blocks::{BlockCoeffs, PaletteUv, PaletteY};
use crate::tile::color_map;
use crate::tile::color_map::{write_color_index_map, MapPlane};
use crate::tile::colours;
use crate::tile::colours::{write_palette_colors_uv, write_palette_colors_y};
use crate::tile::context;
use crate::tile::neighbours;
use crate::tile::neighbours::{Bands, Neighbours, DC_PRED, INTRA_MODES};
use crate::tile::ops;
use crate::tile::ops::{bit, note, put, Cdf, Note, Op};
use crate::tile::palette;
use crate::tile::plans::FramePlan;
use vstd::prelude::*;

verus! {

/// The first directional mode.
pub const V_PRED: usize = 1;

/// The last one.
pub const D67_PRED: usize = 8;

/// Chroma predicted from luma.
pub const UV_CFL_PRED: usize = 13;

/// The symbol of no angle: the middle of its alphabet.
pub const ANGLE_DELTA_ZERO: usize = 3;

/// The class each mode puts a block in when its neighbours pick a table by it.
pub const INTRA_MODE_CTX: [usize; 13] = [0, 1, 2, 3, 4, 4, 4, 4, 3, 0, 1, 2, 0];

/// The directional mode each recursive filter comes closest to.
pub const FILTER_INTRA_DIR: [usize; 5] = [0, 1, 2, 6, 0];

/// Whether a mode is directional.
pub open spec fn is_directional(mode: int) -> bool {
    V_PRED <= mode <= D67_PRED
}

/// The sign of a scale: none, minus, plus.
pub open spec fn sign_class(a: int) -> int {
    if a == 0 {
        0
    } else if a < 0 {
        1
    } else {
        2
    }
}

/// The joint sign of two scales that are not both zero.
pub open spec fn joint_sign(u: int, v: int) -> int {
    3 * sign_class(u) + sign_class(v) - 1
}

/// The context of one scale's magnitude, U's for plane 0 and V's for plane 1:
/// its own sign and the other's.
pub open spec fn alpha_ctx(joint: int, plane: int) -> int {
    let su = (joint + 1) / 3;
    let sv = (joint + 1) % 3;
    if plane == 0 {
        3 * su + sv - 3
    } else {
        3 * sv + su - 3
    }
}

/// The symbols of the chroma-from-luma scales.
pub open spec fn cfl_ops(u: int, v: int) -> Seq<Op> {
    let joint = joint_sign(u, v);
    let signs = seq![ops::symbol(joint, Cdf::CflSign)];
    let first = if u != 0 {
        signs.push(
            ops::symbol(context::abs(u) - 1, Cdf::CflAlpha(alpha_ctx(joint, 0) as usize)),
        )
    } else {
        signs
    };
    if v != 0 {
        first.push(
            ops::symbol(context::abs(v) - 1, Cdf::CflAlpha(alpha_ctx(joint, 1) as usize)),
        )
    } else {
        first
    }
}

/// A joint sign tells both signs apart, is one of eight, and gives each scale
/// that is not zero one of six contexts.
pub proof fn joint_signs_read_back(u: int, v: int)
    requires
        u != 0 || v != 0,
    ensures
        0 <= joint_sign(u, v) < 8,
        (joint_sign(u, v) + 1) / 3 == sign_class(u),
        (joint_sign(u, v) + 1) % 3 == sign_class(v),
        u != 0 ==> 0 <= alpha_ctx(joint_sign(u, v), 0) < 6,
        v != 0 ==> 0 <= alpha_ctx(joint_sign(u, v), 1) < 6,
{
}

/// The symbols of whether a block is predicted by recursive filtering, and by
/// which filter: a DC block of up to 32x32 without a luma palette may be.
pub open spec fn filter_intra_ops(
    on: bool,
    mode: int,
    side: int,
    has_palette: bool,
    fi: Option<u8>,
) -> Seq<Op> {
    if !on || mode != DC_PRED || has_palette || side > 32 {
        Seq::empty()
    } else {
        match fi {
            Some(f) => seq![
                ops::symbol(1, Cdf::FilterIntra(side as usize)),
                ops::symbol(f as int, Cdf::FilterIntraMode),
                Op::Note(Note::FilterIntra(f as usize)),
            ],
            None => seq![ops::symbol(0, Cdf::FilterIntra(side as usize))],
        }
    }
}

/// The row of the transform type tables a block reads: its own mode's, or the
/// one its recursive filter comes closest to.
pub open spec fn spec_tx_row(mode: int, fi: Option<u8>) -> int {
    match fi {
        Some(f) => FILTER_INTRA_DIR[f as int] as int,
        None => mode,
    }
}

/// The size class of a palette.
pub open spec fn palette_class(side: int) -> int {
    if side == 8 {
        0
    } else if side == 16 {
        2
    } else if side == 32 {
        4
    } else {
        6
    }
}

/// Whether a side is one of a coded block's.
pub open spec fn is_block_side(side: int) -> bool {
    side == 8 || side == 16 || side == 32 || side == 64
}

/// The side of a chroma palette's map.
pub open spec fn spec_palette_uv_side(side: int) -> int {
    if side / 2 < 4 {
        4
    } else {
        side / 2
    }
}

/// The side of a chroma palette's map: half the block's, but no less than a
/// transform.
pub fn palette_uv_side(side: usize) -> (s: usize)
    ensures
        s == spec_palette_uv_side(side as int),
{
    if side / 2 < 4 {
        4
    } else {
        side / 2
    }
}

/// A palette, where the block's mode lets it have one.
pub open spec fn kept<T>(p: Option<T>, mode: int) -> Option<T> {
    if mode == DC_PRED {
        p
    } else {
        None
    }
}

/// Whether a luma palette has colours and a map.
pub open spec fn is_palette_y(p: PaletteY, side: int) -> bool {
    &&& 2 <= p.size <= 8
    &&& colours::are_bytes(palette::palette_of(p.size, p.colors))
    &&& color_map::is_map(p.map@, side, p.size as int)
}

/// Whether a chroma palette has colours and a map.
pub open spec fn is_palette_uv(p: PaletteUv, side: int) -> bool {
    &&& 2 <= p.size <= 8
    &&& colours::are_bytes(palette::palette_of(p.size, p.u_colors))
    &&& color_map::is_map(p.map@, spec_palette_uv_side(side), p.size as int)
}

/// The symbols of a luma palette's flag, size and colours.
#[verifier::opaque]
pub open spec fn palette_y_ops(
    b: Bands,
    p: Option<PaletteY>,
    mode: int,
    mi_r: int,
    mi_c: int,
    side: int,
) -> Seq<Op> {
    let class = palette_class(side) as usize;
    let flag = if mode == DC_PRED {
        seq![
            ops::symbol(
                ops::flag(p is Some),
                Cdf::PaletteYMode(class, palette::spec_palette_ctx(b, mi_r, mi_c) as usize),
            ),
        ]
    } else {
        Seq::empty()
    };
    match p {
        Some(y) => flag.push(ops::symbol(y.size - 2, Cdf::PaletteYSize(class)))
            + colours::colors_y_ops(
            palette::palette_of(y.size, y.colors),
            palette::spec_cache(b, mi_r, mi_c),
        ),
        None => flag,
    }
}

/// The symbols of a chroma palette's flag, size and colours.
#[verifier::opaque]
pub open spec fn palette_uv_ops(
    b: Bands,
    p: Option<PaletteUv>,
    has_y: bool,
    uv_mode: int,
    mi_r: int,
    mi_c: int,
    side: int,
) -> Seq<Op> {
    let flag = if uv_mode == DC_PRED {
        seq![
            ops::symbol(ops::flag(p is Some), Cdf::PaletteUvMode(ops::flag(has_y) as usize)),
        ]
    } else {
        Seq::empty()
    };
    match p {
        Some(uv) => flag.push(
            ops::symbol(uv.size - 2, Cdf::PaletteUvSize(palette_class(side) as usize)),
        ) + colours::colors_uv_ops(
            palette::palette_of(uv.size, uv.u_colors),
            palette::palette_of(uv.size, uv.v_colors),
            palette::spec_uv_cache(b, mi_r, mi_c),
        ),
        None => flag,
    }
}

/// The symbols of the maps of a block's palettes, after both colour lists.
#[verifier::opaque]
pub open spec fn maps_ops(y: Option<PaletteY>, uv: Option<PaletteUv>, side: int) -> Seq<Op> {
    let first = match y {
        Some(p) => color_map::color_map_ops(MapPlane::Y, p.map@, side, p.size as int).push(
            Op::Note(Note::Palette(p.size as usize)),
        ),
        None => Seq::empty(),
    };
    match uv {
        Some(p) => first + color_map::color_map_ops(
            MapPlane::Uv,
            p.map@,
            spec_palette_uv_side(side),
            p.size as int,
        ).push(Op::Note(Note::PaletteUv(p.size as usize))),
        None => first,
    }
}

/// The symbols of a block's palettes and of its recursive filter, which sits
/// between the colours and the maps.
#[verifier::opaque]
pub open spec fn palette_syntax_ops(
    plan: FramePlan,
    b: Bands,
    block: BlockCoeffs,
    mi_r: int,
    mi_c: int,
    side: int,
) -> Seq<Op> {
    let mode = block.mode as int;
    let uv_mode = block.uv_mode as int;
    if !plan.screen {
        filter_intra_ops(plan.filter_intra, mode, side, false, block.filter_intra)
    } else {
        let y = kept(block.palette, mode);
        let uv = kept(block.palette_uv, uv_mode);
        palette_y_ops(b, y, mode, mi_r, mi_c, side) + palette_uv_ops(
            b,
            uv,
            y is Some,
            uv_mode,
            mi_r,
            mi_c,
            side,
        ) + filter_intra_ops(plan.filter_intra, mode, side, y is Some, block.filter_intra)
            + maps_ops(y, uv, side)
    }
}

/// The bands with a block's palettes about to be left in them.
pub open spec fn with_pending(plan: FramePlan, b: Bands, block: BlockCoeffs) -> Bands {
    if !plan.screen {
        b
    } else {
        Bands {
            pending: match kept(block.palette, block.mode as int) {
                Some(p) => Some((p.size, p.colors)),
                None => None,
            },
            pending_uv: match kept(block.palette_uv, block.uv_mode as int) {
                Some(p) => Some((p.size, p.u_colors)),
                None => None,
            },
            ..b
        }
    }
}

/// The symbols of an intra block's modes after its luma mode: its angle, its
/// chroma mode with its scales or its angle, and its palettes.
pub open spec fn modes_ops(
    plan: FramePlan,
    b: Bands,
    block: BlockCoeffs,
    cfl: bool,
    mi_r: int,
    mi_c: int,
    side: int,
) -> Seq<Op> {
    let mode = block.mode as int;
    let uv_mode = block.uv_mode as int;
    let angle = if is_directional(mode) {
        seq![
            ops::symbol(
                ANGLE_DELTA_ZERO + block.angle_delta_y,
                Cdf::AngleDelta((mode - V_PRED) as usize),
            ),
        ]
    } else {
        Seq::empty()
    };
    let chroma = seq![
        ops::symbol(
            uv_mode,
            if cfl {
                Cdf::UvModeCfl(mode as usize)
            } else {
                Cdf::UvModeNoCfl(mode as usize)
            },
        ),
    ];
    let scales = if uv_mode == UV_CFL_PRED {
        cfl_ops((block.cfl_alphas->0).0 as int, (block.cfl_alphas->0).1 as int)
    } else if is_directional(uv_mode) {
        seq![
            ops::symbol(
                ANGLE_DELTA_ZERO as int,
                Cdf::AngleDelta((uv_mode - V_PRED) as usize),
            ),
        ]
    } else {
        Seq::empty()
    };
    angle + chroma + scales + palette_syntax_ops(plan, b, block, mi_r, mi_c, side)
}

/// Whether the scales of a block can be coded.
pub open spec fn is_cfl(alphas: Option<(i32, i32)>) -> bool {
    alphas matches Some(a) && -16 <= a.0 <= 16 && -16 <= a.1 <= 16 && !(a.0 == 0 && a.1 == 0)
}

/// Whether an intra block's choices can be coded at a size, for whichever
/// luma mode.
pub open spec fn is_intra(plan: FramePlan, block: BlockCoeffs, side: int, cfl: bool) -> bool {
    &&& block.uv_mode <= UV_CFL_PRED
    &&& block.uv_mode == UV_CFL_PRED ==> cfl && is_cfl(block.cfl_alphas)
    &&& -3 <= block.angle_delta_y <= 3
    &&& block.filter_intra matches Some(f) ==> f < 5
    &&& plan.screen && block.mode == DC_PRED ==> (block.palette matches Some(p) ==> is_palette_y(
        p,
        side,
    ))
    &&& plan.screen && block.uv_mode == DC_PRED ==> (block.palette_uv matches Some(p)
        ==> is_palette_uv(p, side))
}

/// The joint sign of two chroma-from-luma scales, of which one is not zero.
pub fn cfl_joint_sign(alpha_u: i32, alpha_v: i32) -> (joint: usize)
    requires
        alpha_u != 0 || alpha_v != 0,
    ensures
        joint == joint_sign(alpha_u as int, alpha_v as int),
        joint < 8,
{
    let su: usize = if alpha_u == 0 {
        0
    } else if alpha_u < 0 {
        1
    } else {
        2
    };
    let sv: usize = if alpha_v == 0 {
        0
    } else if alpha_v < 0 {
        1
    } else {
        2
    };
    3 * su + sv - 1
}

/// The context of one scale's magnitude.
pub fn cfl_alpha_ctx(joint: usize, plane: usize) -> (ctx: usize)
    requires
        joint < 8,
        plane == 0 ==> (joint + 1) / 3 >= 1,
        plane != 0 ==> (joint + 1) % 3 >= 1,
    ensures
        ctx == alpha_ctx(joint as int, plane as int),
{
    let su: usize = (joint + 1) / 3;
    let sv: usize = (joint + 1) % 3;
    if plane == 0 {
        3 * su + sv - 3
    } else {
        3 * sv + su - 3
    }
}

/// Writes the chroma-from-luma scales: their joint sign, then the magnitude of
/// each that is not zero.
pub fn write_cfl_alphas(out: &mut Vec<Op>, alpha_u: i32, alpha_v: i32)
    requires
        alpha_u != 0 || alpha_v != 0,
        -16 <= alpha_u <= 16,
        -16 <= alpha_v <= 16,
    ensures
        final(out)@ == old(out)@ + cfl_ops(alpha_u as int, alpha_v as int),
{
    proof {
        joint_signs_read_back(alpha_u as int, alpha_v as int);
    }
    let joint: usize = cfl_joint_sign(alpha_u, alpha_v);
    put(out, joint, Cdf::CflSign);
    if alpha_u != 0 {
        let m: i32 = if alpha_u < 0 {
            -alpha_u
        } else {
            alpha_u
        };
        put(out, (m - 1) as usize, Cdf::CflAlpha(cfl_alpha_ctx(joint, 0)));
    }
    if alpha_v != 0 {
        let m: i32 = if alpha_v < 0 {
            -alpha_v
        } else {
            alpha_v
        };
        put(out, (m - 1) as usize, Cdf::CflAlpha(cfl_alpha_ctx(joint, 1)));
    }
    proof {
        assert(out@ =~= old(out)@ + cfl_ops(alpha_u as int, alpha_v as int));
    }
}

/// Writes whether a block is predicted by recursive filtering, and by which
/// filter.
pub fn write_filter_intra(
    out: &mut Vec<Op>,
    on: bool,
    mode: usize,
    side: usize,
    has_palette_y: bool,
    filter_intra: Option<u8>,
)
    ensures
        final(out)@ == old(out)@ + filter_intra_ops(
            on,
            mode as int,
            side as int,
            has_palette_y,
            filter_intra,
        ),
{
    if on && mode == DC_PRED && !has_palette_y && side <= 32 {
        match filter_intra {
            Some(f) => {
                put(out, 1, Cdf::FilterIntra(side));
                put(out, f as usize, Cdf::FilterIntraMode);
                note(out, Note::FilterIntra(f as usize));
            },
            None => {
                put(out, 0, Cdf::FilterIntra(side));
            },
        }
    }
    proof {
        assert(out@ =~= old(out)@ + filter_intra_ops(
            on,
            mode as int,
            side as int,
            has_palette_y,
            filter_intra,
        ));
    }
}

/// The row of the transform type tables a block reads. It still leaves its own
/// mode behind for its neighbours.
pub fn tx_row(mode: usize, filter_intra: Option<u8>) -> (row: usize)
    requires
        mode < INTRA_MODES,
        filter_intra matches Some(f) ==> f < 5,
    ensures
        row == spec_tx_row(mode as int, filter_intra),
        row < INTRA_MODES,
{
    match filter_intra {
        Some(f) => FILTER_INTRA_DIR[f as usize],
        None => mode,
    }
}

/// The size class of a palette.
pub fn size_class(side: usize) -> (class: usize)
    ensures
        class == palette_class(side as int),
{
    if side == 8 {
        0
    } else if side == 16 {
        2
    } else if side == 32 {
        4
    } else {
        6
    }
}

fn write_palette_y(
    out: &mut Vec<Op>,
    neighbours: &Neighbours,
    palette: &Option<PaletteY>,
    mode: usize,
    mi: (usize, usize),
    side: usize,
)
    requires
        neighbours::is_bands(neighbours@),
        mi.0 < neighbours@.left.len(),
        mi.1 < neighbours@.above.len(),
        mode == DC_PRED ==> (*palette matches Some(p) ==> is_palette_y(p, side as int)),
    ensures
        final(out)@ == old(out)@ + palette_y_ops(
            neighbours@,
            kept(*palette, mode as int),
            mode as int,
            mi.0 as int,
            mi.1 as int,
            side as int,
        ),
{
    let ghost all = palette_y_ops(
        neighbours@,
        kept(*palette, mode as int),
        mode as int,
        mi.0 as int,
        mi.1 as int,
        side as int,
    );
    proof {
        reveal(palette_y_ops);
    }
    if mode == DC_PRED {
        let class: usize = size_class(side);
        let (ctx, cache): (usize, Vec<u16>) = neighbours.palette_ctx_and_cache(mi);
        put(out, bit(palette.is_some()), Cdf::PaletteYMode(class, ctx));
        if let Some(p) = palette {
            let n: usize = p.size as usize;
            put(out, n - 2, Cdf::PaletteYSize(class));
            let colors: Vec<u16> = first_colors(&p.colors, n);
            write_palette_colors_y(out, &colors, &cache);
        }
    }
    proof {
        assert(out@ =~= old(out)@ + all);
    }
}

/// The first colours of a palette's eight.
pub fn first_colors(colors: &[u16; 8], n: usize) -> (v: Vec<u16>)
    requires
        n <= 8,
    ensures
        v@ == colors@.take(n as int),
{
    let mut v: Vec<u16> = Vec::new();
    while v.len() < n
        invariant
            v.len() <= n <= 8,
            v@ == colors@.take(v.len() as int),
        decreases n - v.len(),
    {
        let i: usize = v.len();
        v.push(colors[i]);
        proof {
            assert(v@ =~= colors@.take(i + 1));
        }
    }
    v
}

fn write_palette_uv(
    out: &mut Vec<Op>,
    neighbours: &Neighbours,
    palette: &Option<PaletteUv>,
    has_y: bool,
    uv_mode: usize,
    mi: (usize, usize),
    side: usize,
)
    requires
        neighbours::is_bands(neighbours@),
        mi.0 < neighbours@.left.len(),
        mi.1 < neighbours@.above.len(),
        uv_mode == DC_PRED ==> (*palette matches Some(p) ==> is_palette_uv(p, side as int)),
    ensures
        final(out)@ == old(out)@ + palette_uv_ops(
            neighbours@,
            kept(*palette, uv_mode as int),
            has_y,
            uv_mode as int,
            mi.0 as int,
            mi.1 as int,
            side as int,
        ),
{
    let ghost all = palette_uv_ops(
        neighbours@,
        kept(*palette, uv_mode as int),
        has_y,
        uv_mode as int,
        mi.0 as int,
        mi.1 as int,
        side as int,
    );
    proof {
        reveal(palette_uv_ops);
    }
    if uv_mode == DC_PRED {
        put(out, bit(palette.is_some()), Cdf::PaletteUvMode(bit(has_y)));
        if let Some(p) = palette {
            let n: usize = p.size as usize;
            let cache: Vec<u16> = neighbours.palette_uv_cache(mi);
            put(out, n - 2, Cdf::PaletteUvSize(size_class(side)));
            let u: Vec<u16> = first_colors(&p.u_colors, n);
            let v: Vec<u16> = first_colors(&p.v_colors, n);
            write_palette_colors_uv(out, &u, &v, &cache);
        }
    }
    proof {
        assert(out@ =~= old(out)@ + all);
    }
}

fn write_maps(
    out: &mut Vec<Op>,
    y: &Option<PaletteY>,
    mode: usize,
    uv: &Option<PaletteUv>,
    uv_mode: usize,
    side: usize,
)
    requires
        is_block_side(side as int),
        mode == DC_PRED ==> (*y matches Some(p) ==> is_palette_y(p, side as int)),
        uv_mode == DC_PRED ==> (*uv matches Some(p) ==> is_palette_uv(p, side as int)),
    ensures
        final(out)@ == old(out)@ + maps_ops(
            kept(*y, mode as int),
            kept(*uv, uv_mode as int),
            side as int,
        ),
{
    proof {
        reveal(maps_ops);
    }
    if mode == DC_PRED {
        if let Some(p) = y {
            write_color_index_map(out, MapPlane::Y, &p.map, side, p.size as usize);
            note(out, Note::Palette(p.size as usize));
        }
    }
    if uv_mode == DC_PRED {
        if let Some(p) = uv {
            write_color_index_map(
                out,
                MapPlane::Uv,
                &p.map,
                palette_uv_side(side),
                p.size as usize,
            );
            note(out, Note::PaletteUv(p.size as usize));
        }
    }
    proof {
        assert(out@ =~= old(out)@ + maps_ops(
            kept(*y, mode as int),
            kept(*uv, uv_mode as int),
            side as int,
        ));
    }
}

/// Writes a block's palettes and its recursive filter: the flags, sizes and
/// colours of both planes, then the filter, then the maps.
pub fn write_palette_syntax(
    out: &mut Vec<Op>,
    plan: &FramePlan,
    neighbours: &mut Neighbours,
    block: &BlockCoeffs,
    mi: (usize, usize),
    side: usize,
)
    requires
        neighbours::is_bands(old(neighbours)@),
        mi.0 < old(neighbours)@.left.len(),
        mi.1 < old(neighbours)@.above.len(),
        is_block_side(side as int),
        is_intra(*plan, *block, side as int, true),
        block.mode < INTRA_MODES,
    ensures
        final(out)@ == old(out)@ + palette_syntax_ops(
            *plan,
            old(neighbours)@,
            *block,
            mi.0 as int,
            mi.1 as int,
            side as int,
        ),
        final(neighbours)@ == with_pending(*plan, old(neighbours)@, *block),
        neighbours::is_bands(final(neighbours)@),
{
    let ghost all = palette_syntax_ops(
        *plan,
        neighbours@,
        *block,
        mi.0 as int,
        mi.1 as int,
        side as int,
    );
    proof {
        reveal(palette_syntax_ops);
    }
    let mode: usize = block.mode as usize;
    let uv_mode: usize = block.uv_mode as usize;
    if !plan.screen {
        write_filter_intra(out, plan.filter_intra, mode, side, false, block.filter_intra);
        return ;
    }
    let has_y: bool = mode == DC_PRED && block.palette.is_some();
    write_palette_y(out, neighbours, &block.palette, mode, mi, side);
    write_palette_uv(out, neighbours, &block.palette_uv, has_y, uv_mode, mi, side);
    write_filter_intra(out, plan.filter_intra, mode, side, has_y, block.filter_intra);
    write_maps(out, &block.palette, mode, &block.palette_uv, uv_mode, side);
    neighbours.pending_palette = None;
    neighbours.pending_palette_uv = None;
    if mode == DC_PRED {
        if let Some(p) = &block.palette {
            neighbours.pending_palette = Some((p.size, p.colors));
        }
    }
    if uv_mode == DC_PRED {
        if let Some(p) = &block.palette_uv {
            neighbours.pending_palette_uv = Some((p.size, p.u_colors));
        }
    }
    proof {
        assert(out@ =~= old(out)@ + all);
    }
}

/// Writes an intra block's modes after its luma mode.
pub fn write_modes(
    out: &mut Vec<Op>,
    plan: &FramePlan,
    neighbours: &mut Neighbours,
    block: &BlockCoeffs,
    cfl: bool,
    mi: (usize, usize),
    side: usize,
)
    requires
        neighbours::is_bands(old(neighbours)@),
        mi.0 < old(neighbours)@.left.len(),
        mi.1 < old(neighbours)@.above.len(),
        is_block_side(side as int),
        is_intra(*plan, *block, side as int, cfl),
        block.mode < INTRA_MODES,
    ensures
        final(out)@ == old(out)@ + modes_ops(
            *plan,
            old(neighbours)@,
            *block,
            cfl,
            mi.0 as int,
            mi.1 as int,
            side as int,
        ),
        final(neighbours)@ == with_pending(*plan, old(neighbours)@, *block),
        neighbours::is_bands(final(neighbours)@),
{
    let ghost all = modes_ops(
        *plan,
        neighbours@,
        *block,
        cfl,
        mi.0 as int,
        mi.1 as int,
        side as int,
    );
    let mode: usize = block.mode as usize;
    if V_PRED <= mode && mode <= D67_PRED {
        put(
            out,
            (3 + block.angle_delta_y) as usize,
            Cdf::AngleDelta(mode - V_PRED),
        );
    }
    let uv_mode: usize = block.uv_mode as usize;
    if cfl {
        put(out, uv_mode, Cdf::UvModeCfl(mode));
    } else {
        put(out, uv_mode, Cdf::UvModeNoCfl(mode));
    }
    if uv_mode == UV_CFL_PRED {
        if let Some((u, v)) = block.cfl_alphas {
            write_cfl_alphas(out, u, v);
        }
    } else if V_PRED <= uv_mode && uv_mode <= D67_PRED {
        put(out, ANGLE_DELTA_ZERO, Cdf::AngleDelta(uv_mode - V_PRED));
    }
    write_palette_syntax(out, plan, neighbours, block, mi, side);
    proof {
        assert(out@ =~= old(out)@ + all);
    }
}

} // verus!
