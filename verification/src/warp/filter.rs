//! The filter that predicts a block through an affine model.
use crate::bits;
use crate::transform::adst;
use crate::warp::affine;
use crate::warp::model;
use crate::warp::model::{round2, WarpParams};
use crate::warp::samples;
use crate::warp::taps;
use crate::warp::taps::tap_of;
use vstd::prelude::*;

verus! {

/// The prediction block: where it lies in its plane, and how far that plane
/// is subsampled.
#[derive(Clone, Copy)]
pub struct Placement {
    /// The block's first column.
    pub col: i32,
    /// The block's first row.
    pub row: i32,
    /// One where the plane has half the luma columns, else zero.
    pub subsampling_x: i32,
    /// One where the plane has half the luma rows, else zero.
    pub subsampling_y: i32,
}

/// A coordinate doubled where its axis is subsampled.
pub open spec fn upsampled(x: int, subsampling: int) -> int {
    if subsampling == 0 {
        x
    } else {
        2 * x
    }
}

/// A coordinate halved, rounding down, where its axis is subsampled.
pub open spec fn downsampled(x: int, subsampling: int) -> int {
    if subsampling == 0 {
        x
    } else {
        x / 2
    }
}

/// Where the model takes the centre of the tile at row `i`, column `j`, in
/// units of `2^-16`: `(x, y)`.
pub open spec fn projected(params: WarpParams, at: Placement, i: int, j: int) -> (int, int) {
    let x = upsampled(j + 4, at.subsampling_x as int);
    let y = upsampled(i + 4, at.subsampling_y as int);
    let m = params.wmmat;
    (
        downsampled(m[2] * x + m[3] * y + m[0], at.subsampling_x as int),
        downsampled(m[4] * x + m[5] * y + m[1], at.subsampling_y as int),
    )
}

/// The fraction of a projected coordinate, taken back to the tile's first row
/// and column and cut to steps of 64.
pub open spec fn start_fraction(v: int, along: int, across: int) -> int {
    ((v % 65536 - 4 * along - 4 * across) / 64) * 64
}

/// The row of taps for a fraction.
pub open spec fn taps_at(fraction: int) -> int {
    bits::spec_round2(fraction, 10) + 64
}

/// The sample at row `y`, column `x` of the reference, which continues its
/// border outwards.
pub open spec fn reference_at(
    reference: Seq<u8>,
    width: int,
    height: int,
    stride: int,
    y: int,
    x: int,
) -> int {
    reference[bits::spec_clamp(y, 0, height - 1) * stride + bits::spec_clamp(x, 0, width - 1)] as int
}

/// The sum of the first `count` taps over the samples from `(y, x)` on.
pub open spec fn horizontal_sum(
    reference: Seq<u8>,
    width: int,
    height: int,
    stride: int,
    y: int,
    x: int,
    taps: int,
    count: int,
) -> int
    decreases count,
{
    if count <= 0 {
        0
    } else {
        horizontal_sum(reference, width, height, stride, y, x, taps, count - 1) + reference_at(
            reference,
            width,
            height,
            stride,
            y,
            x + count - 1,
        ) * taps::tap(taps, count - 1)
    }
}

/// One entry of a tile's intermediate, `k` rows and `l` columns from its
/// centre: eight reference samples filtered along their row.
pub open spec fn intermediate(
    params: WarpParams,
    reference: Seq<u8>,
    width: int,
    height: int,
    stride: int,
    x4: int,
    y4: int,
    k: int,
    l: int,
) -> int {
    let sx = start_fraction(x4, params.alpha as int, params.beta as int) + params.beta * (k + 4)
        + params.alpha * (l + 4);
    bits::spec_round2(
        16384 + horizontal_sum(
            reference,
            width,
            height,
            stride,
            y4 / 65536 + k,
            x4 / 65536 + l - 3,
            taps_at(sx),
            8,
        ),
        3,
    )
}

/// The sum of the first `count` taps over the intermediate's rows from `k`
/// on.
pub open spec fn vertical_sum(
    params: WarpParams,
    reference: Seq<u8>,
    width: int,
    height: int,
    stride: int,
    x4: int,
    y4: int,
    k: int,
    l: int,
    taps: int,
    count: int,
) -> int
    decreases count,
{
    if count <= 0 {
        0
    } else {
        vertical_sum(
            params,
            reference,
            width,
            height,
            stride,
            x4,
            y4,
            k,
            l,
            taps,
            count - 1,
        ) + intermediate(
            params,
            reference,
            width,
            height,
            stride,
            x4,
            y4,
            k + count - 1 - 3,
            l,
        ) * taps::tap(taps, count - 1)
    }
}

/// The predicted sample `k` rows and `l` columns from the centre of the tile
/// at row `i`, column `j`.
pub open spec fn tile_pixel(
    params: WarpParams,
    reference: Seq<u8>,
    width: int,
    height: int,
    stride: int,
    at: Placement,
    i: int,
    j: int,
    k: int,
    l: int,
) -> u8 {
    let (x4, y4) = projected(params, at, i, j);
    let sy = start_fraction(y4, params.gamma as int, params.delta as int) + params.delta * (k + 4)
        + params.gamma * (l + 4);
    let sum = 0x8_0000 + vertical_sum(
        params,
        reference,
        width,
        height,
        stride,
        x4,
        y4,
        k,
        l,
        taps_at(sy),
        8,
    );
    bits::spec_clamp(bits::spec_round2(sum, 11) - 384, 0, 255) as u8
}

/// The predicted sample at row `r`, column `c` of the block, which is covered
/// by 8x8 tiles.
pub open spec fn warped_pixel(
    params: WarpParams,
    reference: Seq<u8>,
    width: int,
    height: int,
    stride: int,
    at: Placement,
    r: int,
    c: int,
) -> u8 {
    tile_pixel(
        params,
        reference,
        width,
        height,
        stride,
        at,
        at.row + 8 * (r / 8),
        at.col + 8 * (c / 8),
        r % 8 - 4,
        c % 8 - 4,
    )
}

/// Whether the projection of one tile is computed without overflow, with room
/// around it for the taps.
pub open spec fn tile_fits(params: WarpParams, at: Placement, i: int, j: int) -> bool {
    let x = upsampled(j + 4, at.subsampling_x as int);
    let y = upsampled(i + 4, at.subsampling_y as int);
    let m = params.wmmat;
    let (x4, y4) = projected(params, at, i, j);
    &&& adst::fits_i32(j + 8) && adst::fits_i32(i + 8)
    &&& adst::fits_i32(x) && adst::fits_i32(y)
    &&& model::fits_i64(m[2] * x + m[3] * y) && model::fits_i64(m[2] * x + m[3] * y + m[0])
    &&& model::fits_i64(m[4] * x + m[5] * y) && model::fits_i64(m[4] * x + m[5] * y + m[1])
    &&& -0x7fff_ff00 <= x4 / 65536 <= 0x7fff_ff00
    &&& -0x7fff_ff00 <= y4 / 65536 <= 0x7fff_ff00
}

/// Whether a subsampling is that of luma or of halved chroma.
pub open spec fn is_subsampling(s: int) -> bool {
    s == 0 || s == 1
}

/// Whether the reference plane holds every sample that it says it has.
pub open spec fn is_plane(len: int, width: int, height: int, stride: int) -> bool {
    &&& 0 < width
    &&& 0 < height
    &&& 0 <= stride
    &&& (height - 1) * stride + width <= len
    &&& (height - 1) * stride + width <= 0x7fff_ffff
}

/// Whether the shears of a model are ones the filter can represent.
pub open spec fn params_allowed(p: WarpParams) -> bool {
    affine::shears_allowed(p.alpha as int, p.beta as int, p.gamma as int, p.delta as int)
}

/// A pixel from a filtered value.
fn clip_pixel(v: i32) -> (p: u8)
    ensures
        p == bits::spec_clamp(v as int, 0, 255),
{
    if v < 0 {
        0
    } else if v > 255 {
        255
    } else {
        v as u8
    }
}

/// An index held to a range of `n`.
fn clamp_index(v: i32, n: i32) -> (i: i32)
    requires
        n > 0,
    ensures
        i == bits::spec_clamp(v as int, 0, n - 1),
        0 <= i < n,
{
    if v < 0 {
        0
    } else if v > n - 1 {
        n - 1
    } else {
        v
    }
}

/// A product with a small factor is at most as many times the magnitude.
proof fn lemma_scaled_magnitude(a: int, k: int, most: int)
    requires
        -most <= k <= most,
    ensures
        -most * samples::magnitude(a) <= a * k <= most * samples::magnitude(a),
{
    assert(-most * samples::magnitude(a) <= a * k <= most * samples::magnitude(a))
        by (nonlinear_arith)
        requires
            -most <= k <= most,
            samples::magnitude(a) == if a < 0 {
                -a
            } else {
                a
            },
    ;
}

/// Every fraction inside a tile has its row of taps, as long as the shears
/// are ones the filter can represent.
proof fn lemma_taps_in_range(v: int, along: int, across: int, rows: int, k: int, l: int)
    requires
        rows == 4 || rows == 7,
        -rows <= k <= rows,
        -4 <= l <= 4,
        4 * samples::magnitude(along) + rows * samples::magnitude(across) < 65536,
        -32768 <= along <= 32767,
        -32768 <= across <= 32767,
    ensures
        ({
            let s = start_fraction(v, along, across) + across * (k + 4) + along * (l + 4);
            &&& 0 <= taps_at(s) < 193
            &&& -200_000 <= s <= 200_000
        }),
{
    lemma_scaled_magnitude(along, l, 4);
    lemma_scaled_magnitude(across, k, rows);
    assert(across * (k + 4) == across * k + 4 * across) by (nonlinear_arith);
    assert(along * (l + 4) == along * l + 4 * along) by (nonlinear_arith);
    let z = v % 65536;
    let back = z - 4 * along - 4 * across;
    let s = start_fraction(v, along, across) + across * (k + 4) + along * (l + 4);
    assert(back - 64 < (back / 64) * 64 <= back);
    assert(z + across * k + along * l - 64 < s <= z + across * k + along * l);
    assert(-65600 < s < 131072);
    assert(bits::pow2(9) == 512 && bits::pow2(10) == 1024) by {
        reveal_with_fuel(bits::pow2, 11);
    }
    assert(bits::spec_round2(s, 10) == (s + 512) / 1024) by {
        reveal(bits::spec_round2);
    }
}

/// The start of a tile's fractions along one axis.
fn fraction_of(v: i64, along: i64, across: i64) -> (f: i64)
    requires
        -32768 <= along <= 32767,
        -32768 <= across <= 32767,
    ensures
        f == start_fraction(v as int, along as int, across as int),
        -400_000 <= f <= 400_000,
{
    proof {
        bits::lemma_shr_i64(v, 16);
        bits::lemma_pow2_values();
    }
    let low: i64 = v - (v >> 16u32) * 65536;
    let back: i64 = low - 4 * along - 4 * across;
    proof {
        bits::lemma_shr_i64(back, 6);
    }
    (back >> 6u32) * 64
}

/// Eight reference samples filtered along their row.
fn filter_row(
    reference: &[u8],
    width: i32,
    height: i32,
    stride: i32,
    y: i32,
    x: i32,
    taps: usize,
) -> (sum: i32)
    requires
        is_plane(reference@.len() as int, width as int, height as int, stride as int),
        -0x7fff_ff80 <= x <= 0x7fff_ff80,
        taps < 193,
    ensures
        sum == horizontal_sum(
            reference@,
            width as int,
            height as int,
            stride as int,
            y as int,
            x as int,
            taps as int,
            8,
        ),
        -259_080 <= sum <= 259_080,
{
    let row: i32 = clamp_index(y, height);
    let mut sum: i32 = 0;
    for m in 0..8usize
        invariant
            is_plane(reference@.len() as int, width as int, height as int, stride as int),
            -0x7fff_ff80 <= x <= 0x7fff_ff80,
            taps < 193,
            0 <= row < height,
            row == bits::spec_clamp(y as int, 0, height - 1),
            sum == horizontal_sum(
                reference@,
                width as int,
                height as int,
                stride as int,
                y as int,
                x as int,
                taps as int,
                m as int,
            ),
            -32_385 * m <= sum <= 32_385 * m,
    {
        let col: i32 = clamp_index(x + m as i32, width);
        proof {
            assert(0 <= row * stride <= (height - 1) * stride) by (nonlinear_arith)
                requires
                    0 <= row <= height - 1,
                    0 <= stride,
            ;
        }
        let sample: i32 = reference[(row * stride + col) as usize] as i32;
        let tap: i32 = tap_of(taps, m);
        proof {
            assert(-32_385 <= sample * tap <= 32_385) by (nonlinear_arith)
                requires
                    0 <= sample <= 255,
                    -127 <= tap <= 127,
            ;
            assert(sample == reference_at(
                reference@,
                width as int,
                height as int,
                stride as int,
                y as int,
                x + m,
            ));
        }
        sum = sum + sample * tap;
    }
    sum
}

/// The intermediate of one tile: fifteen rows of eight.
fn tile_rows(
    params: &WarpParams,
    reference: &[u8],
    width: i32,
    height: i32,
    stride: i32,
    x4: i64,
    y4: i64,
) -> (rows: Vec<Vec<i32>>)
    requires
        params_allowed(*params),
        is_plane(reference@.len() as int, width as int, height as int, stride as int),
        -0x7fff_ff00 <= x4 as int / 65536 <= 0x7fff_ff00,
        -0x7fff_ff00 <= y4 as int / 65536 <= 0x7fff_ff00,
    ensures
        is_intermediate(
            rows@,
            *params,
            reference@,
            width as int,
            height as int,
            stride as int,
            x4 as int,
            y4 as int,
        ),
{
    let alpha: i64 = params.alpha as i64;
    let beta: i64 = params.beta as i64;
    proof {
        bits::lemma_shr_i64(x4, 16);
        bits::lemma_shr_i64(y4, 16);
        bits::lemma_pow2_values();
    }
    let ix4: i32 = (x4 >> 16u32) as i32;
    let iy4: i32 = (y4 >> 16u32) as i32;
    let sx4: i64 = fraction_of(x4, alpha, beta);
    let mut rows: Vec<Vec<i32>> = Vec::new();
    for a in 0..15usize
        invariant
            params_allowed(*params),
            alpha == params.alpha,
            beta == params.beta,
            is_plane(reference@.len() as int, width as int, height as int, stride as int),
            -0x7fff_ff00 <= ix4 <= 0x7fff_ff00,
            -0x7fff_ff00 <= iy4 <= 0x7fff_ff00,
            ix4 == x4 as int / 65536,
            iy4 == y4 as int / 65536,
            sx4 == start_fraction(x4 as int, alpha as int, beta as int),
            -400_000 <= sx4 <= 400_000,
            rows.len() == a,
            forall|k: int|
                0 <= k < a ==> is_intermediate_row(
                    (#[trigger] rows@[k])@,
                    *params,
                    reference@,
                    width as int,
                    height as int,
                    stride as int,
                    x4 as int,
                    y4 as int,
                    k - 7,
                ),
    {
        let k: i32 = a as i32 - 7;
        let mut row: Vec<i32> = Vec::new();
        for b in 0..8usize
            invariant
                params_allowed(*params),
                alpha == params.alpha,
                beta == params.beta,
                is_plane(reference@.len() as int, width as int, height as int, stride as int),
                -0x7fff_ff00 <= ix4 <= 0x7fff_ff00,
                -0x7fff_ff00 <= iy4 <= 0x7fff_ff00,
                ix4 == x4 as int / 65536,
                iy4 == y4 as int / 65536,
                sx4 == start_fraction(x4 as int, alpha as int, beta as int),
                -400_000 <= sx4 <= 400_000,
                k == a - 7,
                a < 15,
                row.len() == b,
                forall|l: int|
                    0 <= l < b ==> #[trigger] row@[l] == intermediate(
                        *params,
                        reference@,
                        width as int,
                        height as int,
                        stride as int,
                        x4 as int,
                        y4 as int,
                        k as int,
                        l - 4,
                    ) && -40_000 <= row@[l] <= 40_000,
        {
            let l: i32 = b as i32 - 4;
            proof {
                lemma_taps_in_range(
                    x4 as int,
                    alpha as int,
                    beta as int,
                    7,
                    k as int,
                    l as int,
                );
                lemma_scaled_magnitude(beta as int, k + 4, 11);
                lemma_scaled_magnitude(alpha as int, l + 4, 8);
                bits::lemma_pow2_values();
            }
            let sx: i64 = sx4 + beta * (k as i64 + 4) + alpha * (l as i64 + 4);
            let taps: usize = (round2(sx, 10) + 64) as usize;
            let sum: i32 = filter_row(
                reference,
                width,
                height,
                stride,
                iy4 + k,
                ix4 + l - 3,
                taps,
            );
            let wide: i64 = 16384 + sum as i64;
            let rounded: i64 = round2(wide, 3);
            proof {
                assert(-40_000 <= rounded <= 40_000) by {
                    reveal(bits::spec_round2);
                }
            }
            row.push(rounded as i32);
        }
        rows.push(row);
    }
    rows
}

/// Whether these eight values are row `k` of a tile's intermediate.
pub open spec fn is_intermediate_row(
    row: Seq<i32>,
    params: WarpParams,
    reference: Seq<u8>,
    width: int,
    height: int,
    stride: int,
    x4: int,
    y4: int,
    k: int,
) -> bool {
    &&& row.len() == 8
    &&& forall|l: int|
        0 <= l < 8 ==> #[trigger] row[l] == intermediate(
            params,
            reference,
            width,
            height,
            stride,
            x4,
            y4,
            k,
            l - 4,
        ) && -40_000 <= row[l] <= 40_000
}

/// Whether these rows are a tile's intermediate.
pub open spec fn is_intermediate(
    rows: Seq<Vec<i32>>,
    params: WarpParams,
    reference: Seq<u8>,
    width: int,
    height: int,
    stride: int,
    x4: int,
    y4: int,
) -> bool {
    &&& rows.len() == 15
    &&& forall|a: int|
        0 <= a < 15 ==> is_intermediate_row(
            (#[trigger] rows[a])@,
            params,
            reference,
            width,
            height,
            stride,
            x4,
            y4,
            a - 7,
        )
}

/// A tile ready to be filtered down its columns.
struct Tile {
    rows: Vec<Vec<i32>>,
    start: i64,
}

/// The tile at row `i`, column `j`.
fn make_tile(
    params: &WarpParams,
    reference: &[u8],
    width: i32,
    height: i32,
    stride: i32,
    at: Placement,
    i: i32,
    j: i32,
) -> (tile: Tile)
    requires
        params_allowed(*params),
        is_plane(reference@.len() as int, width as int, height as int, stride as int),
        is_subsampling(at.subsampling_x as int),
        is_subsampling(at.subsampling_y as int),
        tile_fits(*params, at, i as int, j as int),
    ensures
        is_tile(
            tile,
            *params,
            reference@,
            width as int,
            height as int,
            stride as int,
            at,
            i as int,
            j as int,
        ),
{
    let m: [i32; 6] = params.wmmat;
    let src_x: i64 = if at.subsampling_x == 0 {
        (j + 4) as i64
    } else {
        2 * (j as i64 + 4)
    };
    let src_y: i64 = if at.subsampling_y == 0 {
        (i + 4) as i64
    } else {
        2 * (i as i64 + 4)
    };
    proof {
        lemma_entry_product(m[2] as int, src_x as int);
        lemma_entry_product(m[3] as int, src_y as int);
        lemma_entry_product(m[4] as int, src_x as int);
        lemma_entry_product(m[5] as int, src_y as int);
    }
    let dst_x: i64 = m[2] as i64 * src_x + m[3] as i64 * src_y + m[0] as i64;
    let dst_y: i64 = m[4] as i64 * src_x + m[5] as i64 * src_y + m[1] as i64;
    proof {
        bits::lemma_shr_i64(dst_x, 1);
        bits::lemma_shr_i64(dst_y, 1);
        bits::lemma_pow2_values();
    }
    let x4: i64 = if at.subsampling_x == 0 {
        dst_x
    } else {
        dst_x >> 1u32
    };
    let y4: i64 = if at.subsampling_y == 0 {
        dst_y
    } else {
        dst_y >> 1u32
    };
    let rows: Vec<Vec<i32>> = tile_rows(params, reference, width, height, stride, x4, y4);
    let start: i64 = fraction_of(y4, params.gamma as i64, params.delta as i64);
    Tile { rows, start }
}

/// A 32-bit entry times a 32-bit coordinate.
proof fn lemma_entry_product(m: int, c: int)
    requires
        adst::fits_i32(m),
        adst::fits_i32(c),
    ensures
        -0x4000_0000_0000_0000 <= m * c <= 0x4000_0000_0000_0000,
{
    assert(-0x4000_0000_0000_0000 <= m * c <= 0x4000_0000_0000_0000) by (nonlinear_arith)
        requires
            -0x8000_0000 <= m <= 0x7fff_ffff,
            -0x8000_0000 <= c <= 0x7fff_ffff,
    ;
}

/// Whether this is the tile at row `i`, column `j`.
spec fn is_tile(
    tile: Tile,
    params: WarpParams,
    reference: Seq<u8>,
    width: int,
    height: int,
    stride: int,
    at: Placement,
    i: int,
    j: int,
) -> bool {
    let (x4, y4) = projected(params, at, i, j);
    &&& is_intermediate(tile.rows@, params, reference, width, height, stride, x4, y4)
    &&& tile.start == start_fraction(y4, params.gamma as int, params.delta as int)
    &&& -400_000 <= tile.start <= 400_000
}

/// One predicted sample of a tile, `a` rows and `b` columns from its corner.
fn tile_sample(
    tile: &Tile,
    params: &WarpParams,
    a: usize,
    b: usize,
    Ghost(reference): Ghost<Seq<u8>>,
    Ghost(plane): Ghost<(int, int, int)>,
    Ghost(at): Ghost<Placement>,
    Ghost(tile_at): Ghost<(int, int)>,
) -> (p: u8)
    requires
        params_allowed(*params),
        is_tile(
            *tile,
            *params,
            reference,
            plane.0,
            plane.1,
            plane.2,
            at,
            tile_at.0,
            tile_at.1,
        ),
        a < 8,
        b < 8,
    ensures
        p == tile_pixel(
            *params,
            reference,
            plane.0,
            plane.1,
            plane.2,
            at,
            tile_at.0,
            tile_at.1,
            a - 4,
            b - 4,
        ),
{
    let gamma: i64 = params.gamma as i64;
    let delta: i64 = params.delta as i64;
    let ghost projection = projected(*params, at, tile_at.0, tile_at.1);
    let ghost (x4, y4) = projection;
    proof {
        lemma_taps_in_range(y4, gamma as int, delta as int, 4, a - 4, b - 4);
        lemma_scaled_magnitude(delta as int, a as int, 8);
        lemma_scaled_magnitude(gamma as int, b as int, 8);
        bits::lemma_pow2_values();
    }
    let sy: i64 = tile.start + delta * (a as i64) + gamma * (b as i64);
    let taps: usize = (round2(sy, 10) + 64) as usize;
    let mut sum: i32 = 0;
    for m in 0..8usize
        invariant
            is_intermediate(
                tile.rows@,
                *params,
                reference,
                plane.0,
                plane.1,
                plane.2,
                x4,
                y4,
            ),
            a < 8,
            b < 8,
            taps < 193,
            sum == vertical_sum(
                *params,
                reference,
                plane.0,
                plane.1,
                plane.2,
                x4,
                y4,
                a - 4,
                b - 4,
                taps as int,
                m as int,
            ),
            -5_080_000 * m <= sum <= 5_080_000 * m,
    {
        assert(is_intermediate_row(
            tile.rows@[a + m]@,
            *params,
            reference,
            plane.0,
            plane.1,
            plane.2,
            x4,
            y4,
            a + m - 7,
        ));
        let v: i32 = tile.rows[a + m][b];
        let tap: i32 = tap_of(taps, m);
        proof {
            assert(-5_080_000 <= v * tap <= 5_080_000) by (nonlinear_arith)
                requires
                    -40_000 <= v <= 40_000,
                    -127 <= tap <= 127,
            ;
        }
        sum = sum + v * tap;
    }
    let wide: i64 = 0x8_0000 + sum as i64;
    let rounded: i64 = round2(wide, 11);
    proof {
        assert(-100_000 <= rounded <= 100_000) by {
            reveal(bits::spec_round2);
        }
    }
    clip_pixel(rounded as i32 - 384)
}

/// The position of row `r`, column `c` in rows of `stride`.
pub open spec fn grid_at(r: int, c: int, stride: int) -> int {
    r * stride + c
}

/// Whether position `p` of a plane of rows of `stride` lies in a block of
/// `w` by `h` at its start.
pub open spec fn in_block(p: int, stride: int, w: int, h: int) -> bool {
    exists|r: int, c: int| 0 <= r < h && 0 <= c < w && p == #[trigger] grid_at(r, c, stride)
}

/// Different places of a block lie at different positions, in the order of
/// the raster.
proof fn lemma_positions(r: int, c: int, q: int, d: int, stride: int, w: int)
    requires
        0 <= c < w <= stride,
        0 <= d < w,
        0 <= r,
        0 <= q,
        grid_at(r, c, stride) == grid_at(q, d, stride),
    ensures
        r == q && c == d,
{
    assert(r == q) by (nonlinear_arith)
        requires
            0 <= c < stride,
            0 <= d < stride,
            r * stride + c == q * stride + d,
    ;
}

/// The tiles of one row of tiles.
fn tile_row(
    params: &WarpParams,
    reference: &[u8],
    width: i32,
    height: i32,
    stride: i32,
    at: Placement,
    i: i32,
    count: usize,
) -> (tiles: Vec<Tile>)
    requires
        params_allowed(*params),
        is_plane(reference@.len() as int, width as int, height as int, stride as int),
        is_subsampling(at.subsampling_x as int),
        is_subsampling(at.subsampling_y as int),
        count <= 0x1000_0000,
        forall|t: int|
            0 <= t < count ==> tile_fits(*params, at, i as int, #[trigger] tile_start(at.col, t)),
    ensures
        tiles.len() == count,
        forall|t: int|
            0 <= t < count ==> is_tile(
                #[trigger] tiles@[t],
                *params,
                reference@,
                width as int,
                height as int,
                stride as int,
                at,
                i as int,
                tile_start(at.col, t),
            ),
{
    let mut tiles: Vec<Tile> = Vec::new();
    for t in 0..count
        invariant
            params_allowed(*params),
            is_plane(reference@.len() as int, width as int, height as int, stride as int),
            is_subsampling(at.subsampling_x as int),
            is_subsampling(at.subsampling_y as int),
            count <= 0x1000_0000,
            forall|t: int|
                0 <= t < count ==> tile_fits(
                    *params,
                    at,
                    i as int,
                    #[trigger] tile_start(at.col, t),
                ),
            tiles.len() == t,
            forall|k: int|
                0 <= k < t ==> is_tile(
                    #[trigger] tiles@[k],
                    *params,
                    reference@,
                    width as int,
                    height as int,
                    stride as int,
                    at,
                    i as int,
                    tile_start(at.col, k),
                ),
    {
        assert(tile_fits(*params, at, i as int, tile_start(at.col, t as int)));
        let j: i32 = (at.col as i64 + 8 * (t as i64)) as i32;
        tiles.push(make_tile(params, reference, width, height, stride, at, i, j));
    }
    tiles
}

/// The first column, or row, of tile `t`.
pub open spec fn tile_start(first: i32, t: int) -> int {
    first + 8 * t
}

/// Predicts a `p_width` by `p_height` block through an affine model.
///
/// `reference` is a plane of `width` by `height` samples in rows of `stride`;
/// `dst` receives the block in rows of `p_stride`, and nothing else of it
/// changes. The block's corner is `(p_col, p_row)` in its own plane.
pub fn warp_affine(
    params: &WarpParams,
    reference: &[u8],
    width: i32,
    height: i32,
    stride: i32,
    dst: &mut [u8],
    p_col: i32,
    p_row: i32,
    p_width: i32,
    p_height: i32,
    p_stride: i32,
    subsampling_x: i32,
    subsampling_y: i32,
)
    requires
        params_allowed(*params),
        is_plane(reference@.len() as int, width as int, height as int, stride as int),
        is_subsampling(subsampling_x as int),
        is_subsampling(subsampling_y as int),
        0 <= p_width <= p_stride,
        0 <= p_height,
        p_height > 0 ==> grid_at(p_height - 1, p_width as int, p_stride as int) <= old(dst).len(),
        forall|t: int, u: int|
            0 <= 8 * t < p_height && 0 <= 8 * u < p_width ==> tile_fits(
                *params,
                (Placement { col: p_col, row: p_row, subsampling_x, subsampling_y }),
                #[trigger] tile_start(p_row, t),
                #[trigger] tile_start(p_col, u),
            ),
    ensures
        final(dst).len() == old(dst).len(),
        forall|r: int, c: int|
            0 <= r < p_height && 0 <= c < p_width ==> final(dst)@[#[trigger] grid_at(
                r,
                c,
                p_stride as int,
            )] == warped_pixel(
                *params,
                reference@,
                width as int,
                height as int,
                stride as int,
                (Placement { col: p_col, row: p_row, subsampling_x, subsampling_y }),
                r,
                c,
            ),
        forall|p: int|
            0 <= p < old(dst).len() && !in_block(
                p,
                p_stride as int,
                p_width as int,
                p_height as int,
            ) ==> #[trigger] final(dst)@[p] == old(dst)@[p],
{
    let at: Placement = Placement { col: p_col, row: p_row, subsampling_x, subsampling_y };
    let ghost before = dst@;
    let w: usize = p_width as usize;
    let h: usize = p_height as usize;
    let pitch: usize = p_stride as usize;
    let tiles_across: usize = (w + 7) / 8;
    let mut tiles: Vec<Tile> = Vec::new();
    for r in 0..h
        invariant
            params_allowed(*params),
            is_plane(reference@.len() as int, width as int, height as int, stride as int),
            at == (Placement { col: p_col, row: p_row, subsampling_x, subsampling_y }),
            is_subsampling(subsampling_x as int),
            is_subsampling(subsampling_y as int),
            0 <= w <= pitch,
            w == p_width,
            h == p_height,
            pitch == p_stride,
            h > 0 ==> grid_at(h - 1, w as int, pitch as int) <= before.len(),
            tiles_across == (w + 7) / 8,
            forall|t: int, u: int|
                0 <= 8 * t < h && 0 <= 8 * u < w ==> tile_fits(
                    *params,
                    at,
                    #[trigger] tile_start(p_row, t),
                    #[trigger] tile_start(p_col, u),
                ),
            r % 8 != 0 ==> tiles.len() == tiles_across && forall|t: int|
                0 <= t < tiles_across ==> is_tile(
                    #[trigger] tiles@[t],
                    *params,
                    reference@,
                    width as int,
                    height as int,
                    stride as int,
                    at,
                    tile_start(p_row, r as int / 8),
                    tile_start(p_col, t),
                ),
            dst.len() == before.len(),
            forall|q: int, c: int|
                0 <= q < r && 0 <= c < w ==> dst@[#[trigger] grid_at(q, c, pitch as int)]
                    == warped_pixel(
                    *params,
                    reference@,
                    width as int,
                    height as int,
                    stride as int,
                    at,
                    q,
                    c,
                ),
            forall|p: int|
                0 <= p < before.len() && !in_block(p, pitch as int, w as int, r as int)
                    ==> #[trigger] dst@[p] == before[p],
    {
        if r % 8 == 0 {
            proof {
                if w > 0 {
                    assert(tile_fits(
                        *params,
                        at,
                        tile_start(p_row, r as int / 8),
                        tile_start(p_col, 0),
                    ));
                }
                assert forall|t: int| 0 <= t < tiles_across implies tile_fits(
                    *params,
                    at,
                    p_row + r,
                    #[trigger] tile_start(at.col, t),
                ) by {
                    assert(tile_fits(
                        *params,
                        at,
                        tile_start(p_row, r as int / 8),
                        tile_start(p_col, t),
                    ));
                }
            }
            if w > 0 {
                tiles = tile_row(
                    params,
                    reference,
                    width,
                    height,
                    stride,
                    at,
                    (p_row as i64 + r as i64) as i32,
                    tiles_across,
                );
            } else {
                tiles = Vec::new();
            }
        }
        let ghost above = dst@;
        for c in 0..w
            invariant
                params_allowed(*params),
                at == (Placement { col: p_col, row: p_row, subsampling_x, subsampling_y }),
                0 <= w <= pitch,
                r < h,
                grid_at(h - 1, w as int, pitch as int) <= before.len(),
                tiles_across == (w + 7) / 8,
                tiles.len() == tiles_across,
                forall|t: int|
                    0 <= t < tiles_across ==> is_tile(
                        #[trigger] tiles@[t],
                        *params,
                        reference@,
                        width as int,
                        height as int,
                        stride as int,
                        at,
                        tile_start(p_row, r as int / 8),
                        tile_start(p_col, t),
                    ),
                dst.len() == before.len() == above.len(),
                forall|d: int|
                    0 <= d < c ==> dst@[#[trigger] grid_at(r as int, d, pitch as int)]
                        == warped_pixel(
                        *params,
                        reference@,
                        width as int,
                        height as int,
                        stride as int,
                        at,
                        r as int,
                        d,
                    ),
                forall|p: int|
                    0 <= p < before.len() && (forall|d: int|
                        0 <= d < c ==> p != #[trigger] grid_at(r as int, d, pitch as int))
                        ==> #[trigger] dst@[p] == above[p],
        {
            proof {
                assert(0 <= r * pitch && r * pitch + w <= (h - 1) * pitch + w) by (nonlinear_arith)
                    requires
                        0 <= r <= h - 1,
                        0 <= pitch,
                ;
            }
            let ghost row_so_far = dst@;
            let p: u8 = tile_sample(
                &tiles[c / 8],
                params,
                r % 8,
                c % 8,
                Ghost(reference@),
                Ghost((width as int, height as int, stride as int)),
                Ghost(at),
                Ghost((tile_start(p_row, r as int / 8), tile_start(p_col, c as int / 8))),
            );
            dst[r * pitch + c] = p;
            proof {
                let here = grid_at(r as int, c as int, pitch as int);
                assert(dst@ =~= row_so_far.update(here, p));
                assert forall|d: int| 0 <= d < c + 1 implies dst@[#[trigger] grid_at(
                    r as int,
                    d,
                    pitch as int,
                )] == warped_pixel(
                    *params,
                    reference@,
                    width as int,
                    height as int,
                    stride as int,
                    at,
                    r as int,
                    d,
                ) by {
                    if d < c {
                        assert(grid_at(r as int, d, pitch as int) != here);
                    }
                }
                assert forall|q: int|
                    0 <= q < before.len() && (forall|d: int|
                        0 <= d < c + 1 ==> q != #[trigger] grid_at(
                            r as int,
                            d,
                            pitch as int,
                        )) implies #[trigger] dst@[q] == above[q] by {
                    assert(q != here);
                    assert forall|d: int| 0 <= d < c implies q != #[trigger] grid_at(
                        r as int,
                        d,
                        pitch as int,
                    ) by {}
                }
            }
        }
        proof {
            assert(r * pitch + w <= (h - 1) * pitch + w) by (nonlinear_arith)
                requires
                    0 <= r <= h - 1,
                    0 <= pitch,
            ;
            lemma_row_finished(
                *params,
                reference@,
                (width as int, height as int, stride as int),
                at,
                before,
                above,
                dst@,
                r as int,
                w as int,
                pitch as int,
            );
        }
    }
}

/// A row written below the rows before it leaves them, and everything outside
/// the block, as they were.
proof fn lemma_row_finished(
    params: WarpParams,
    reference: Seq<u8>,
    plane: (int, int, int),
    at: Placement,
    before: Seq<u8>,
    above: Seq<u8>,
    now: Seq<u8>,
    r: int,
    w: int,
    pitch: int,
)
    requires
        0 <= r,
        0 <= w <= pitch,
        above.len() == before.len() == now.len(),
        w > 0 ==> grid_at(r, w, pitch) <= before.len(),
        forall|q: int, c: int|
            0 <= q < r && 0 <= c < w ==> above[#[trigger] grid_at(q, c, pitch)] == warped_pixel(
                params,
                reference,
                plane.0,
                plane.1,
                plane.2,
                at,
                q,
                c,
            ),
        forall|p: int|
            0 <= p < before.len() && !in_block(p, pitch, w, r) ==> #[trigger] above[p]
                == before[p],
        forall|d: int|
            0 <= d < w ==> now[#[trigger] grid_at(r, d, pitch)] == warped_pixel(
                params,
                reference,
                plane.0,
                plane.1,
                plane.2,
                at,
                r,
                d,
            ),
        forall|p: int|
            0 <= p < before.len() && (forall|d: int|
                0 <= d < w ==> p != #[trigger] grid_at(r, d, pitch)) ==> #[trigger] now[p]
                == above[p],
    ensures
        forall|q: int, c: int|
            0 <= q < r + 1 && 0 <= c < w ==> now[#[trigger] grid_at(q, c, pitch)] == warped_pixel(
                params,
                reference,
                plane.0,
                plane.1,
                plane.2,
                at,
                q,
                c,
            ),
        forall|p: int|
            0 <= p < before.len() && !in_block(p, pitch, w, r + 1) ==> #[trigger] now[p]
                == before[p],
{
    assert forall|q: int, c: int| 0 <= q < r + 1 && 0 <= c < w implies now[#[trigger] grid_at(
        q,
        c,
        pitch,
    )] == warped_pixel(params, reference, plane.0, plane.1, plane.2, at, q, c) by {
        if q < r {
            let p = grid_at(q, c, pitch);
            assert forall|d: int| 0 <= d < w implies p != #[trigger] grid_at(r, d, pitch) by {
                if p == grid_at(r, d, pitch) {
                    lemma_positions(q, c, r, d, pitch, w);
                }
            }
            assert(0 <= q * pitch && q * pitch + w <= r * pitch + w) by (nonlinear_arith)
                requires
                    0 <= q < r,
                    0 <= pitch,
            ;
            assert(now[p] == above[p]);
        }
    }
    assert forall|p: int| 0 <= p < before.len() && !in_block(
        p,
        pitch,
        w,
        r + 1,
    ) implies #[trigger] now[p] == before[p] by {
        assert forall|d: int| 0 <= d < w implies p != #[trigger] grid_at(r, d, pitch) by {}
        assert(!in_block(p, pitch, w, r)) by {
            if in_block(p, pitch, w, r) {
                let (q, c) = choose|q: int, c: int|
                    0 <= q < r && 0 <= c < w && p == #[trigger] grid_at(q, c, pitch);
                assert(p == grid_at(q, c, pitch) && 0 <= q < r + 1);
            }
        }
        assert(now[p] == above[p]);
    }
}

/// Whether every sample of the reference is `v`.
pub open spec fn is_flat(reference: Seq<u8>, v: u8) -> bool {
    forall|p: int| 0 <= p < reference.len() ==> #[trigger] reference[p] == v
}

proof fn lemma_flat_sample(
    reference: Seq<u8>,
    width: int,
    height: int,
    stride: int,
    v: u8,
    y: int,
    x: int,
)
    requires
        is_plane(reference.len() as int, width, height, stride),
        is_flat(reference, v),
    ensures
        reference_at(reference, width, height, stride, y, x) == v,
{
    let row = bits::spec_clamp(y, 0, height - 1);
    assert(0 <= row * stride <= (height - 1) * stride) by (nonlinear_arith)
        requires
            0 <= row <= height - 1,
            0 <= stride,
    ;
}

proof fn lemma_flat_row(
    reference: Seq<u8>,
    width: int,
    height: int,
    stride: int,
    v: u8,
    y: int,
    x: int,
    t: int,
)
    requires
        is_plane(reference.len() as int, width, height, stride),
        is_flat(reference, v),
        0 <= t < 193,
    ensures
        horizontal_sum(reference, width, height, stride, y, x, t, 8) == 128 * v,
{
    reveal_with_fuel(horizontal_sum, 9);
    lemma_flat_sample(reference, width, height, stride, v, y, x);
    lemma_flat_sample(reference, width, height, stride, v, y, x + 1);
    lemma_flat_sample(reference, width, height, stride, v, y, x + 2);
    lemma_flat_sample(reference, width, height, stride, v, y, x + 3);
    lemma_flat_sample(reference, width, height, stride, v, y, x + 4);
    lemma_flat_sample(reference, width, height, stride, v, y, x + 5);
    lemma_flat_sample(reference, width, height, stride, v, y, x + 6);
    lemma_flat_sample(reference, width, height, stride, v, y, x + 7);
    taps::taps_add_up_to_128(t);
    lemma_weighted(v as int, t);
}

/// Eight equal values weighted by a row of taps.
proof fn lemma_weighted(v: int, t: int)
    requires
        0 <= t < 193,
    ensures
        v * taps::tap(t, 0) + v * taps::tap(t, 1) + v * taps::tap(t, 2) + v * taps::tap(t, 3) + v
            * taps::tap(t, 4) + v * taps::tap(t, 5) + v * taps::tap(t, 6) + v * taps::tap(t, 7)
            == 128 * v,
{
    taps::taps_add_up_to_128(t);
    let (a, b, c, d) = (taps::tap(t, 0), taps::tap(t, 1), taps::tap(t, 2), taps::tap(t, 3));
    let (e, f, g, h) = (taps::tap(t, 4), taps::tap(t, 5), taps::tap(t, 6), taps::tap(t, 7));
    assert(v * a + v * b + v * c + v * d + v * e + v * f + v * g + v * h == v * (a + b + c + d + e
        + f + g + h)) by (nonlinear_arith);
}

/// A flat picture is predicted as itself, whatever the model: every filter's
/// taps add up to one.
pub proof fn flat_references_predict_themselves(
    params: WarpParams,
    reference: Seq<u8>,
    width: int,
    height: int,
    stride: int,
    at: Placement,
    r: int,
    c: int,
    v: u8,
)
    requires
        params_allowed(params),
        is_plane(reference.len() as int, width, height, stride),
        is_flat(reference, v),
        0 <= r,
        0 <= c,
    ensures
        warped_pixel(params, reference, width, height, stride, at, r, c) == v,
{
    let (i, j) = (at.row + 8 * (r / 8), at.col + 8 * (c / 8));
    let (k, l) = (r % 8 - 4, c % 8 - 4);
    let (x4, y4) = projected(params, at, i, j);
    let sy = start_fraction(y4, params.gamma as int, params.delta as int) + params.delta * (k + 4)
        + params.gamma * (l + 4);
    lemma_taps_in_range(y4, params.gamma as int, params.delta as int, 4, k, l);
    let t = taps_at(sy);
    let mid = 2048 + 16 * (v as int);
    assert forall|n: int| -7 <= n <= 7 implies #[trigger] intermediate(
        params,
        reference,
        width,
        height,
        stride,
        x4,
        y4,
        n,
        l,
    ) == mid by {
        lemma_taps_in_range(x4, params.alpha as int, params.beta as int, 7, n, l);
        let sx = start_fraction(x4, params.alpha as int, params.beta as int) + params.beta * (n + 4)
            + params.alpha * (l + 4);
        lemma_flat_row(
            reference,
            width,
            height,
            stride,
            v,
            y4 / 65536 + n,
            x4 / 65536 + l - 3,
            taps_at(sx),
        );
        reveal(bits::spec_round2);
        bits::lemma_pow2_values();
    }
    assert(vertical_sum(params, reference, width, height, stride, x4, y4, k, l, t, 8) == 128
        * mid) by {
        reveal_with_fuel(vertical_sum, 9);
        lemma_weighted(mid, t);
    }
    assert(bits::spec_round2(0x8_0000 + 128 * mid, 11) == 384 + v) by {
        reveal(bits::spec_round2);
        bits::lemma_pow2_values();
    }
}

} // verus!
