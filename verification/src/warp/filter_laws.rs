//! What the warp filter predicts.
use crate::bits;
use crate::warp::filter;
use crate::warp::filter::Placement;
use crate::warp::model::WarpParams;
use crate::warp::taps;
use vstd::prelude::*;

verus! {

/// The model that moves everything by `x` and `y` samples of a plane.
pub open spec fn is_move(params: WarpParams, at: Placement, x: int, y: int) -> bool {
    &&& params.wmmat[0] == 65536 * filter::upsampled(x, at.subsampling_x as int)
    &&& params.wmmat[1] == 65536 * filter::upsampled(y, at.subsampling_y as int)
    &&& params.wmmat[2] == 65536 && params.wmmat[3] == 0
    &&& params.wmmat[4] == 0 && params.wmmat[5] == 65536
    &&& params.alpha == 0 && params.beta == 0 && params.gamma == 0 && params.delta == 0
}

/// The border of the reference continues outwards: inside, a sample is the one at
/// its row and column, and outside the nearest one there is.
pub proof fn references_continue_their_border(
    reference: Seq<u8>,
    width: int,
    height: int,
    stride: int,
    y: int,
    x: int,
)
    requires
        width > 0,
        height > 0,
    ensures
        0 <= y < height && 0 <= x < width ==> filter::reference_at(
            reference,
            width,
            height,
            stride,
            y,
            x,
        ) == reference[y * stride + x],
        y < 0 ==> filter::reference_at(reference, width, height, stride, y, x)
            == filter::reference_at(reference, width, height, stride, 0, x),
        y >= height ==> filter::reference_at(reference, width, height, stride, y, x)
            == filter::reference_at(reference, width, height, stride, height - 1, x),
        x < 0 ==> filter::reference_at(reference, width, height, stride, y, x)
            == filter::reference_at(reference, width, height, stride, y, 0),
        x >= width ==> filter::reference_at(reference, width, height, stride, y, x)
            == filter::reference_at(reference, width, height, stride, y, width - 1),
{
}

proof fn lemma_whole_sample()
    ensures
        filter::taps_at(0) == 64,
        taps::tap(64, 0) == 0 && taps::tap(64, 1) == 0 && taps::tap(64, 2) == 0,
        taps::tap(64, 3) == 127 && taps::tap(64, 4) == 1,
        taps::tap(64, 5) == 0 && taps::tap(64, 6) == 0 && taps::tap(64, 7) == 0,
{
    reveal(taps::tap);
    bits::lemma_round2_zero(10);
}

proof fn lemma_whole_row(
    reference: Seq<u8>,
    width: int,
    height: int,
    stride: int,
    y: int,
    x: int,
)
    ensures
        filter::horizontal_sum(reference, width, height, stride, y, x - 3, 64, 8) == 127
            * filter::reference_at(reference, width, height, stride, y, x) + filter::reference_at(
            reference,
            width,
            height,
            stride,
            y,
            x + 1,
        ),
{
    lemma_whole_sample();
    reveal_with_fuel(filter::horizontal_sum, 9);
}

/// Where a whole-sample move takes a tile's centre.
proof fn lemma_moved(params: WarpParams, at: Placement, x: int, y: int, i: int, j: int)
    requires
        is_move(params, at, x, y),
        filter::is_subsampling(at.subsampling_x as int),
        filter::is_subsampling(at.subsampling_y as int),
    ensures
        filter::projected(params, at, i, j) == (65536 * (j + 4 + x), 65536 * (i + 4 + y)),
{
    let m = params.wmmat;
    let u = filter::upsampled(j + 4, at.subsampling_x as int);
    let v = filter::upsampled(i + 4, at.subsampling_y as int);
    assert(m[3] * v == 0 && m[4] * u == 0 && m[2] * u == 65536 * u && m[5] * v == 65536 * v);
}

proof fn lemma_moved_middle(
    params: WarpParams,
    reference: Seq<u8>,
    width: int,
    height: int,
    stride: int,
    x4: int,
    y4: int,
    k: int,
    l: int,
)
    requires
        params.alpha == 0,
        params.beta == 0,
        x4 % 65536 == 0,
        y4 % 65536 == 0,
    ensures
        filter::intermediate(params, reference, width, height, stride, x4, y4, k, l)
            == bits::spec_round2(
            16384 + 127 * filter::reference_at(
                reference,
                width,
                height,
                stride,
                y4 / 65536 + k,
                x4 / 65536 + l,
            ) + filter::reference_at(
                reference,
                width,
                height,
                stride,
                y4 / 65536 + k,
                x4 / 65536 + l + 1,
            ),
            3,
        ),
{
    lemma_whole_sample();
    lemma_whole_row(reference, width, height, stride, y4 / 65536 + k, x4 / 65536 + l);
    assert(params.beta * (k + 4) == 0 && params.alpha * (l + 4) == 0);
    assert(filter::start_fraction(x4, 0, 0) == 0);
}

/// Moving by whole samples predicts the reference moved by them: 127 parts of
/// the sample that lies there and one of the next, along each axis, rounded.
pub proof fn whole_moves_predict_the_moved_reference(
    params: WarpParams,
    reference: Seq<u8>,
    width: int,
    height: int,
    stride: int,
    at: Placement,
    x: int,
    y: int,
    r: int,
    c: int,
)
    requires
        is_move(params, at, x, y),
        filter::is_plane(reference.len() as int, width, height, stride),
        filter::is_subsampling(at.subsampling_x as int),
        filter::is_subsampling(at.subsampling_y as int),
        0 <= r,
        0 <= c,
    ensures
        ({
            let p = |down: int, right: int|
                filter::reference_at(
                    reference,
                    width,
                    height,
                    stride,
                    at.row + r + y + down,
                    at.col + c + x + right,
                );
            let predicted = filter::warped_pixel(
                params,
                reference,
                width,
                height,
                stride,
                at,
                r,
                c,
            ) as int;
            -8704 <= 16384 * predicted - (127 * (127 * p(0, 0) + p(0, 1)) + 127 * p(1, 0) + p(
                1,
                1,
            )) <= 8704
        }),
{
    let (h0, h1) = lemma_moved_pixel(params, reference, width, height, stride, at, x, y, r, c);
}

/// The two rows a whole-sample move filters, and the sample they give.
proof fn lemma_moved_pixel(
    params: WarpParams,
    reference: Seq<u8>,
    width: int,
    height: int,
    stride: int,
    at: Placement,
    x: int,
    y: int,
    r: int,
    c: int,
) -> (h: (int, int))
    requires
        is_move(params, at, x, y),
        filter::is_plane(reference.len() as int, width, height, stride),
        filter::is_subsampling(at.subsampling_x as int),
        filter::is_subsampling(at.subsampling_y as int),
        0 <= r,
        0 <= c,
    ensures
        ({
            let (y0, x0) = (at.row + r + y, at.col + c + x);
            let p00 = filter::reference_at(reference, width, height, stride, y0, x0);
            let p01 = filter::reference_at(reference, width, height, stride, y0, x0 + 1);
            let p10 = filter::reference_at(reference, width, height, stride, y0 + 1, x0);
            let p11 = filter::reference_at(reference, width, height, stride, y0 + 1, x0 + 1);
            &&& h.0 == (16384 + 127 * p00 + p01 + 4) / 8
            &&& h.1 == (16384 + 127 * p10 + p11 + 4) / 8
            &&& filter::warped_pixel(params, reference, width, height, stride, at, r, c) == (
            0x8_0000 + 127 * h.0 + h.1 + 1024) / 2048 - 384
        }),
{
    let (i, j) = (at.row + 8 * (r / 8), at.col + 8 * (c / 8));
    let (k, l) = (r % 8 - 4, c % 8 - 4);
    lemma_moved(params, at, x, y, i, j);
    let (x4, y4) = filter::projected(params, at, i, j);
    let (y0, x0) = (at.row + r + y, at.col + c + x);
    assert(y4 / 65536 + k == y0 && x4 / 65536 + l == x0);
    let p00 = filter::reference_at(reference, width, height, stride, y0, x0);
    let p01 = filter::reference_at(reference, width, height, stride, y0, x0 + 1);
    let p10 = filter::reference_at(reference, width, height, stride, y0 + 1, x0);
    let p11 = filter::reference_at(reference, width, height, stride, y0 + 1, x0 + 1);
    let h0 = (16384 + 127 * p00 + p01 + 4) / 8;
    let h1 = (16384 + 127 * p10 + p11 + 4) / 8;
    bits::lemma_pow2_values();
    assert(bits::pow2(11) == 2048 && bits::pow2(10) == 1024 && bits::pow2(3) == 8 && bits::pow2(2)
        == 4) by {
        reveal_with_fuel(bits::pow2, 12);
    }
    assert(filter::intermediate(params, reference, width, height, stride, x4, y4, k, l) == h0) by {
        lemma_moved_middle(params, reference, width, height, stride, x4, y4, k, l);
        reveal(bits::spec_round2);
    }
    assert(filter::intermediate(params, reference, width, height, stride, x4, y4, k + 1, l) == h1)
        by {
        lemma_moved_middle(params, reference, width, height, stride, x4, y4, k + 1, l);
        reveal(bits::spec_round2);
    }
    lemma_whole_sample();
    assert(params.delta * (k + 4) == 0 && params.gamma * (l + 4) == 0);
    assert(filter::start_fraction(y4, 0, 0) == 0);
    assert(filter::vertical_sum(
        params,
        reference,
        width,
        height,
        stride,
        x4,
        y4,
        k,
        l,
        64,
        8,
    ) == 127 * h0 + h1) by {
        reveal_with_fuel(filter::vertical_sum, 9);
    }
    reveal(bits::spec_round2);
    (h0, h1)
}

/// A reference that is constant along its rows is predicted, moved by whole
/// samples, as its own rows: 127 parts of the row that lies there and one of the
/// next below, to the nearest. So one that grows downwards is predicted growing
/// downwards.
pub proof fn rows_stay_rows(
    params: WarpParams,
    reference: Seq<u8>,
    width: int,
    height: int,
    stride: int,
    at: Placement,
    x: int,
    y: int,
    r: int,
    c: int,
    v: spec_fn(int) -> int,
)
    requires
        is_move(params, at, x, y),
        filter::is_plane(reference.len() as int, width, height, stride),
        filter::is_subsampling(at.subsampling_x as int),
        filter::is_subsampling(at.subsampling_y as int),
        0 <= r,
        0 <= c,
        forall|a: int, b: int|
            #[trigger] filter::reference_at(reference, width, height, stride, a, b) == v(a),
    ensures
        filter::warped_pixel(params, reference, width, height, stride, at, r, c) == (127 * v(
            at.row + r + y,
        ) + v(at.row + r + y + 1) + 64) / 128,
{
    let (h0, h1) = lemma_moved_pixel(params, reference, width, height, stride, at, x, y, r, c);
    let (v0, v1) = (v(at.row + r + y), v(at.row + r + y + 1));
    assert(h0 == 2048 + 16 * v0 && h1 == 2048 + 16 * v1);
}

/// A reference that is constant down its columns is predicted, moved by whole
/// samples, as its own columns, with one part in 128 of the next to the right.
pub proof fn columns_stay_columns(
    params: WarpParams,
    reference: Seq<u8>,
    width: int,
    height: int,
    stride: int,
    at: Placement,
    x: int,
    y: int,
    r: int,
    c: int,
    v: spec_fn(int) -> int,
)
    requires
        is_move(params, at, x, y),
        filter::is_plane(reference.len() as int, width, height, stride),
        filter::is_subsampling(at.subsampling_x as int),
        filter::is_subsampling(at.subsampling_y as int),
        0 <= r,
        0 <= c,
        forall|a: int, b: int|
            #[trigger] filter::reference_at(reference, width, height, stride, a, b) == v(b),
    ensures
        ({
            let predicted = filter::warped_pixel(
                params,
                reference,
                width,
                height,
                stride,
                at,
                r,
                c,
            ) as int;
            let (here, next) = (v(at.col + c + x), v(at.col + c + x + 1));
            -68 <= 128 * predicted - (127 * here + next) <= 68
        }),
{
    let (h0, h1) = lemma_moved_pixel(params, reference, width, height, stride, at, x, y, r, c);
}

/// Whether one reference is another moved: what lies at a place of it lies `x`
/// columns and `y` rows further in the other.
pub open spec fn is_moved(
    a: Seq<u8>,
    b: Seq<u8>,
    plane: (int, int, int),
    other: (int, int, int),
    x: int,
    y: int,
) -> bool {
    forall|i: int, j: int|
        #[trigger] filter::reference_at(b, other.0, other.1, other.2, i, j)
            == filter::reference_at(a, plane.0, plane.1, plane.2, i + y, j + x)
}

/// Whether a model is another that moves everything `x` and `y` samples of the
/// plane further.
pub open spec fn moves_further(
    p: WarpParams,
    q: WarpParams,
    at: Placement,
    x: int,
    y: int,
) -> bool {
    &&& p.wmmat[0] == q.wmmat[0] + 65536 * filter::upsampled(x, at.subsampling_x as int)
    &&& p.wmmat[1] == q.wmmat[1] + 65536 * filter::upsampled(y, at.subsampling_y as int)
    &&& p.wmmat[2] == q.wmmat[2] && p.wmmat[3] == q.wmmat[3]
    &&& p.wmmat[4] == q.wmmat[4] && p.wmmat[5] == q.wmmat[5]
    &&& p.alpha == q.alpha && p.beta == q.beta && p.gamma == q.gamma && p.delta == q.delta
}

proof fn lemma_moved_row(
    a: Seq<u8>,
    b: Seq<u8>,
    plane: (int, int, int),
    other: (int, int, int),
    by: (int, int),
    i: int,
    j: int,
    t: int,
    count: int,
)
    requires
        is_moved(a, b, plane, other, by.0, by.1),
    ensures
        filter::horizontal_sum(b, other.0, other.1, other.2, i, j, t, count)
            == filter::horizontal_sum(
            a,
            plane.0,
            plane.1,
            plane.2,
            i + by.1,
            j + by.0,
            t,
            count,
        ),
    decreases count,
{
    if count > 0 {
        lemma_moved_row(a, b, plane, other, by, i, j, t, count - 1);
        assert(filter::reference_at(b, other.0, other.1, other.2, i, j + count - 1)
            == filter::reference_at(
            a,
            plane.0,
            plane.1,
            plane.2,
            i + by.1,
            (j + count - 1) + by.0,
        ));
    }
}

proof fn lemma_moved_sum(
    p: WarpParams,
    q: WarpParams,
    a: Seq<u8>,
    b: Seq<u8>,
    plane: (int, int, int),
    other: (int, int, int),
    by: (int, int),
    x4: int,
    y4: int,
    k: int,
    l: int,
    t: int,
    count: int,
)
    requires
        is_moved(a, b, plane, other, by.0, by.1),
        p.alpha == q.alpha,
        p.beta == q.beta,
    ensures
        filter::vertical_sum(q, b, other.0, other.1, other.2, x4, y4, k, l, t, count)
            == filter::vertical_sum(
            p,
            a,
            plane.0,
            plane.1,
            plane.2,
            x4 + 65536 * by.0,
            y4 + 65536 * by.1,
            k,
            l,
            t,
            count,
        ),
    decreases count,
{
    if count > 0 {
        lemma_moved_sum(p, q, a, b, plane, other, by, x4, y4, k, l, t, count - 1);
        let n = k + count - 1 - 3;
        let (u4, v4) = (x4 + 65536 * by.0, y4 + 65536 * by.1);
        assert(u4 / 65536 == x4 / 65536 + by.0 && u4 % 65536 == x4 % 65536);
        assert(v4 / 65536 == y4 / 65536 + by.1);
        let sx = filter::start_fraction(x4, q.alpha as int, q.beta as int) + q.beta * (n + 4)
            + q.alpha * (l + 4);
        lemma_moved_row(
            a,
            b,
            plane,
            other,
            by,
            y4 / 65536 + n,
            x4 / 65536 + l - 3,
            filter::taps_at(sx),
            8,
        );
    }
}

/// A model that moves everything further by whole samples predicts from a
/// reference what the first one predicts from that reference moved by them,
/// whatever else the model does.
pub proof fn moving_the_model_moves_the_reference(
    p: WarpParams,
    q: WarpParams,
    a: Seq<u8>,
    b: Seq<u8>,
    plane: (int, int, int),
    other: (int, int, int),
    at: Placement,
    x: int,
    y: int,
    r: int,
    c: int,
)
    requires
        filter::is_subsampling(at.subsampling_x as int),
        filter::is_subsampling(at.subsampling_y as int),
        moves_further(p, q, at, x, y),
        is_moved(a, b, plane, other, x, y),
    ensures
        filter::warped_pixel(p, a, plane.0, plane.1, plane.2, at, r, c) == filter::warped_pixel(
            q,
            b,
            other.0,
            other.1,
            other.2,
            at,
            r,
            c,
        ),
{
    let (i, j) = (at.row + 8 * (r / 8), at.col + 8 * (c / 8));
    let (k, l) = (r % 8 - 4, c % 8 - 4);
    let (x4, y4) = filter::projected(q, at, i, j);
    let (u4, v4) = filter::projected(p, at, i, j);
    assert(u4 == x4 + 65536 * x && v4 == y4 + 65536 * y);
    assert(v4 % 65536 == y4 % 65536);
    let sy = filter::start_fraction(y4, q.gamma as int, q.delta as int) + q.delta * (k + 4)
        + q.gamma * (l + 4);
    lemma_moved_sum(p, q, a, b, plane, other, (x, y), x4, y4, k, l, filter::taps_at(sy), 8);
}

/// The filter a sample is read with lies where the shears put the sample, to
/// within a 64th and a bit of rounding: `k` rows and `l` columns from the centre
/// of a tile that is projected to `v`, one shear for each column and one for each
/// row away from the fraction of `v`.
pub proof fn filters_lie_where_the_shears_say(v: int, along: int, across: int, k: int, l: int)
    ensures
        ({
            let s = filter::start_fraction(v, along, across) + across * (k + 4) + along * (l + 4);
            -576 <= 1024 * (filter::taps_at(s) - 64) - (v % 65536 + along * l + across * k) <= 512
        }),
{
    assert(across * (k + 4) == across * k + 4 * across) by (nonlinear_arith);
    assert(along * (l + 4) == along * l + 4 * along) by (nonlinear_arith);
    let s = filter::start_fraction(v, along, across) + across * (k + 4) + along * (l + 4);
    let back = v % 65536 - 4 * along - 4 * across;
    assert(back - 64 < (back / 64) * 64 <= back);
    assert(bits::pow2(9) == 512 && bits::pow2(10) == 1024) by {
        reveal_with_fuel(bits::pow2, 11);
    }
    assert(bits::spec_round2(s, 10) == (s + 512) / 1024) by {
        reveal(bits::spec_round2);
    }
}

/// The samples that a row of a tile's intermediate reads, and the filter it reads
/// them with: those around where the model and its horizontal shears take the
/// place `k` rows and `l` columns from the centre.
pub proof fn rows_read_along_the_horizontal_shears(
    params: WarpParams,
    reference: Seq<u8>,
    plane: (int, int, int),
    x4: int,
    y4: int,
    k: int,
    l: int,
) -> (t: int)
    ensures
        -576 <= 1024 * (t - 64) - (x4 % 65536 + params.alpha * l + params.beta * k) <= 512,
        filter::intermediate(params, reference, plane.0, plane.1, plane.2, x4, y4, k, l)
            == bits::spec_round2(
            16384 + filter::horizontal_sum(
                reference,
                plane.0,
                plane.1,
                plane.2,
                y4 / 65536 + k,
                x4 / 65536 + l - 3,
                t,
                8,
            ),
            3,
        ),
{
    let (alpha, beta) = (params.alpha as int, params.beta as int);
    filters_lie_where_the_shears_say(x4, alpha, beta, k, l);
    filter::taps_at(
        filter::start_fraction(x4, alpha, beta) + beta * (k + 4) + alpha * (l + 4),
    )
}

/// The rows of the intermediate that a predicted sample is made of, and the filter
/// they are read with: those around where the model and its vertical shears take
/// the sample.
pub proof fn samples_read_along_the_vertical_shears(
    params: WarpParams,
    reference: Seq<u8>,
    plane: (int, int, int),
    at: Placement,
    r: int,
    c: int,
) -> (t: int)
    requires
        0 <= r,
        0 <= c,
    ensures
        ({
            let (i, j) = (at.row + r - r % 8, at.col + c - c % 8);
            let (k, l) = (r % 8 - 4, c % 8 - 4);
            let (x4, y4) = filter::projected(params, at, i, j);
            let sum = filter::vertical_sum(
                params,
                reference,
                plane.0,
                plane.1,
                plane.2,
                x4,
                y4,
                k,
                l,
                t,
                8,
            );
            let rounded = bits::spec_round2(0x8_0000 + sum, 11) - 384;
            let predicted = filter::warped_pixel(
                params,
                reference,
                plane.0,
                plane.1,
                plane.2,
                at,
                r,
                c,
            );
            &&& -576 <= 1024 * (t - 64) - (y4 % 65536 + params.gamma * l + params.delta * k) <= 512
            &&& 0 <= rounded <= 255 ==> predicted == rounded
            &&& rounded < 0 ==> predicted == 0
            &&& rounded > 255 ==> predicted == 255
        }),
{
    let (i, j) = (at.row + 8 * (r / 8), at.col + 8 * (c / 8));
    let (k, l) = (r % 8 - 4, c % 8 - 4);
    let (x4, y4) = filter::projected(params, at, i, j);
    let (gamma, delta) = (params.gamma as int, params.delta as int);
    filters_lie_where_the_shears_say(y4, gamma, delta, k, l);
    filter::taps_at(
        filter::start_fraction(y4, gamma, delta) + delta * (k + 4) + gamma * (l + 4),
    )
}

/// The filter is weighted over eight samples in a row, from three before the place
/// to four after it; and down a column over eight rows of the intermediate, from
/// three above to four below.
pub proof fn filters_weigh_eight_neighbours(
    params: WarpParams,
    reference: Seq<u8>,
    plane: (int, int, int),
    x4: int,
    y4: int,
    y: int,
    x: int,
    t: int,
)
    ensures
        ({
            let p = |n: int| filter::reference_at(reference, plane.0, plane.1, plane.2, y, x + n);
            filter::horizontal_sum(reference, plane.0, plane.1, plane.2, y, x - 3, t, 8) == p(-3)
                * taps::tap(t, 0) + p(-2) * taps::tap(t, 1) + p(-1) * taps::tap(t, 2) + p(0)
                * taps::tap(t, 3) + p(1) * taps::tap(t, 4) + p(2) * taps::tap(t, 5) + p(3)
                * taps::tap(t, 6) + p(4) * taps::tap(t, 7)
        }),
        ({
            let h = |n: int|
                filter::intermediate(
                    params,
                    reference,
                    plane.0,
                    plane.1,
                    plane.2,
                    x4,
                    y4,
                    y + n,
                    x,
                );
            filter::vertical_sum(params, reference, plane.0, plane.1, plane.2, x4, y4, y, x, t, 8)
                == h(-3) * taps::tap(t, 0) + h(-2) * taps::tap(t, 1) + h(-1) * taps::tap(t, 2) + h(
                0,
            ) * taps::tap(t, 3) + h(1) * taps::tap(t, 4) + h(2) * taps::tap(t, 5) + h(3)
                * taps::tap(t, 6) + h(4) * taps::tap(t, 7)
        }),
{
    reveal_with_fuel(filter::horizontal_sum, 9);
    reveal_with_fuel(filter::vertical_sum, 9);
}

/// A tile's centre is projected by the model in luma samples: a plane of half the
/// columns or rows is doubled for it, and what comes back is halved, rounding
/// down.
pub proof fn centres_are_projected_in_luma(params: WarpParams, at: Placement, i: int, j: int)
    requires
        filter::is_subsampling(at.subsampling_x as int),
        filter::is_subsampling(at.subsampling_y as int),
    ensures
        ({
            let (fx, fy) = (1 + at.subsampling_x as int, 1 + at.subsampling_y as int);
            let m = params.wmmat;
            let (x4, y4) = filter::projected(params, at, i, j);
            let x = m[0] + m[2] * (fx * (j + 4)) + m[3] * (fy * (i + 4));
            let y = m[1] + m[4] * (fx * (j + 4)) + m[5] * (fy * (i + 4));
            fx * x4 <= x < fx * x4 + fx && fy * y4 <= y < fy * y4 + fy
        }),
{
    let (fx, fy) = (1 + at.subsampling_x as int, 1 + at.subsampling_y as int);
    assert(fx * (j + 4) == filter::upsampled(j + 4, at.subsampling_x as int)) by {
        assert(1 * (j + 4) == j + 4);
    }
    assert(fy * (i + 4) == filter::upsampled(i + 4, at.subsampling_y as int)) by {
        assert(1 * (i + 4) == i + 4);
    }
    let (x4, y4) = filter::projected(params, at, i, j);
    assert(fx * x4 == if at.subsampling_x == 0 {
        x4
    } else {
        2 * x4
    });
    assert(fy * y4 == if at.subsampling_y == 0 {
        y4
    } else {
        2 * y4
    });
}

/// A reference that grows downwards is predicted, moved by whole samples, growing downwards.
pub proof fn growing_references_are_predicted_growing(
    params: WarpParams,
    reference: Seq<u8>,
    width: int,
    height: int,
    stride: int,
    at: Placement,
    x: int,
    y: int,
    r: int,
    c: int,
    v: spec_fn(int) -> int,
)
    requires
        is_move(params, at, x, y),
        filter::is_plane(reference.len() as int, width, height, stride),
        filter::is_subsampling(at.subsampling_x as int),
        filter::is_subsampling(at.subsampling_y as int),
        0 <= r,
        0 <= c,
        forall|a: int, b: int|
            #[trigger] filter::reference_at(reference, width, height, stride, a, b) == v(a),
        forall|a: int| #[trigger] v(a) <= v(a + 1),
    ensures
        filter::warped_pixel(params, reference, width, height, stride, at, r, c)
            <= filter::warped_pixel(params, reference, width, height, stride, at, r + 1, c),
        v(at.row + r + y) <= filter::warped_pixel(
            params,
            reference,
            width,
            height,
            stride,
            at,
            r,
            c,
        ) <= v(at.row + r + y + 1),
{
    rows_stay_rows(params, reference, width, height, stride, at, x, y, r, c, v);
    rows_stay_rows(params, reference, width, height, stride, at, x, y, r + 1, c, v);
    let k = at.row + r + y;
    assert(at.row + (r + 1) + y == k + 1 && at.row + (r + 1) + y + 1 == (k + 1) + 1);
    assert(v(k) <= v(k + 1) && v(k + 1) <= v((k + 1) + 1));
}

} // verus!
