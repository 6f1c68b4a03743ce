//! The motion samples an affine model is fitted to.
use crate::bits;
use crate::transform::adst;
use vstd::prelude::*;

verus! {

/// The side of a mode info unit in luma samples.
pub const MI_SIZE: i32 = 4;

/// Where a neighbouring block's centre is and where its motion takes it, each
/// as `(x, y)` in eighths of a sample from the current block's corner.
#[derive(Clone, Copy)]
pub struct Sample {
    /// The centre of the neighbour.
    pub pts1: (i32, i32),
    /// The centre moved by the neighbour's motion vector.
    pub pts2: (i32, i32),
}

/// `x / 2`, rounded toward zero.
pub open spec fn half_toward_zero(x: int) -> int {
    if x < 0 {
        -((-x) / 2)
    } else {
        x / 2
    }
}

/// The centre of a neighbour along one axis, in samples.
pub open spec fn centre(offset: int, sign: int, size: int) -> int {
    offset * 4 + half_toward_zero(sign * size) - 1
}

/// Whether a centre and its moved counterpart are computed within 32 bits.
pub open spec fn centre_fits(offset: int, sign: int, size: int, mv: int) -> bool {
    &&& adst::fits_i32(offset * 4)
    &&& adst::fits_i32(sign * size)
    &&& adst::fits_i32(offset * 4 + half_toward_zero(sign * size))
    &&& adst::fits_i32(centre(offset, sign, size))
    &&& adst::fits_i32(centre(offset, sign, size) * 8)
    &&& adst::fits_i32(centre(offset, sign, size) * 8 + mv)
}

/// `x / 2`, rounded toward zero.
fn halve(x: i32) -> (y: i32)
    ensures
        y == half_toward_zero(x as int),
{
    if x < 0 {
        (-((-(x as i64)) / 2)) as i32
    } else {
        x / 2
    }
}

/// The sample of one neighbour of `bw` by `bh` luma samples that moves by
/// `nb_mv`, which is `(column, row)` in eighths of a sample.
pub fn record_sample(
    bw: i32,
    bh: i32,
    nb_mv: (i32, i32),
    row_offset: i32,
    sign_r: i32,
    col_offset: i32,
    sign_c: i32,
) -> (s: Sample)
    requires
        centre_fits(col_offset as int, sign_c as int, bw as int, nb_mv.0 as int),
        centre_fits(row_offset as int, sign_r as int, bh as int, nb_mv.1 as int),
    ensures
        s.pts1.0 == 8 * centre(col_offset as int, sign_c as int, bw as int),
        s.pts1.1 == 8 * centre(row_offset as int, sign_r as int, bh as int),
        s.pts2.0 == s.pts1.0 + nb_mv.0,
        s.pts2.1 == s.pts1.1 + nb_mv.1,
{
    let x: i32 = col_offset * MI_SIZE + halve(sign_c * bw) - 1;
    let y: i32 = row_offset * MI_SIZE + halve(sign_r * bh) - 1;
    let pts1: (i32, i32) = (x * 8, y * 8);
    Sample { pts1, pts2: (pts1.0 + nb_mv.0, pts1.1 + nb_mv.1) }
}

/// The magnitude of an integer.
pub open spec fn magnitude(x: int) -> int {
    if x < 0 {
        -x
    } else {
        x
    }
}

/// How far a sample's motion is from `mv`, which is `(row, column)`.
pub open spec fn disagreement(s: Sample, mv: (i32, i32)) -> int {
    magnitude(s.pts2.0 - s.pts1.0 - mv.1) + magnitude(s.pts2.1 - s.pts1.1 - mv.0)
}

/// How far a sample's motion may be from that of a `bw` by `bh` block.
pub open spec fn agreement_threshold(bw: int, bh: int) -> int {
    bits::spec_clamp(
        if bw > bh {
            bw
        } else {
            bh
        },
        16,
        112,
    )
}

/// Whether a sample's disagreement is computed within 32 bits.
pub open spec fn disagreement_fits(s: Sample, mv: (i32, i32)) -> bool {
    &&& adst::fits_i32(s.pts2.0 - s.pts1.0)
    &&& adst::fits_i32(s.pts2.1 - s.pts1.1)
    &&& -0x8000_0000 < s.pts2.0 - s.pts1.0 - mv.1 <= 0x7fff_ffff
    &&& -0x8000_0000 < s.pts2.1 - s.pts1.1 - mv.0 <= 0x7fff_ffff
    &&& disagreement(s, mv) <= 0x7fff_ffff
}

/// The samples whose motion agrees with the block's, in order; where none
/// does, the first sample.
pub open spec fn selected(mv: (i32, i32), samples: Seq<Sample>, bw: int, bh: int) -> Seq<Sample> {
    let kept = samples.filter(|s: Sample| disagreement(s, mv) <= agreement_threshold(bw, bh));
    if kept.len() == 0 {
        seq![samples[0]]
    } else {
        kept
    }
}

/// The magnitude of an integer.
fn abs_i32(x: i32) -> (y: i32)
    requires
        x > -0x8000_0000,
    ensures
        y == magnitude(x as int),
{
    if x < 0 {
        -x
    } else {
        x
    }
}

/// Keeps only the samples whose own motion agrees with the block's coded
/// vector `mv`, which is `(row, column)`, and never fewer than one.
pub fn select_samples(mv: (i32, i32), samples: &mut Vec<Sample>, bw: i32, bh: i32)
    requires
        old(samples).len() > 0,
        forall|i: int|
            0 <= i < old(samples).len() ==> disagreement_fits(#[trigger] old(samples)@[i], mv),
    ensures
        final(samples)@ == selected(mv, old(samples)@, bw as int, bh as int),
        final(samples).len() > 0,
{
    let ghost all = samples@;
    let larger: i32 = if bw > bh {
        bw
    } else {
        bh
    };
    let threshold: i32 = if larger < 16 {
        16
    } else if larger > 112 {
        112
    } else {
        larger
    };
    let ghost agrees = |s: Sample| disagreement(s, mv) <= agreement_threshold(bw as int, bh as int);
    let mut kept: Vec<Sample> = Vec::new();
    assert(all.take(0).filter(agrees) =~= Seq::<Sample>::empty()) by {
        reveal(Seq::filter);
    }
    for i in 0..samples.len()
        invariant
            samples@ == all,
            all.len() > 0,
            forall|i: int| 0 <= i < all.len() ==> disagreement_fits(#[trigger] all[i], mv),
            threshold == agreement_threshold(bw as int, bh as int),
            agrees == (|s: Sample|
                disagreement(s, mv) <= agreement_threshold(bw as int, bh as int)),
            kept@ == all.take(i as int).filter(agrees),
    {
        let s: Sample = samples[i];
        assert(disagreement_fits(all[i as int], mv));
        let dx: i32 = s.pts2.0 - s.pts1.0 - mv.1;
        let dy: i32 = s.pts2.1 - s.pts1.1 - mv.0;
        proof {
            assert(all.take(i + 1).drop_last() =~= all.take(i as int));
            assert(all.take(i + 1).last() == s);
            reveal(Seq::filter);
        }
        if abs_i32(dx) + abs_i32(dy) <= threshold {
            kept.push(s);
        }
    }
    assert(all.take(all.len() as int) =~= all);
    if kept.len() == 0 {
        kept.push(samples[0]);
        assert(kept@ =~= seq![all[0]]);
    }
    *samples = kept;
}

/// Selecting again keeps every sample, as long as one agreed at all.
pub proof fn selecting_twice_changes_nothing(mv: (i32, i32), samples: Seq<Sample>, bw: int, bh: int)
    requires
        exists|i: int|
            0 <= i < samples.len() && disagreement(#[trigger] samples[i], mv)
                <= agreement_threshold(bw, bh),
    ensures
        selected(mv, selected(mv, samples, bw, bh), bw, bh) == selected(mv, samples, bw, bh),
{
    let agrees = |s: Sample| disagreement(s, mv) <= agreement_threshold(bw, bh);
    let kept = samples.filter(agrees);
    let i = choose|i: int|
        0 <= i < samples.len() && disagreement(#[trigger] samples[i], mv) <= agreement_threshold(
            bw,
            bh,
        );
    samples.lemma_filter_contains(agrees, i);
    assert(kept.contains(samples[i]));
    assert forall|k: int| 0 <= k < kept.len() implies agrees(#[trigger] kept[k]) by {
        samples.lemma_filter_pred(agrees, k);
    }
    lemma_filter_keeps_all(kept, agrees);
}

/// A filter that every item passes changes nothing.
proof fn lemma_filter_keeps_all(s: Seq<Sample>, pred: spec_fn(Sample) -> bool)
    requires
        forall|k: int| 0 <= k < s.len() ==> pred(#[trigger] s[k]),
    ensures
        s.filter(pred) == s,
    decreases s.len(),
{
    reveal(Seq::filter);
    if s.len() > 0 {
        let front = s.drop_last();
        assert forall|k: int| 0 <= k < front.len() implies pred(#[trigger] front[k]) by {
            assert(pred(s[k]));
        }
        lemma_filter_keeps_all(front, pred);
        assert(pred(s[s.len() - 1]));
        assert(front.push(s.last()) =~= s);
    } else {
        assert(s.filter(pred) =~= s);
    }
}

/// A neighbour's centre lies half its size from the edge it touches, less one sample, on the
/// side its sign says: the two sides lie around the edge, a whole size apart.
pub proof fn centres_lie_half_a_size_away(offset: int, size: int)
    requires
        size >= 0,
        size % 2 == 0,
    ensures
        2 * (centre(offset, 1, size) + 1 - 4 * offset) == size,
        2 * (4 * offset - centre(offset, -1, size) - 1) == size,
        centre(offset + 1, 1, size) == centre(offset, 1, size) + 4,
{
    assert((-1) * size == -size && 1 * size == size);
}

/// Samples are kept in order exactly where they move like the block, to within the larger
/// of its sides in eighths of a sample, but at least 16 and at most 112; and if none does,
/// the first one is.
pub proof fn samples_are_kept_by_their_motion(
    mv: (i32, i32),
    samples: Seq<Sample>,
    bw: int,
    bh: int,
    i: int,
)
    requires
        0 <= i < samples.len(),
    ensures
        ({
            let s = samples[i];
            let (x, y) = (s.pts2.0 - s.pts1.0 - mv.1, s.pts2.1 - s.pts1.1 - mv.0);
            let off = (if x < 0 { -x } else { x }) + (if y < 0 { -y } else { y });
            let most = agreement_threshold(bw, bh);
            let kept = selected(mv, samples, bw, bh);
            &&& off <= most ==> kept.contains(s)
            &&& off > most && kept.contains(s) ==> kept == seq![samples[0]]
            &&& 16 <= most <= 112
            &&& bw <= 16 && bh <= 16 ==> most == 16
            &&& (bw >= 112 || bh >= 112) ==> most == 112
            &&& bh <= bw && 16 <= bw <= 112 ==> most == bw
            &&& bw <= bh && 16 <= bh <= 112 ==> most == bh
        }),
{
    let agrees = |s: Sample| disagreement(s, mv) <= agreement_threshold(bw, bh);
    let all = samples.filter(agrees);
    let s = samples[i];
    if disagreement(s, mv) <= agreement_threshold(bw, bh) {
        assert(agrees(s));
        samples.lemma_filter_contains(agrees, i);
    } else if all.contains(s) {
        let k = choose|k: int| 0 <= k < all.len() && all[k] == s;
        samples.lemma_filter_pred(agrees, k);
    }
}

} // verus!
