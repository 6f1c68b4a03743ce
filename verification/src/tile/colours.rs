//! The base colours of a palette.
use crate::bits;
use crate::tile::context;
use crate::tile::ops;
use crate::tile::ops::{bit, note, put_literal, Note, Op};
use crate::tile::palette;
use crate::tile::palette::ceil_log2;
use vstd::prelude::*;

verus! {

/// The powers of two up to a byte's.
pub const POWERS: [u32; 9] = [1, 2, 4, 8, 16, 32, 64, 128, 256];

/// The bits of one of `n` values: the low ones, of which there are fewer than
/// a power of two lacks, take one bit less than the others.
pub open spec fn uniform_ops(value: int, n: int) -> Seq<Op> {
    let l = palette::spec_ceil_log2(n);
    let m = bits::pow2(l as nat) - n;
    if value < m {
        seq![ops::literal(value, l - 1)]
    } else {
        seq![ops::literal((value + m) / 2, l - 1), ops::literal((value + m) % 2, 1)]
    }
}

/// What the two parts of a uniform value are read as.
pub open spec fn read_uniform(first: int, second: int, n: int) -> int {
    let m = bits::pow2(palette::spec_ceil_log2(n) as nat) - n;
    if first < m {
        first
    } else {
        2 * first - m + second
    }
}

/// A uniform value reads back from its bits, which fit their widths.
pub proof fn uniform_values_read_back(value: int, n: int)
    requires
        2 <= n,
        0 <= value < n,
    ensures
        ({
            let l = palette::spec_ceil_log2(n);
            let m = bits::pow2(l as nat) - n;
            &&& 1 <= l
            &&& 0 <= m
            &&& value < m ==> value < bits::pow2((l - 1) as nat) && read_uniform(value, 0, n)
                == value
            &&& value >= m ==> (value + m) / 2 < bits::pow2((l - 1) as nat) && read_uniform(
                (value + m) / 2,
                (value + m) % 2,
                n,
            ) == value
        }),
{
    palette::ceil_log2_is_tight(n);
    let l = palette::spec_ceil_log2(n);
    assert(bits::pow2(l as nat) == 2 * bits::pow2((l - 1) as nat));
}

/// Writes one of `n` values.
pub fn write_uniform(out: &mut Vec<Op>, value: usize, n: usize)
    requires
        2 <= n <= 256,
        value < n,
    ensures
        final(out)@ == old(out)@ + uniform_ops(value as int, n as int),
{
    proof {
        uniform_values_read_back(value as int, n as int);
        palette::ceil_log2_is_tight(n as int);
        bits::lemma_pow2_values();
        if palette::spec_ceil_log2(n as int) > 8 {
            bits::lemma_pow2_monotonic(8, (palette::spec_ceil_log2(n as int) - 1) as nat);
        }
    }
    let l: u32 = ceil_log2(n as u32);
    let m: usize = POWERS[l as usize] as usize - n;
    if value < m {
        put_literal(out, value as u32, l - 1);
    } else {
        put_literal(out, ((value + m) / 2) as u32, l - 1);
        put_literal(out, ((value + m) % 2) as u32, 1);
    }
    proof {
        assert(out@ =~= old(out)@ + uniform_ops(value as int, n as int));
    }
}

/// The colours that the first `count` entries of the cache supply, until the
/// palette is full.
pub open spec fn supplied(colors: Seq<u16>, cache: Seq<u16>, count: int) -> Seq<u16>
    decreases count,
{
    if count <= 0 {
        Seq::empty()
    } else {
        let before = supplied(colors, cache, count - 1);
        if before.len() < colors.len() && colors.contains(cache[count - 1]) {
            before.push(cache[count - 1])
        } else {
            before
        }
    }
}

/// One flag for each of the first `count` entries of the cache that come
/// before the palette is full: whether the palette takes it. Each that is
/// taken leaves a mark where `marks` holds.
pub open spec fn flag_ops(
    colors: Seq<u16>,
    cache: Seq<u16>,
    count: int,
    marks: bool,
) -> Seq<Op>
    decreases count,
{
    if count <= 0 {
        Seq::empty()
    } else {
        let before = flag_ops(colors, cache, count - 1, marks);
        if supplied(colors, cache, count - 1).len() >= colors.len() {
            before
        } else {
            let take = colors.contains(cache[count - 1]);
            let flagged = before.push(ops::literal(ops::flag(take), 1));
            if take && marks {
                flagged.push(Op::Note(Note::PaletteUvCache))
            } else {
                flagged
            }
        }
    }
}

/// The colours among the first `count` that the cache does not supply.
pub open spec fn transmitted(colors: Seq<u16>, cached: Seq<u16>, count: int) -> Seq<u16>
    decreases count,
{
    if count <= 0 {
        Seq::empty()
    } else {
        let before = transmitted(colors, cached, count - 1);
        if cached.contains(colors[count - 1]) {
            before
        } else {
            before.push(colors[count - 1])
        }
    }
}

/// How many bits step `j` between transmitted colours takes: it shrinks with
/// the range that is left below `top`.
pub open spec fn step_bits(t: Seq<u16>, top: int, extra: int, j: int) -> int
    decreases j,
{
    if j <= 0 {
        5 + extra
    } else {
        context::min(step_bits(t, top, extra, j - 1), palette::spec_ceil_log2(top - t[j]))
    }
}

/// The step between two transmitted colours, as it is coded.
pub open spec fn step(t: Seq<u16>, bias: int, j: int) -> int {
    t[j + 1] - t[j] - bias
}

/// Whether every step fits its bits.
pub open spec fn fits(t: Seq<u16>, top: int, bias: int, extra: int) -> bool {
    forall|j: int|
        0 <= j < t.len() - 1 ==> #[trigger] step(t, bias, j) < bits::pow2(
            step_bits(t, top, extra, j) as nat,
        )
}

/// The least number of extra bits under which every step fits.
pub open spec fn extra_of(t: Seq<u16>, top: int, bias: int) -> int {
    if fits(t, top, bias, 0) {
        0
    } else if fits(t, top, bias, 1) {
        1
    } else if fits(t, top, bias, 2) {
        2
    } else {
        3
    }
}

/// The steps between transmitted colours.
pub open spec fn step_ops(t: Seq<u16>, top: int, bias: int, extra: int) -> Seq<Op> {
    Seq::new(
        (t.len() - 1) as nat,
        |j: int| ops::literal(step(t, bias, j), step_bits(t, top, extra, j)),
    )
}

/// The transmitted colours: the first raw, then how many extra bits, then the
/// steps.
pub open spec fn transmitted_ops(t: Seq<u16>, top: int, bias: int) -> Seq<Op> {
    if t.len() == 0 {
        Seq::empty()
    } else if t.len() == 1 {
        seq![ops::literal(t[0] as int, 8)]
    } else {
        let extra = extra_of(t, top, bias);
        seq![ops::literal(t[0] as int, 8), ops::literal(extra, 2)] + step_ops(t, top, bias, extra)
    }
}

/// A plane's colours against the cache.
pub open spec fn plane_ops(
    colors: Seq<u16>,
    cache: Seq<u16>,
    top: int,
    bias: int,
    marks: bool,
) -> Seq<Op> {
    let cached = supplied(colors, cache, cache.len() as int);
    flag_ops(colors, cache, cache.len() as int, marks) + transmitted_ops(
        transmitted(colors, cached, colors.len() as int),
        top,
        bias,
    )
}

/// The symbols of luma's colours.
pub open spec fn colors_y_ops(colors: Seq<u16>, cache: Seq<u16>) -> Seq<Op> {
    plane_ops(colors, cache, 255, 1, false)
}

/// The symbols of chroma's: U's like luma's, with the range one wider and the
/// steps unbiased, and V's raw.
pub open spec fn colors_uv_ops(u: Seq<u16>, v: Seq<u16>, cache: Seq<u16>) -> Seq<Op> {
    plane_ops(u, cache, 256, 0, true) + seq![ops::literal(0, 1)] + Seq::new(
        v.len(),
        |i: int| ops::literal(v[i] as int, 8),
    )
}

/// Whether colours are distinct bytes, in order.
pub open spec fn are_bytes(colors: Seq<u16>) -> bool {
    &&& palette::ascends(colors)
    &&& forall|i: int| 0 <= i < colors.len() ==> #[trigger] colors[i] <= 255
}

pub proof fn lemma_transmitted(colors: Seq<u16>, cached: Seq<u16>, count: int)
    requires
        are_bytes(colors),
        0 <= count <= colors.len(),
    ensures
        are_bytes(transmitted(colors, cached, count)),
        forall|i: int|
            0 <= i < transmitted(colors, cached, count).len() ==> count > 0 && #[trigger] transmitted(
                colors,
                cached,
                count,
            )[i] <= colors[count - 1],
        transmitted(colors, cached, count).len() <= count,
    decreases count,
{
    if count > 0 {
        lemma_transmitted(colors, cached, count - 1);
        let before = transmitted(colors, cached, count - 1);
        let after = transmitted(colors, cached, count);
        if !cached.contains(colors[count - 1]) {
            assert forall|i: int, j: int| 0 <= i < j < after.len() implies after[i] < after[j] by {
                if j == before.len() {
                    assert(after[i] == before[i]);
                    assert(colors[count - 2] < colors[count - 1]);
                }
            }
        } else {
            assert forall|i: int| 0 <= i < after.len() implies #[trigger] after[i] <= colors[count
                - 1] by {
                assert(before[i] <= colors[count - 2]);
                assert(colors[count - 2] < colors[count - 1]);
            }
        }
    }
}

proof fn lemma_step_bits(t: Seq<u16>, top: int, extra: int, j: int)
    requires
        are_bytes(t),
        255 <= top,
        0 <= extra <= 3,
        0 <= j < t.len(),
    ensures
        0 <= step_bits(t, top, extra, j) <= 5 + extra,
    decreases j,
{
    if j > 0 {
        lemma_step_bits(t, top, extra, j - 1);
        assert(t[j] <= 255);
        if top - t[j] >= 1 {
            palette::ceil_log2_is_tight(top - t[j]);
        }
    }
}

proof fn lemma_last_steps_fit(t: Seq<u16>, top: int, bias: int, j: int)
    requires
        are_bytes(t),
        top + bias == 256,
        bias == 0 || bias == 1,
        0 <= j < t.len() - 1,
    ensures
        top - t[j] >= 1,
        step_bits(t, top, 3, j) == 8 || step_bits(t, top, 3, j) >= palette::spec_ceil_log2(
            top - t[j],
        ),
    decreases j,
{
    assert(t[j] < t[j + 1]);
    assert(t[j + 1] <= 255);
    if j > 0 {
        lemma_last_steps_fit(t, top, bias, j - 1);
        assert(t[j - 1] < t[j]);
        palette::ceil_log2_grows(top - t[j], top - t[j - 1]);
    }
}

/// With three extra bits every step between ascending bytes fits, so the
/// number of extra bits that is coded always leaves every step its width.
pub proof fn palette_steps_fit(t: Seq<u16>, top: int, bias: int)
    requires
        are_bytes(t),
        top + bias == 256,
        bias == 0 || bias == 1,
    ensures
        fits(t, top, bias, extra_of(t, top, bias)),
        0 <= extra_of(t, top, bias) <= 3,
{
    assert(fits(t, top, bias, 3)) by {
        assert forall|j: int| 0 <= j < t.len() - 1 implies #[trigger] step(t, bias, j)
            < bits::pow2(step_bits(t, top, 3, j) as nat) by {
            lemma_last_steps_fit(t, top, bias, j);
            assert(t[j + 1] <= 255);
            bits::lemma_pow2_values();
            palette::ceil_log2_is_tight(top - t[j]);
            lemma_step_bits(t, top, 3, j);
            if step_bits(t, top, 3, j) != 8 {
                bits::lemma_pow2_monotonic(
                    palette::spec_ceil_log2(top - t[j]) as nat,
                    step_bits(t, top, 3, j) as nat,
                );
            }
        }
    }
}

fn holds(list: &[u16], v: u16) -> (found: bool)
    ensures
        found == list@.contains(v),
{
    let mut i: usize = 0;
    while i < list.len()
        invariant
            i <= list.len(),
            forall|k: int| 0 <= k < i ==> list@[k] != v,
        decreases list.len() - i,
    {
        if list[i] == v {
            assert(list@[i as int] == v);
            return true;
        }
        i += 1;
    }
    false
}

fn next_bits(t: &[u16], top: u32, bits: u32, j: usize) -> (next: u32)
    requires
        255 <= top <= 256,
        are_bytes(t@),
        0 < j < t.len(),
        bits <= 8,
    ensures
        next == context::min(bits as int, palette::spec_ceil_log2(top - t@[j as int])),
        next <= 8,
{
    assert(t@[j as int] <= 255);
    let width: u32 = ceil_log2(top - t[j] as u32);
    if bits <= width {
        bits
    } else {
        width
    }
}

fn all_fit(t: &[u16], top: u32, bias: u32, extra: u32) -> (r: bool)
    requires
        are_bytes(t@),
        top + bias == 256,
        bias <= 1,
        extra <= 3,
        t.len() >= 1,
    ensures
        r == fits(t@, top as int, bias as int, extra as int),
{
    let mut bits: u32 = 5 + extra;
    let mut j: usize = 0;
    while j < t.len() - 1
        invariant
            are_bytes(t@),
            top + bias == 256,
            bias <= 1,
            extra <= 3,
            t.len() >= 1,
            j <= t.len() - 1,
            bits <= 8,
            bits == step_bits(t@, top as int, extra as int, j as int),
            forall|k: int|
                0 <= k < j ==> #[trigger] step(t@, bias as int, k) < bits::pow2(
                    step_bits(t@, top as int, extra as int, k) as nat,
                ),
        decreases t.len() - j,
    {
        assert(t@[j as int] < t@[j + 1] <= 255);
        proof {
            bits::lemma_pow2_values();
        }
        let delta: u32 = (t[j + 1] - t[j]) as u32 - bias;
        assert(delta == step(t@, bias as int, j as int));
        if delta >= POWERS[bits as usize] {
            return false;
        }
        bits = next_bits(t, top, bits, j + 1);
        j += 1;
    }
    true
}

fn write_transmitted(out: &mut Vec<Op>, t: &[u16], top: u32, bias: u32)
    requires
        are_bytes(t@),
        top + bias == 256,
        bias <= 1,
    ensures
        final(out)@ == old(out)@ + transmitted_ops(t@, top as int, bias as int),
{
    if t.len() == 0 {
        proof {
            assert(out@ =~= old(out)@ + transmitted_ops(t@, top as int, bias as int));
        }
        return ;
    }
    put_literal(out, t[0] as u32, 8);
    if t.len() == 1 {
        proof {
            assert(out@ =~= old(out)@ + transmitted_ops(t@, top as int, bias as int));
        }
        return ;
    }
    let extra: u32 = if all_fit(t, top, bias, 0) {
        0
    } else if all_fit(t, top, bias, 1) {
        1
    } else if all_fit(t, top, bias, 2) {
        2
    } else {
        3
    };
    put_literal(out, extra, 2);
    let ghost head = seq![
        ops::literal(t@[0] as int, 8),
        ops::literal(extra as int, 2),
    ];
    let ghost steps = step_ops(t@, top as int, bias as int, extra as int);
    let mut bits: u32 = 5 + extra;
    let mut j: usize = 0;
    proof {
        assert(out@ =~= old(out)@ + (head + steps.take(0)));
    }
    while j < t.len() - 1
        invariant
            are_bytes(t@),
            top + bias == 256,
            bias <= 1,
            extra <= 3,
            t.len() >= 1,
            j <= t.len() - 1,
            bits <= 8,
            bits == step_bits(t@, top as int, extra as int, j as int),
            steps == step_ops(t@, top as int, bias as int, extra as int),
            out@ == old(out)@ + (head + steps.take(j as int)),
        decreases t.len() - j,
    {
        assert(t@[j as int] < t@[j + 1] <= 255);
        let delta: u32 = (t[j + 1] - t[j]) as u32 - bias;
        put_literal(out, delta, bits);
        proof {
            assert(steps[j as int] == ops::literal(delta as int, bits as int));
            assert(steps.take(j + 1) =~= steps.take(j as int).push(steps[j as int]));
            assert(out@ =~= old(out)@ + (head + steps.take(j + 1)));
        }
        bits = next_bits(t, top, bits, j + 1);
        j += 1;
    }
    proof {
        assert(steps.take(j as int) =~= steps);
    }
}

fn write_plane(
    out: &mut Vec<Op>,
    colors: &[u16],
    cache: &[u16],
    top: u32,
    bias: u32,
    marks: bool,
)
    requires
        are_bytes(colors@),
        top + bias == 256,
        bias <= 1,
    ensures
        final(out)@ == old(out)@ + plane_ops(
            colors@,
            cache@,
            top as int,
            bias as int,
            marks,
        ),
{
    let mut cached: Vec<u16> = Vec::new();
    let mut i: usize = 0;
    proof {
        assert(out@ =~= old(out)@ + flag_ops(colors@, cache@, 0, marks));
    }
    while i < cache.len()
        invariant
            i <= cache.len(),
            cached@ == supplied(colors@, cache@, i as int),
            out@ == old(out)@ + flag_ops(colors@, cache@, i as int, marks),
        decreases cache.len() - i,
    {
        if cached.len() < colors.len() {
            let c: u16 = cache[i];
            let take: bool = holds(colors, c);
            put_literal(out, bit(take) as u32, 1);
            if take {
                if marks {
                    note(out, Note::PaletteUvCache);
                }
                cached.push(c);
            }
        }
        i += 1;
        proof {
            assert(out@ =~= old(out)@ + flag_ops(colors@, cache@, i as int, marks));
        }
    }
    let mut sent: Vec<u16> = Vec::new();
    let mut k: usize = 0;
    while k < colors.len()
        invariant
            k <= colors.len(),
            sent@ == transmitted(colors@, cached@, k as int),
        decreases colors.len() - k,
    {
        if !holds(&cached, colors[k]) {
            sent.push(colors[k]);
        }
        k += 1;
    }
    proof {
        lemma_transmitted(colors@, cached@, colors@.len() as int);
    }
    write_transmitted(out, &sent, top, bias);
    proof {
        assert(out@ =~= old(out)@ + plane_ops(
            colors@,
            cache@,
            top as int,
            bias as int,
            marks,
        ));
    }
}

/// Writes luma's base colours: one flag per colour the neighbours offer until
/// the palette is full, then the colours they did not supply, the first raw
/// and the rest as steps of a width that shrinks with the range left.
pub fn write_palette_colors_y(out: &mut Vec<Op>, colors: &[u16], cache: &[u16])
    requires
        are_bytes(colors@),
    ensures
        final(out)@ == old(out)@ + colors_y_ops(colors@, cache@),
{
    write_plane(out, colors, cache, 255, 1, false);
}

/// Writes chroma's base colours: U's like luma's, V's raw.
pub fn write_palette_colors_uv(
    out: &mut Vec<Op>,
    u_colors: &[u16],
    v_colors: &[u16],
    cache: &[u16],
)
    requires
        are_bytes(u_colors@),
    ensures
        final(out)@ == old(out)@ + colors_uv_ops(u_colors@, v_colors@, cache@),
{
    write_plane(out, u_colors, cache, 256, 0, true);
    put_literal(out, 0, 1);
    let ghost head = plane_ops(u_colors@, cache@, 256, 0, true) + seq![ops::literal(0, 1)];
    let ghost raw = Seq::new(v_colors@.len(), |i: int| ops::literal(v_colors@[i] as int, 8));
    let mut i: usize = 0;
    proof {
        assert(out@ =~= old(out)@ + (head + raw.take(0)));
    }
    while i < v_colors.len()
        invariant
            i <= v_colors.len(),
            raw == Seq::new(v_colors@.len(), |i: int| ops::literal(v_colors@[i] as int, 8)),
            out@ == old(out)@ + (head + raw.take(i as int)),
        decreases v_colors.len() - i,
    {
        put_literal(out, v_colors[i] as u32, 8);
        proof {
            assert(raw.take(i + 1) =~= raw.take(i as int).push(raw[i as int]));
            assert(out@ =~= old(out)@ + (head + raw.take(i + 1)));
        }
        i += 1;
    }
    proof {
        assert(raw.take(i as int) =~= raw);
    }
}

} // verus!
