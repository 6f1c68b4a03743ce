//! A block's palettes: their base colours, and the map of colour indices.
use crate::bits;
use crate::tile::neighbours;
use crate::tile::neighbours::{Cell, Neighbours};
use crate::tile::ops;
use crate::tile::ops::bit;
use vstd::prelude::*;

verus! {

/// How many bits it takes to tell `n` values apart.
pub open spec fn spec_ceil_log2(n: int) -> int
    decreases n,
{
    if n < 2 {
        0
    } else {
        1 + spec_ceil_log2((n + 1) / 2)
    }
}

/// That many bits suffice, and fewer do not.
pub proof fn ceil_log2_is_tight(n: int)
    requires
        1 <= n,
    ensures
        0 <= spec_ceil_log2(n),
        n <= bits::pow2(spec_ceil_log2(n) as nat),
        n >= 2 ==> bits::pow2((spec_ceil_log2(n) - 1) as nat) < n,
    decreases n,
{
    if n >= 2 {
        let half = (n + 1) / 2;
        ceil_log2_is_tight(half);
        let l = spec_ceil_log2(half);
        assert(bits::pow2((l + 1) as nat) == 2 * bits::pow2(l as nat));
        if half >= 2 {
            assert(bits::pow2(l as nat) == 2 * bits::pow2((l - 1) as nat));
        } else {
            assert(half == 1);
        }
    }
}

/// More values never take fewer bits.
pub proof fn ceil_log2_grows(n: int, m: int)
    requires
        n <= m,
    ensures
        spec_ceil_log2(n) <= spec_ceil_log2(m),
    decreases m,
{
    if n >= 2 {
        ceil_log2_grows((n + 1) / 2, (m + 1) / 2);
    } else if m >= 2 {
        ceil_log2_is_tight(m);
    }
}

/// How many bits it takes to tell `n` values apart.
pub fn ceil_log2(n: u32) -> (bits: u32)
    ensures
        bits == spec_ceil_log2(n as int),
        bits <= 32,
    decreases n,
{
    if n < 2 {
        0
    } else {
        proof {
            ceil_log2_is_tight(n as int);
            bits::lemma_pow2_values();
            if spec_ceil_log2(n as int) > 32 {
                bits::lemma_pow2_monotonic(32, (spec_ceil_log2(n as int) - 1) as nat);
            }
            assert((n as int + 1) / 2 == n / 2 + n % 2);
        }
        1 + ceil_log2(n / 2 + n % 2)
    }
}

/// Colours without a repetition of the one before.
pub open spec fn pushed(cache: Seq<u16>, v: u16) -> Seq<u16> {
    if cache.len() > 0 && cache.last() == v {
        cache
    } else {
        cache.push(v)
    }
}

/// How much of a list is left from a place on.
pub open spec fn rest(s: Seq<u16>, i: int) -> int {
    if i < s.len() {
        s.len() - i
    } else {
        0
    }
}

/// Two lists of colours merged onto a third, from the given places on: always
/// the lesser of the two next, one of two equals, and none twice in a row.
pub open spec fn merged(
    a: Seq<u16>,
    l: Seq<u16>,
    ai: int,
    li: int,
    cache: Seq<u16>,
) -> Seq<u16>
    decreases rest(a, ai) + rest(l, li),
{
    if 0 <= ai < a.len() && 0 <= li < l.len() {
        if l[li] < a[ai] {
            merged(a, l, ai, li + 1, pushed(cache, l[li]))
        } else if l[li] == a[ai] {
            merged(a, l, ai + 1, li + 1, pushed(cache, a[ai]))
        } else {
            merged(a, l, ai + 1, li, pushed(cache, a[ai]))
        }
    } else if 0 <= ai < a.len() {
        merged(a, l, ai + 1, li, pushed(cache, a[ai]))
    } else if 0 <= li < l.len() {
        merged(a, l, ai, li + 1, pushed(cache, l[li]))
    } else {
        cache
    }
}

/// Whether a list of colours ascends.
pub open spec fn ascends(s: Seq<u16>) -> bool {
    forall|i: int, j: int| 0 <= i < j < s.len() ==> s[i] < s[j]
}

/// The base colours of a palette.
pub open spec fn palette_of(size: u8, colors: [u16; 8]) -> Seq<u16> {
    colors@.take(size as int)
}

/// The luma colours the unit above offers: none from above the superblock.
pub open spec fn above_colors(b: neighbours::Bands, r: int, c: int) -> Seq<u16> {
    if r % 16 != 0 {
        palette_of(b.above[c].palette_size, b.above[c].palette_colors)
    } else {
        Seq::empty()
    }
}

/// The luma colours the unit to the left offers.
pub open spec fn left_colors(b: neighbours::Bands, r: int, c: int) -> Seq<u16> {
    if c > 0 {
        palette_of(b.left[r].palette_size, b.left[r].palette_colors)
    } else {
        Seq::empty()
    }
}

/// The chroma colours the unit above offers.
pub open spec fn above_uv_colors(b: neighbours::Bands, r: int, c: int) -> Seq<u16> {
    if r % 16 != 0 {
        palette_of(b.above[c].palette_uv_size, b.above[c].palette_uv_colors)
    } else {
        Seq::empty()
    }
}

/// The chroma colours the unit to the left offers.
pub open spec fn left_uv_colors(b: neighbours::Bands, r: int, c: int) -> Seq<u16> {
    if c > 0 {
        palette_of(b.left[r].palette_uv_size, b.left[r].palette_uv_colors)
    } else {
        Seq::empty()
    }
}

/// The luma colour cache of a block.
pub open spec fn spec_cache(b: neighbours::Bands, r: int, c: int) -> Seq<u16> {
    merged(above_colors(b, r, c), left_colors(b, r, c), 0, 0, Seq::empty())
}

/// Its chroma colour cache.
pub open spec fn spec_uv_cache(b: neighbours::Bands, r: int, c: int) -> Seq<u16> {
    merged(above_uv_colors(b, r, c), left_uv_colors(b, r, c), 0, 0, Seq::empty())
}

/// How many of a block's neighbours have a luma palette.
pub open spec fn spec_palette_ctx(b: neighbours::Bands, r: int, c: int) -> int {
    ops::flag(r > 0 && b.above[c].palette_size > 0) + ops::flag(
        c > 0 && b.left[r].palette_size > 0,
    )
}

/// Two ascending lists merge into one ascending list of exactly their
/// colours.
pub proof fn merged_colours_ascend(
    a: Seq<u16>,
    l: Seq<u16>,
    ai: int,
    li: int,
    cache: Seq<u16>,
)
    requires
        ascends(a),
        ascends(l),
        ascends(cache),
        0 <= ai <= a.len(),
        0 <= li <= l.len(),
        forall|i: int, k: int| 0 <= i < cache.len() && ai <= k < a.len() ==> cache[i] < a[k],
        forall|i: int, k: int| 0 <= i < cache.len() && li <= k < l.len() ==> cache[i] < l[k],
    ensures
        ascends(merged(a, l, ai, li, cache)),
        forall|v: u16|
            merged(a, l, ai, li, cache).contains(v) <==> cache.contains(v) || a.skip(ai).contains(v)
                || l.skip(li).contains(v),
    decreases a.len() - ai + l.len() - li,
{
    let all = merged(a, l, ai, li, cache);
    if ai < a.len() && (li >= l.len() || a[ai] <= l[li]) {
        let v = a[ai];
        let next = pushed(cache, v);
        assert(next == cache.push(v));
        let lj = if li < l.len() && l[li] == v {
            li + 1
        } else {
            li
        };
        merged_colours_ascend(a, l, ai + 1, lj, next);
        assert forall|w: u16| all.contains(w) <==> cache.contains(w) || a.skip(ai).contains(w)
            || l.skip(li).contains(w) by {
            lemma_skip_contains(a, ai, w);
            if li < l.len() {
                lemma_skip_contains(l, li, w);
            }
            lemma_push_contains(cache, v, w);
        }
    } else if li < l.len() {
        let v = l[li];
        let next = pushed(cache, v);
        assert(next == cache.push(v));
        merged_colours_ascend(a, l, ai, li + 1, next);
        assert forall|w: u16| all.contains(w) <==> cache.contains(w) || a.skip(ai).contains(w)
            || l.skip(li).contains(w) by {
            lemma_skip_contains(l, li, w);
            lemma_push_contains(cache, v, w);
        }
    }
}

proof fn lemma_skip_contains(s: Seq<u16>, i: int, w: u16)
    requires
        0 <= i < s.len(),
    ensures
        s.skip(i).contains(w) <==> s[i] == w || s.skip(i + 1).contains(w),
{
    let from = s.skip(i);
    let after = s.skip(i + 1);
    if from.contains(w) {
        let k = choose|k: int| 0 <= k < from.len() && from[k] == w;
        if k > 0 {
            assert(after[k - 1] == w);
        }
    }
    if s[i] == w {
        assert(from[0] == w);
    }
    if after.contains(w) {
        let k = choose|k: int| 0 <= k < after.len() && after[k] == w;
        assert(from[k + 1] == w);
    }
}

proof fn lemma_push_contains(s: Seq<u16>, v: u16, w: u16)
    ensures
        s.push(v).contains(w) <==> s.contains(w) || v == w,
{
    if s.contains(w) {
        let k = choose|k: int| 0 <= k < s.len() && s[k] == w;
        assert(s.push(v)[k] == w);
    }
    if v == w {
        assert(s.push(v)[s.len() as int] == w);
    }
}

fn push_dedup(cache: &mut Vec<u16>, v: u16)
    ensures
        final(cache)@ == pushed(old(cache)@, v),
{
    let n: usize = cache.len();
    if n > 0 {
        if cache[n - 1] == v {
            return ;
        }
    }
    cache.push(v);
}

fn merge(a: &[u16; 8], above_n: usize, l: &[u16; 8], left_n: usize) -> (cache: Vec<u16>)
    requires
        above_n <= 8,
        left_n <= 8,
    ensures
        cache@ == merged(
            a@.take(above_n as int),
            l@.take(left_n as int),
            0,
            0,
            Seq::empty(),
        ),
{
    let mut cache: Vec<u16> = Vec::new();
    let ghost sa = a@.take(above_n as int);
    let ghost sl = l@.take(left_n as int);
    let mut ai: usize = 0;
    let mut li: usize = 0;
    while ai < above_n || li < left_n
        invariant
            ai <= above_n <= 8,
            li <= left_n <= 8,
            sa == a@.take(above_n as int),
            sl == l@.take(left_n as int),
            merged(sa, sl, ai as int, li as int, cache@) == merged(sa, sl, 0, 0, Seq::empty()),
        decreases above_n - ai + left_n - li,
    {
        proof {
            if ai < above_n {
                assert(sa[ai as int] == a@[ai as int]);
            }
            if li < left_n {
                assert(sl[li as int] == l@[li as int]);
            }
        }
        if ai < above_n && (li >= left_n || a[ai] <= l[li]) {
            let v: u16 = a[ai];
            push_dedup(&mut cache, v);
            ai += 1;
            if li < left_n && l[li] == v {
                li += 1;
            }
        } else {
            push_dedup(&mut cache, l[li]);
            li += 1;
        }
    }
    cache
}

impl Neighbours {
    /// How many of a block's two neighbours took a luma palette, and the
    /// ascending colours they offer, each once.
    pub fn palette_ctx_and_cache(&self, mi: (usize, usize)) -> (r: (usize, Vec<u16>))
        requires
            neighbours::is_bands(self@),
            mi.0 < self@.left.len(),
            mi.1 < self@.above.len(),
        ensures
            r.0 == spec_palette_ctx(self@, mi.0 as int, mi.1 as int),
            r.1@ == spec_cache(self@, mi.0 as int, mi.1 as int),
    {
        let above: Cell = self.above[mi.1];
        let left: Cell = self.left[mi.0];
        assert(neighbours::is_cell(self@.above[mi.1 as int]));
        assert(neighbours::is_cell(self@.left[mi.0 as int]));
        let above_n: usize = if mi.0 % 16 != 0 {
            above.palette_size as usize
        } else {
            0
        };
        let left_n: usize = if mi.1 > 0 {
            left.palette_size as usize
        } else {
            0
        };
        let ctx: usize = bit(mi.0 > 0 && above.palette_size > 0) + bit(left_n > 0);
        let cache: Vec<u16> = merge(
            &above.palette_colors,
            above_n,
            &left.palette_colors,
            left_n,
        );
        proof {
            assert(above.palette_colors@.take(above_n as int) =~= above_colors(
                self@,
                mi.0 as int,
                mi.1 as int,
            ));
            assert(left.palette_colors@.take(left_n as int) =~= left_colors(
                self@,
                mi.0 as int,
                mi.1 as int,
            ));
        }
        (ctx, cache)
    }

    /// The ascending chroma colours a block's neighbours offer, each once.
    pub fn palette_uv_cache(&self, mi: (usize, usize)) -> (cache: Vec<u16>)
        requires
            neighbours::is_bands(self@),
            mi.0 < self@.left.len(),
            mi.1 < self@.above.len(),
        ensures
            cache@ == spec_uv_cache(self@, mi.0 as int, mi.1 as int),
    {
        let above: Cell = self.above[mi.1];
        let left: Cell = self.left[mi.0];
        assert(neighbours::is_cell(self@.above[mi.1 as int]));
        assert(neighbours::is_cell(self@.left[mi.0 as int]));
        let above_n: usize = if mi.0 % 16 != 0 {
            above.palette_uv_size as usize
        } else {
            0
        };
        let left_n: usize = if mi.1 > 0 {
            left.palette_uv_size as usize
        } else {
            0
        };
        let cache: Vec<u16> = merge(
            &above.palette_uv_colors,
            above_n,
            &left.palette_uv_colors,
            left_n,
        );
        proof {
            assert(above.palette_uv_colors@.take(above_n as int) =~= above_uv_colors(
                self@,
                mi.0 as int,
                mi.1 as int,
            ));
            assert(left.palette_uv_colors@.take(left_n as int) =~= left_uv_colors(
                self@,
                mi.0 as int,
                mi.1 as int,
            ));
        }
        cache
    }
}

} // verus!
