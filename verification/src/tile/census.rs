//! Counts of what a writer decided, taken from the marks in a tile's trace.
use crate::tile::coeffs;
use crate::tile::context;
use crate::tile::ops::{Note, Op};
use crate::tile::scan;
use crate::tile::scan::{scan_of, TxClass};
use vstd::prelude::*;

verus! {

/// How many counters there are.
pub const COUNTERS: usize = 85;

/// The roots of 128x128 superblocks.
pub const SB128_ROOTS: usize = 0;

/// The blocks predicted by a recursive filter, then each of its five modes.
pub const FILTER_INTRA: usize = 1;

/// The blocks copied from their own frame, then their distances by powers of
/// two.
pub const INTRABC: usize = 7;

/// The coded motion modes, by size.
pub const MOTION_MODES: usize = 14;

/// The modes of blocks of two references.
pub const COMPOUND_MODES: usize = 23;

/// Their second references.
pub const COMPOUND_PAIRS: usize = 31;

/// Their sizes.
pub const COMPOUND_SIZES: usize = 38;

/// Their modes again, of those no larger than 16x16.
pub const COMPOUND_LEAF_MODES: usize = 42;

/// The blocks with a luma palette, then its sizes.
pub const PALETTES: usize = 50;

/// The blocks with a chroma palette, then its sizes.
pub const PALETTES_UV: usize = 59;

/// The chroma base colours taken from the neighbours.
pub const PALETTE_UV_CACHE: usize = 68;

/// The references of blocks of one.
pub const REFS: usize = 69;

/// The candidate indices that were cut short.
pub const DRL_CLAMPS: usize = 76;

/// The modes of blocks of one reference.
pub const INTER_MODES: usize = 77;

/// The candidate indices they coded, three and more together.
pub const DRLS: usize = 81;

/// Whether a mark counts towards a counter.
pub open spec fn bumps(n: Note, c: int) -> bool {
    match n {
        Note::Sb128Root => c == SB128_ROOTS,
        Note::FilterIntra(m) => c == FILTER_INTRA || (m < 5 && c == FILTER_INTRA + 1 + m),
        Note::Intrabc(b) => c == INTRABC || (1 <= b <= 6 && c == INTRABC + b),
        Note::MotionMode(i) => i < 9 && c == MOTION_MODES + i,
        Note::Compound(mode, pair, size, leaf) => {
            ||| mode < 8 && c == COMPOUND_MODES + mode
            ||| pair < 7 && c == COMPOUND_PAIRS + pair
            ||| size < 4 && c == COMPOUND_SIZES + size
            ||| leaf && mode < 8 && c == COMPOUND_LEAF_MODES + mode
        },
        Note::Palette(n) => c == PALETTES || (1 <= n <= 8 && c == PALETTES + n),
        Note::PaletteUv(n) => c == PALETTES_UV || (1 <= n <= 8 && c == PALETTES_UV + n),
        Note::PaletteUvCache => c == PALETTE_UV_CACHE,
        Note::Ref(i) => i < 7 && c == REFS + i,
        Note::DrlClamp => c == DRL_CLAMPS,
        Note::InterMode(mode, drl) => (mode < 4 && c == INTER_MODES + mode) || c == DRLS
            + context::min(drl as int, 3),
    }
}

/// How many of the first `count` symbols count towards a counter.
pub open spec fn tally(ops: Seq<Op>, c: int, count: int) -> int
    decreases count,
{
    if count <= 0 {
        0
    } else {
        tally(ops, c, count - 1) + match ops[count - 1] {
            Op::Note(n) => if bumps(n, c) {
                1int
            } else {
                0int
            },
            _ => 0int,
        }
    }
}

proof fn lemma_tally_bounds(ops: Seq<Op>, c: int, count: int)
    ensures
        0 <= tally(ops, c, count),
        count >= 0 ==> tally(ops, c, count) <= count,
    decreases count,
{
    if count > 0 {
        lemma_tally_bounds(ops, c, count - 1);
    }
}

/// The counts of two traces, one after the other, are the sums of their own.
pub proof fn tallies_add_up(a: Seq<Op>, b: Seq<Op>, c: int, count: int)
    requires
        0 <= count <= b.len(),
    ensures
        tally(a + b, c, a.len() + count) == tally(a, c, a.len() as int) + tally(b, c, count),
    decreases count,
{
    if count > 0 {
        tallies_add_up(a, b, c, count - 1);
        assert((a + b)[a.len() + count - 1] == b[count - 1]);
    } else {
        lemma_prefix(a, b, c, a.len() as int);
    }
}

proof fn lemma_prefix(a: Seq<Op>, b: Seq<Op>, c: int, count: int)
    requires
        count <= a.len(),
    ensures
        tally(a + b, c, count) == tally(a, c, count),
    decreases count,
{
    if count > 0 {
        lemma_prefix(a, b, c, count - 1);
        assert((a + b)[count - 1] == a[count - 1]);
    }
}

/// The counters of one writer.
pub struct Hits {
    /// Every counter.
    pub counts: Vec<usize>,
}

/// Whether there is a counter for everything.
pub open spec fn is_hits(h: Hits) -> bool {
    h.counts@.len() == COUNTERS
}

/// Whether no counter can overflow over `n` more symbols.
pub open spec fn has_room(h: Hits, n: int) -> bool {
    forall|c: int| 0 <= c < h.counts@.len() ==> #[trigger] h.counts@[c] + n <= usize::MAX
}

/// The counters with a range of them cleared.
pub open spec fn cleared(counts: Seq<usize>, from: int, len: int) -> Seq<usize> {
    Seq::new(
        counts.len(),
        |c: int|
            if from <= c < from + len {
                0
            } else {
                counts[c]
            },
    )
}

impl Hits {
    /// Counters that have counted nothing.
    pub fn new() -> (h: Hits)
        ensures
            is_hits(h),
            forall|c: int| 0 <= c < COUNTERS ==> h.counts@[c] == 0,
    {
        let mut counts: Vec<usize> = Vec::new();
        while counts.len() < COUNTERS
            invariant
                counts@.len() <= COUNTERS,
                forall|c: int| 0 <= c < counts@.len() ==> counts@[c] == 0,
            decreases COUNTERS - counts@.len(),
        {
            counts.push(0);
        }
        Hits { counts }
    }

    fn bump(&mut self, c: usize)
        requires
            is_hits(*old(self)),
            c < COUNTERS,
            old(self).counts@[c as int] < usize::MAX,
        ensures
            is_hits(*final(self)),
            final(self).counts@ == old(self).counts@.update(
                c as int,
                (old(self).counts@[c as int] + 1) as usize,
            ),
    {
        let n: usize = self.counts[c];
        self.counts.set(c, n + 1);
    }

    fn note(&mut self, n: Note)
        requires
            is_hits(*old(self)),
            has_room(*old(self), 1),
        ensures
            is_hits(*final(self)),
            forall|c: int|
                0 <= c < COUNTERS ==> #[trigger] final(self).counts@[c] == old(self).counts@[c]
                    + if bumps(n, c) {
                    1int
                } else {
                    0int
                },
    {
        match n {
            Note::Sb128Root => self.bump(SB128_ROOTS),
            Note::FilterIntra(m) => {
                self.bump(FILTER_INTRA);
                if m < 5 {
                    self.bump(FILTER_INTRA + 1 + m);
                }
            },
            Note::Intrabc(b) => {
                self.bump(INTRABC);
                if 1 <= b && b <= 6 {
                    self.bump(INTRABC + b);
                }
            },
            Note::MotionMode(i) => {
                if i < 9 {
                    self.bump(MOTION_MODES + i);
                }
            },
            Note::Compound(mode, pair, size, leaf) => {
                if mode < 8 {
                    self.bump(COMPOUND_MODES + mode);
                    if leaf {
                        self.bump(COMPOUND_LEAF_MODES + mode);
                    }
                }
                if pair < 7 {
                    self.bump(COMPOUND_PAIRS + pair);
                }
                if size < 4 {
                    self.bump(COMPOUND_SIZES + size);
                }
            },
            Note::Palette(n) => {
                self.bump(PALETTES);
                if 1 <= n && n <= 8 {
                    self.bump(PALETTES + n);
                }
            },
            Note::PaletteUv(n) => {
                self.bump(PALETTES_UV);
                if 1 <= n && n <= 8 {
                    self.bump(PALETTES_UV + n);
                }
            },
            Note::PaletteUvCache => self.bump(PALETTE_UV_CACHE),
            Note::Ref(i) => {
                if i < 7 {
                    self.bump(REFS + i);
                }
            },
            Note::DrlClamp => self.bump(DRL_CLAMPS),
            Note::InterMode(mode, drl) => {
                if mode < 4 {
                    self.bump(INTER_MODES + mode);
                }
                if drl < 3 {
                    self.bump(DRLS + drl);
                } else {
                    self.bump(DRLS + 3);
                }
            },
        }
    }

    /// Counts the marks of a trace.
    pub fn count(&mut self, ops: &[Op])
        requires
            is_hits(*old(self)),
            has_room(*old(self), ops@.len() as int),
        ensures
            is_hits(*final(self)),
            forall|c: int|
                0 <= c < COUNTERS ==> #[trigger] final(self).counts@[c] == old(self).counts@[c]
                    + tally(ops@, c, ops@.len() as int),
    {
        let ghost start = self.counts@;
        let mut i: usize = 0;
        while i < ops.len()
            invariant
                i <= ops@.len(),
                is_hits(*self),
                start.len() == COUNTERS,
                forall|c: int|
                    0 <= c < COUNTERS ==> #[trigger] start[c] + ops@.len() <= usize::MAX,
                forall|c: int|
                    0 <= c < COUNTERS ==> #[trigger] self.counts@[c] == start[c] + tally(
                        ops@,
                        c,
                        i as int,
                    ),
            decreases ops@.len() - i,
        {
            proof {
                assert forall|c: int| 0 <= c < COUNTERS implies #[trigger] self.counts@[c] + 1
                    <= usize::MAX by {
                    lemma_tally_bounds(ops@, c, i as int);
                    assert(start[c] + ops@.len() <= usize::MAX);
                }
            }
            if let Op::Note(n) = ops[i] {
                self.note(n);
            }
            i += 1;
        }
    }

    /// Takes a range of counters and clears it.
    fn take(&mut self, from: usize, len: usize) -> (taken: Vec<usize>)
        requires
            is_hits(*old(self)),
            from + len <= COUNTERS,
        ensures
            is_hits(*final(self)),
            taken@ == old(self).counts@.subrange(from as int, from + len),
            final(self).counts@ == cleared(old(self).counts@, from as int, len as int),
    {
        let ghost start = self.counts@;
        let mut taken: Vec<usize> = Vec::new();
        while taken.len() < len
            invariant
                taken@.len() <= len,
                from + len <= COUNTERS,
                is_hits(*self),
                start.len() == COUNTERS,
                taken@ == start.subrange(from as int, from + taken@.len()),
                self.counts@ == cleared(start, from as int, taken@.len() as int),
            decreases len - taken@.len(),
        {
            let c: usize = from + taken.len();
            let n: usize = self.counts[c];
            self.counts.set(c, 0);
            taken.push(n);
            proof {
                assert(taken@ =~= start.subrange(from as int, from + taken@.len()));
                assert(self.counts@ =~= cleared(start, from as int, taken@.len() as int));
            }
        }
        taken
    }
}

/// Takes and clears one counter.
fn take_one(hits: &mut Hits, c: usize) -> (n: usize)
    requires
        is_hits(*old(hits)),
        c < COUNTERS,
    ensures
        is_hits(*final(hits)),
        n == old(hits).counts@[c as int],
        final(hits).counts@ == cleared(old(hits).counts@, c as int, 1),
{
    let taken: Vec<usize> = hits.take(c, 1);
    taken[0]
}

/// Takes and clears how many roots of 128x128 superblocks were written.
pub fn take_sb128_root_hits(hits: &mut Hits) -> (n: usize)
    requires
        is_hits(*old(hits)),
    ensures
        is_hits(*final(hits)),
        n == old(hits).counts@[SB128_ROOTS as int],
        final(hits).counts@ == cleared(old(hits).counts@, SB128_ROOTS as int, 1),
{
    take_one(hits, SB128_ROOTS)
}

/// Takes and clears how many blocks were predicted by a recursive filter, and
/// by each of its modes.
pub fn take_filter_intra_hits(hits: &mut Hits) -> (taken: Vec<usize>)
    requires
        is_hits(*old(hits)),
    ensures
        is_hits(*final(hits)),
        taken@ == old(hits).counts@.subrange(FILTER_INTRA as int, FILTER_INTRA + 6),
        final(hits).counts@ == cleared(old(hits).counts@, FILTER_INTRA as int, 6),
{
    hits.take(FILTER_INTRA, 6)
}

/// Takes and clears how many blocks were copied from their own frame, and from
/// how far.
pub fn take_intrabc_hits(hits: &mut Hits) -> (taken: Vec<usize>)
    requires
        is_hits(*old(hits)),
    ensures
        is_hits(*final(hits)),
        taken@ == old(hits).counts@.subrange(INTRABC as int, INTRABC + 7),
        final(hits).counts@ == cleared(old(hits).counts@, INTRABC as int, 7),
{
    hits.take(INTRABC, 7)
}

/// Takes and clears the coded motion modes.
pub fn take_motion_mode_hits(hits: &mut Hits) -> (taken: Vec<usize>)
    requires
        is_hits(*old(hits)),
    ensures
        is_hits(*final(hits)),
        taken@ == old(hits).counts@.subrange(MOTION_MODES as int, MOTION_MODES + 9),
        final(hits).counts@ == cleared(old(hits).counts@, MOTION_MODES as int, 9),
{
    hits.take(MOTION_MODES, 9)
}

/// Takes and clears the modes of blocks of two references.
pub fn take_compound_mode_hits(hits: &mut Hits) -> (taken: Vec<usize>)
    requires
        is_hits(*old(hits)),
    ensures
        is_hits(*final(hits)),
        taken@ == old(hits).counts@.subrange(COMPOUND_MODES as int, COMPOUND_MODES + 8),
        final(hits).counts@ == cleared(old(hits).counts@, COMPOUND_MODES as int, 8),
{
    hits.take(COMPOUND_MODES, 8)
}

/// Takes and clears their second references.
pub fn take_compound_pair_hits(hits: &mut Hits) -> (taken: Vec<usize>)
    requires
        is_hits(*old(hits)),
    ensures
        is_hits(*final(hits)),
        taken@ == old(hits).counts@.subrange(COMPOUND_PAIRS as int, COMPOUND_PAIRS + 7),
        final(hits).counts@ == cleared(old(hits).counts@, COMPOUND_PAIRS as int, 7),
{
    hits.take(COMPOUND_PAIRS, 7)
}

/// Takes and clears their sizes.
pub fn take_compound_size_hits(hits: &mut Hits) -> (taken: Vec<usize>)
    requires
        is_hits(*old(hits)),
    ensures
        is_hits(*final(hits)),
        taken@ == old(hits).counts@.subrange(COMPOUND_SIZES as int, COMPOUND_SIZES + 4),
        final(hits).counts@ == cleared(old(hits).counts@, COMPOUND_SIZES as int, 4),
{
    hits.take(COMPOUND_SIZES, 4)
}

/// Takes and clears the modes of those no larger than 16x16.
pub fn take_compound_leaf_mode_hits(hits: &mut Hits) -> (taken: Vec<usize>)
    requires
        is_hits(*old(hits)),
    ensures
        is_hits(*final(hits)),
        taken@ == old(hits).counts@.subrange(
            COMPOUND_LEAF_MODES as int,
            COMPOUND_LEAF_MODES + 8,
        ),
        final(hits).counts@ == cleared(old(hits).counts@, COMPOUND_LEAF_MODES as int, 8),
{
    hits.take(COMPOUND_LEAF_MODES, 8)
}

/// Takes and clears how many blocks took a luma palette, and of what size.
pub fn take_palette_hits(hits: &mut Hits) -> (taken: Vec<usize>)
    requires
        is_hits(*old(hits)),
    ensures
        is_hits(*final(hits)),
        taken@ == old(hits).counts@.subrange(PALETTES as int, PALETTES + 9),
        final(hits).counts@ == cleared(old(hits).counts@, PALETTES as int, 9),
{
    hits.take(PALETTES, 9)
}

/// Takes and clears how many blocks took a chroma palette, and of what size.
pub fn take_palette_uv_hits(hits: &mut Hits) -> (taken: Vec<usize>)
    requires
        is_hits(*old(hits)),
    ensures
        is_hits(*final(hits)),
        taken@ == old(hits).counts@.subrange(PALETTES_UV as int, PALETTES_UV + 9),
        final(hits).counts@ == cleared(old(hits).counts@, PALETTES_UV as int, 9),
{
    hits.take(PALETTES_UV, 9)
}

/// Takes and clears how many chroma base colours came from the neighbours.
pub fn take_palette_uv_cache_hits(hits: &mut Hits) -> (n: usize)
    requires
        is_hits(*old(hits)),
    ensures
        is_hits(*final(hits)),
        n == old(hits).counts@[PALETTE_UV_CACHE as int],
        final(hits).counts@ == cleared(old(hits).counts@, PALETTE_UV_CACHE as int, 1),
{
    take_one(hits, PALETTE_UV_CACHE)
}

/// Takes and clears the references of blocks of one.
pub fn take_ref_hits(hits: &mut Hits) -> (taken: Vec<usize>)
    requires
        is_hits(*old(hits)),
    ensures
        is_hits(*final(hits)),
        taken@ == old(hits).counts@.subrange(REFS as int, REFS + 7),
        final(hits).counts@ == cleared(old(hits).counts@, REFS as int, 7),
{
    hits.take(REFS, 7)
}

/// Takes and clears how many candidate indices were cut short.
pub fn take_drl_clamp_hits(hits: &mut Hits) -> (n: usize)
    requires
        is_hits(*old(hits)),
    ensures
        is_hits(*final(hits)),
        n == old(hits).counts@[DRL_CLAMPS as int],
        final(hits).counts@ == cleared(old(hits).counts@, DRL_CLAMPS as int, 1),
{
    take_one(hits, DRL_CLAMPS)
}

/// Takes and clears the modes of blocks of one reference.
pub fn take_inter_mode_hits(hits: &mut Hits) -> (taken: Vec<usize>)
    requires
        is_hits(*old(hits)),
    ensures
        is_hits(*final(hits)),
        taken@ == old(hits).counts@.subrange(INTER_MODES as int, INTER_MODES + 4),
        final(hits).counts@ == cleared(old(hits).counts@, INTER_MODES as int, 4),
{
    hits.take(INTER_MODES, 4)
}

/// Takes and clears the candidate indices they coded.
pub fn take_drl_hits(hits: &mut Hits) -> (taken: Vec<usize>)
    requires
        is_hits(*old(hits)),
    ensures
        is_hits(*final(hits)),
        taken@ == old(hits).counts@.subrange(DRLS as int, DRLS + 4),
        final(hits).counts@ == cleared(old(hits).counts@, DRLS as int, 4),
{
    hits.take(DRLS, 4)
}

/// The coded corner of a square of levels: all of it up to 32x32, and of a
/// larger one the top-left 32x32.
pub open spec fn spec_corner(levels: Seq<i32>, side: int, coded: int) -> Seq<i32> {
    Seq::new((coded * coded) as nat, |p: int| levels[(p / coded) * side + p % coded])
}

proof fn lemma_corner(side: int, coded: int, p: int)
    requires
        1 <= coded <= side,
        0 <= p < coded * coded,
    ensures
        0 <= p / coded < coded,
        0 <= p % coded < coded,
        0 <= (p / coded) * side + p % coded < side * side,
{
    vstd::arithmetic::div_mod::lemma_fundamental_div_mod(p, coded);
    let r = p / coded;
    let c = p % coded;
    assert(0 <= r < coded) by (nonlinear_arith)
        requires
            p == coded * r + c,
            0 <= c < coded,
            0 <= p < coded * coded,
    ;
    assert(0 <= r * side + c < side * side) by (nonlinear_arith)
        requires
            0 <= r < coded,
            0 <= c < coded,
            coded <= side,
    ;
}

/// The coded corner of a square of levels.
pub fn coded_corner(levels: &[i32], side: usize, coded: usize) -> (corner: Vec<i32>)
    requires
        1 <= coded <= side <= 64,
        levels@.len() == side * side,
    ensures
        corner@ == spec_corner(levels@, side as int, coded as int),
{
    let mut corner: Vec<i32> = Vec::new();
    proof {
        assert(coded * coded <= 4096) by (nonlinear_arith)
            requires
                coded <= 64,
        ;
        assert(side * side <= 4096) by (nonlinear_arith)
            requires
                side <= 64,
        ;
    }
    while corner.len() < coded * coded
        invariant
            1 <= coded <= side <= 64,
            coded * coded <= 4096,
            side * side <= 4096,
            levels@.len() == side * side,
            corner@.len() <= coded * coded,
            forall|p: int|
                0 <= p < corner@.len() ==> corner@[p] == spec_corner(
                    levels@,
                    side as int,
                    coded as int,
                )[p],
        decreases coded * coded - corner@.len(),
    {
        let p: usize = corner.len();
        proof {
            lemma_corner(side as int, coded as int, p as int);
        }
        corner.push(levels[(p / coded) * side + p % coded]);
    }
    proof {
        assert(corner@ =~= spec_corner(levels@, side as int, coded as int));
    }
    corner
}

/// What the optimising quantizer did: blocks, coded levels, levels of one, ones
/// at the end of the scan, levels zeroed, levels lowered, and the bits after
/// and before in sixty-fourths.
pub struct RdoqStats {
    /// The counters.
    pub counts: [u64; 8],
}

/// How many of the first `count` levels in scan order are nonzero.
pub open spec fn nonzeros(grid: Seq<i32>, order: Seq<int>, count: int) -> int
    decreases count,
{
    if count <= 0 {
        0
    } else {
        nonzeros(grid, order, count - 1) + if grid[order[count - 1]] != 0 {
            1int
        } else {
            0int
        }
    }
}

/// Whether a level is one or minus one.
pub open spec fn is_one(level: i32) -> bool {
    level == 1 || level == -1
}

/// How many of the first `count` levels in scan order are one or minus one.
pub open spec fn ones(grid: Seq<i32>, order: Seq<int>, count: int) -> int
    decreases count,
{
    if count <= 0 {
        0
    } else {
        ones(grid, order, count - 1) + if is_one(grid[order[count - 1]]) {
            1int
        } else {
            0int
        }
    }
}

/// How many levels of one the first `count` end in.
pub open spec fn ones_run(grid: Seq<i32>, order: Seq<int>, count: int) -> int
    decreases count,
{
    if count > 0 && is_one(grid[order[count - 1]]) {
        1 + ones_run(grid, order, count - 1)
    } else {
        0
    }
}

/// Counts a block before the optimising quantizer sees it, with its price in
/// sixty-fourths of a bit.
pub fn census_block(stats: &mut RdoqStats, levels: &[i32], side: usize, coded: usize, price: u64)
    requires
        1 <= coded <= side <= 64,
        levels@.len() == side * side,
    ensures
        ({
            let grid = spec_corner(levels@, side as int, coded as int);
            let order = scan::spec_default_scan(coded as int);
            let area = coded * coded;
            let end = coeffs::end_of_block(grid, order, area);
            let before = old(stats).counts@;
            let after = final(stats).counts@;
            &&& after[0] == before[0].wrapping_add(1)
            &&& after[1] == before[1].wrapping_add(nonzeros(grid, order, area) as u64)
            &&& after[2] == before[2].wrapping_add(ones(grid, order, area) as u64)
            &&& after[3] == before[3].wrapping_add(ones_run(grid, order, end) as u64)
            &&& after[4] == before[4]
            &&& after[5] == before[5]
            &&& after[6] == before[6]
            &&& after[7] == before[7].wrapping_add(price)
        }),
{
    let corner: Vec<i32> = coded_corner(levels, side, coded);
    let table: Vec<u16> = scan_of(coded, TxClass::TwoD);
    let ghost grid = corner@;
    let ghost order = scan::spec_default_scan(coded as int);
    proof {
        scan::scans_stay_inside(coded as int, TxClass::TwoD);
        assert(scan::positions(table@) == order);
        assert(coded * coded <= 4096) by (nonlinear_arith)
            requires
                coded <= 64,
        ;
    }
    let area: usize = coded * coded;
    let mut n: u64 = 0;
    let mut o: u64 = 0;
    let mut end: usize = 0;
    let mut i: usize = 0;
    while i < area
        invariant
            i <= area <= 4096,
            end <= i,
            corner@ == grid,
            grid.len() == area,
            order.len() == area,
            order == scan::positions(table@),
            forall|k: int| 0 <= k < area ==> 0 <= #[trigger] order[k] < area,
            n == nonzeros(grid, order, i as int),
            o == ones(grid, order, i as int),
            end == coeffs::end_of_block(grid, order, i as int),
            n <= i,
            o <= i,
        decreases area - i,
    {
        proof {
            assert(order[i as int] == table@[i as int] as int);
        }
        let level: i32 = corner[table[i] as usize];
        if level != 0 {
            n += 1;
            end = i + 1;
        }
        if level == 1 || level == -1 {
            o += 1;
        }
        i += 1;
    }
    let mut run: u64 = 0;
    let mut at: usize = end;
    let mut more: bool = true;
    while more && at > 0
        invariant
            at <= end <= area <= 4096,
            corner@ == grid,
            grid.len() == area,
            order.len() == area,
            order == scan::positions(table@),
            forall|k: int| 0 <= k < area ==> 0 <= #[trigger] order[k] < area,
            run == end - at,
            more ==> run + ones_run(grid, order, at as int) == ones_run(
                grid,
                order,
                end as int,
            ),
            !more ==> run == ones_run(grid, order, end as int),
        decreases
            at,
            if more {
                1int
            } else {
                0int
            },
    {
        proof {
            assert(order[at - 1] == table@[at - 1] as int);
        }
        let level: i32 = corner[table[at - 1] as usize];
        if level == 1 || level == -1 {
            run += 1;
            at -= 1;
        } else {
            more = false;
        }
    }
    stats.counts[0] = stats.counts[0].wrapping_add(1);
    stats.counts[1] = stats.counts[1].wrapping_add(n);
    stats.counts[2] = stats.counts[2].wrapping_add(o);
    stats.counts[3] = stats.counts[3].wrapping_add(run);
    stats.counts[7] = stats.counts[7].wrapping_add(price);
}

/// Counts a level that the optimising quantizer lowered: to zero, or by one
/// towards it.
pub fn census_lowered(stats: &mut RdoqStats, candidate: i32)
    ensures
        ({
            let c = if candidate == 0 {
                4int
            } else {
                5int
            };
            let before = old(stats).counts@;
            final(stats).counts@ == before.update(c, before[c].wrapping_add(1))
        }),
{
    let ghost before = stats.counts@;
    if candidate == 0 {
        stats.counts[4] = stats.counts[4].wrapping_add(1);
        assert(stats.counts@ =~= before.update(4, before[4].wrapping_add(1)));
    } else {
        stats.counts[5] = stats.counts[5].wrapping_add(1);
        assert(stats.counts@ =~= before.update(5, before[5].wrapping_add(1)));
    }
}

/// Counts what a block costs after the optimising quantizer saw it, in
/// sixty-fourths of a bit.
pub fn census_after(stats: &mut RdoqStats, price: u64)
    ensures
        final(stats).counts@ == old(stats).counts@.update(
            6,
            old(stats).counts@[6].wrapping_add(price),
        ),
{
    let ghost before = stats.counts@;
    stats.counts[6] = stats.counts[6].wrapping_add(price);
    assert(stats.counts@ =~= before.update(6, before[6].wrapping_add(price)));
}

/// Takes and clears what the optimising quantizer did.
pub fn take_rdoq_stats(stats: &mut RdoqStats) -> (taken: [u64; 8])
    ensures
        taken == old(stats).counts,
        final(stats).counts@ == Seq::new(8, |i: int| 0u64),
{
    let taken: [u64; 8] = stats.counts;
    stats.counts = [0, 0, 0, 0, 0, 0, 0, 0];
    proof {
        assert(stats.counts@ =~= Seq::new(8, |i: int| 0u64));
    }
    taken
}

/// Each kind of mark has counters of its own: two marks that count together are of one kind.
pub proof fn marks_have_their_own_counters(a: Note, b: Note, c: int)
    requires
        bumps(a, c),
        bumps(b, c),
    ensures
        a is Sb128Root <==> b is Sb128Root,
        a is FilterIntra <==> b is FilterIntra,
        a is Intrabc <==> b is Intrabc,
        a is MotionMode <==> b is MotionMode,
        a is Compound <==> b is Compound,
        a is Palette <==> b is Palette,
        a is PaletteUv <==> b is PaletteUv,
        a is PaletteUvCache <==> b is PaletteUvCache,
        a is Ref <==> b is Ref,
        a is DrlClamp <==> b is DrlClamp,
        a is InterMode <==> b is InterMode,
        0 <= c < COUNTERS,
{
}

/// The coded corner keeps every level at its own row and column.
pub proof fn corners_keep_rows_and_columns(levels: Seq<i32>, side: int, coded: int, r: int, c: int)
    requires
        0 <= r < coded,
        0 <= c < coded,
    ensures
        spec_corner(levels, side, coded)[r * coded + c] == levels[r * side + c],
{
    assert(0 <= r * coded + c < coded * coded) by (nonlinear_arith)
        requires
            0 <= r < coded,
            0 <= c < coded,
    ;
    vstd::arithmetic::div_mod::lemma_fundamental_div_mod_converse(r * coded + c, coded, r, c);
}

/// Levels of one are among those that are not zero, and the ones at the end among all ones; a
/// level of one adds to all three, a larger one to the first alone and ends the run.
pub proof fn ones_are_counted_among_the_levels(grid: Seq<i32>, order: Seq<int>, count: int)
    requires
        0 <= count < order.len(),
    ensures
        0 <= ones_run(grid, order, count) <= ones(grid, order, count) <= nonzeros(
            grid,
            order,
            count,
        ) <= count,
        ({
            let x = grid[order[count]];
            let (n, o, r) = (
                nonzeros(grid, order, count + 1) - nonzeros(grid, order, count),
                ones(grid, order, count + 1) - ones(grid, order, count),
                ones_run(grid, order, count + 1),
            );
            &&& x == 0 ==> n == 0 && o == 0 && r == 0
            &&& x == 1 || x == -1 ==> n == 1 && o == 1 && r == ones_run(grid, order, count) + 1
            &&& x > 1 || x < -1 ==> n == 1 && o == 0 && r == 0
        }),
    decreases count,
{
    if count > 0 {
        ones_are_counted_among_the_levels(grid, order, count - 1);
    }
}

} // verus!
