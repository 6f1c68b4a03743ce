//! Leaving a block behind for those that read it as a neighbour.
use crate::tile::neighbours;
use crate::tile::neighbours::{
    Cell, Change, Neighbour, Neighbours, PlaneStates, Pending, ALTREF_FRAME, INTRA_MODES,
    NO_COLORS,
};
use vstd::prelude::*;

verus! {

fn apply(change: &Change, i: usize, c: Cell) -> (r: Cell)
    requires
        i < usize::MAX,
    ensures
        r == neighbours::applied(*change, i as int, c),
{
    let none = Neighbour { coded: false, level: 0, dc: None };
    let mut r: Cell = c;
    match *change {
        Change::Palette(size, colors) => {
            r.palette_size = size;
            if size > 0 {
                r.palette_colors = colors;
            }
        },
        Change::PaletteUv(size, colors) => {
            r.palette_uv_size = size;
            if size > 0 {
                r.palette_uv_colors = colors;
            }
        },
        Change::Planes { edge, side, states, luma } => {
            let chroma: bool = i < edge || (edge % 2 == 1 && i == edge);
            r.side = side;
            if luma {
                r.y = if i < edge {
                    states.y
                } else {
                    none
                };
            }
            r.u = if chroma {
                states.u
            } else {
                none
            };
            r.v = if chroma {
                states.v
            } else {
                none
            };
        },
        Change::Luma { edge, state } => {
            if i < edge {
                r.y = state;
            }
        },
        Change::Tx(tx) => {
            r.tx = tx;
        },
        Change::Txfm(tx) => {
            r.txfm = tx;
        },
        Change::Skip(skip) => {
            r.skip = skip;
        },
        Change::Inter { skip, inter, ref_frame } => {
            let altref: bool = inter && ref_frame == ALTREF_FRAME;
            r.skip = skip;
            r.inter = inter;
            r.ref0 = ref_frame;
            r.ref1 = None;
            r.comp_group_idx = if altref {
                3
            } else {
                0
            };
            r.compound_idx = if altref {
                1
            } else {
                0
            };
        },
        Change::Compound { ref1, comp_group_idx, compound_idx } => {
            r.ref1 = Some(ref1);
            r.comp_group_idx = comp_group_idx;
            r.compound_idx = compound_idx;
        },
    }
    r
}

proof fn lemma_changed(band: Seq<Cell>, lo: int, count: int, change: Change)
    requires
        0 <= lo,
        0 <= count,
        lo + count < band.len(),
    ensures
        neighbours::changed(band, lo, count + 1, change) == neighbours::changed(
            band,
            lo,
            count,
            change,
        ).update(lo + count, neighbours::applied(change, lo + count, band[lo + count])),
{
    assert(neighbours::changed(band, lo, count + 1, change) =~= neighbours::changed(
        band,
        lo,
        count,
        change,
    ).update(lo + count, neighbours::applied(change, lo + count, band[lo + count])));
}

fn change_band(band: &mut Vec<Cell>, lo: usize, count: usize, change: &Change)
    requires
        old(band).len() <= 0xffff_ffff,
        neighbours::is_change(*change),
        forall|i: int| 0 <= i < old(band).len() ==> neighbours::is_cell(#[trigger] old(band)@[i]),
    ensures
        final(band)@ == neighbours::changed(old(band)@, lo as int, count as int, *change),
        forall|i: int|
            0 <= i < final(band).len() ==> neighbours::is_cell(#[trigger] final(band)@[i]),
{
    let ghost before = band@;
    let mut k: usize = 0;
    proof {
        assert(neighbours::changed(before, lo as int, 0, *change) =~= before);
    }
    while k < count && lo < band.len() && k < band.len() - lo
        invariant
            k <= count,
            band.len() == before.len(),
            before.len() <= 0xffff_ffff,
            lo + k <= band.len() || k == 0,
            neighbours::is_change(*change),
            forall|i: int| 0 <= i < before.len() ==> neighbours::is_cell(#[trigger] before[i]),
            forall|i: int| 0 <= i < band.len() ==> neighbours::is_cell(#[trigger] band@[i]),
            band@ == neighbours::changed(before, lo as int, k as int, *change),
        decreases count - k,
    {
        proof {
            lemma_changed(before, lo as int, k as int, *change);
        }
        let c: Cell = band[lo + k];
        let r: Cell = apply(change, lo + k, c);
        band.set(lo + k, r);
        k += 1;
    }
    proof {
        assert(band@ =~= neighbours::changed(before, lo as int, count as int, *change));
    }
}

fn set_modes(modes: &mut Vec<usize>, lo: usize, count: usize, mode: usize)
    requires
        lo + count <= old(modes).len(),
    ensures
        final(modes)@ == neighbours::moded(old(modes)@, lo as int, count as int, mode),
{
    let ghost before = modes@;
    let mut k: usize = 0;
    while k < count
        invariant
            k <= count,
            lo + count <= modes.len(),
            modes.len() == before.len(),
            forall|i: int|
                0 <= i < modes.len() ==> #[trigger] modes@[i] == if lo <= i < lo + k {
                    mode
                } else {
                    before[i]
                },
        decreases count - k,
    {
        modes.set(lo + k, mode);
        k += 1;
    }
    proof {
        assert(modes@ =~= neighbours::moded(before, lo as int, count as int, mode));
    }
}

impl Neighbours {
    fn change_both(&mut self, mi: (usize, usize), count: usize, change: &Change)
        requires
            neighbours::is_bands(old(self)@),
            neighbours::is_change(*change),
        ensures
            neighbours::is_bands(final(self)@),
            final(self)@ == neighbours::both_changed(
                old(self)@,
                mi.0 as int,
                mi.1 as int,
                count as int,
                *change,
            ),
    {
        change_band(&mut self.above, mi.1, count, change);
        change_band(&mut self.left, mi.0, count, change);
    }

    /// Leaves a block's luma palette in every unit it spans, `0` for a block
    /// that took none.
    pub fn record_palette_y(
        &mut self,
        mi: (usize, usize),
        side: usize,
        size: u8,
        colors: [u16; 8],
    )
        requires
            neighbours::is_bands(old(self)@),
            size <= 8,
        ensures
            neighbours::is_bands(final(self)@),
            final(self)@ == neighbours::both_changed(
                old(self)@,
                mi.0 as int,
                mi.1 as int,
                side as int / 4,
                Change::Palette(size, colors),
            ),
    {
        self.change_both(mi, side / 4, &Change::Palette(size, colors));
    }

    /// The same for its chroma palette.
    pub fn record_palette_uv(
        &mut self,
        mi: (usize, usize),
        side: usize,
        size: u8,
        colors: [u16; 8],
    )
        requires
            neighbours::is_bands(old(self)@),
            size <= 8,
        ensures
            neighbours::is_bands(final(self)@),
            final(self)@ == neighbours::both_changed(
                old(self)@,
                mi.0 as int,
                mi.1 as int,
                side as int / 4,
                Change::PaletteUv(size, colors),
            ),
    {
        self.change_both(mi, side / 4, &Change::PaletteUv(size, colors));
    }

    /// Leaves an inter frame's transform size in the units of a square.
    pub fn record_txfm(&mut self, mi: (usize, usize), tx_px: usize, side: usize)
        requires
            neighbours::is_bands(old(self)@),
            tx_px <= 128,
        ensures
            neighbours::is_bands(final(self)@),
            final(self)@ == neighbours::after_txfm(
                old(self)@,
                mi.0 as int,
                mi.1 as int,
                tx_px as int,
                side as int,
            ),
    {
        self.change_both(mi, side / 4, &Change::Txfm(tx_px as u8));
    }

    /// Leaves a block's resolved transform side in every unit it covers.
    pub fn record_tx(&mut self, mi: (usize, usize), side: usize, tx_px: usize)
        requires
            neighbours::is_bands(old(self)@),
            tx_px <= 128,
        ensures
            neighbours::is_bands(final(self)@),
            final(self)@ == neighbours::after_tx(
                old(self)@,
                mi.0 as int,
                mi.1 as int,
                side as int,
                tx_px as int,
            ),
    {
        self.change_both(mi, side / 4, &Change::Tx(tx_px as u8));
    }

    /// Leaves a block's skip flag in every unit it covers.
    pub fn record_skip(&mut self, mi: (usize, usize), side: usize, skip: bool)
        requires
            neighbours::is_bands(old(self)@),
        ensures
            neighbours::is_bands(final(self)@),
            final(self)@ == neighbours::after_skip(
                old(self)@,
                mi.0 as int,
                mi.1 as int,
                side as int,
                skip,
            ),
    {
        self.change_both(mi, side / 4, &Change::Skip(skip));
    }

    /// Leaves one luma transform unit's coefficients behind, between the units
    /// of a split block.
    pub fn record_mi_luma(&mut self, mi: (usize, usize), tx_px: usize, grid: &[i32])
        requires
            neighbours::is_bands(old(self)@),
            neighbours::is_levels(grid@),
        ensures
            neighbours::is_bands(final(self)@),
            final(self)@ == neighbours::after_luma(
                old(self)@,
                mi.0 as int,
                mi.1 as int,
                tx_px as int,
                neighbours::state_of(grid@),
            ),
    {
        let state: Neighbour = neighbours::neighbour_state(grid);
        change_band(
            &mut self.above,
            mi.1,
            tx_px / 4,
            &Change::Luma { edge: self.mi_cols, state },
        );
        change_band(&mut self.left, mi.0, tx_px / 4, &Change::Luma { edge: self.mi_rows, state });
    }

    /// Leaves an inter frame's block behind: its skip flag, whether it is
    /// inter, and its reference.
    pub fn record_inter_mi(
        &mut self,
        mi: (usize, usize),
        side: usize,
        skip: bool,
        is_inter: bool,
        ref_frame: i8,
    )
        requires
            neighbours::is_bands(old(self)@),
        ensures
            neighbours::is_bands(final(self)@),
            final(self)@ == neighbours::after_inter(
                old(self)@,
                mi.0 as int,
                mi.1 as int,
                side as int,
                skip,
                is_inter,
                ref_frame,
            ),
    {
        self.change_both(mi, side / 4, &Change::Inter { skip, inter: is_inter, ref_frame });
    }

    /// The same at a 16x16 block of the frame.
    pub fn record_inter(
        &mut self,
        at: (usize, usize),
        side: usize,
        skip: bool,
        is_inter: bool,
        ref_frame: i8,
    )
        requires
            neighbours::is_bands(old(self)@),
            4 * at.0 <= 0xffff_ffff,
            4 * at.1 <= 0xffff_ffff,
        ensures
            neighbours::is_bands(final(self)@),
            final(self)@ == neighbours::after_inter(
                old(self)@,
                4 * at.0,
                4 * at.1,
                side as int,
                skip,
                is_inter,
                ref_frame,
            ),
    {
        self.record_inter_mi((4 * at.0, 4 * at.1), side, skip, is_inter, ref_frame);
    }

    /// Leaves a block's second reference behind, over what
    /// [`Neighbours::record_inter_mi`] left.
    pub fn record_compound_mi(
        &mut self,
        mi: (usize, usize),
        side: usize,
        ref1: i8,
        comp_group_idx: u8,
        compound_idx: u8,
    )
        requires
            neighbours::is_bands(old(self)@),
        ensures
            neighbours::is_bands(final(self)@),
            final(self)@ == neighbours::after_compound(
                old(self)@,
                mi.0 as int,
                mi.1 as int,
                side as int,
                ref1,
                comp_group_idx,
                compound_idx,
            ),
    {
        self.change_both(
            mi,
            side / 4,
            &Change::Compound { ref1, comp_group_idx, compound_idx },
        );
    }

    fn record_palettes(&mut self, mi: (usize, usize), side: usize)
        requires
            neighbours::is_bands(old(self)@),
        ensures
            neighbours::is_bands(final(self)@),
            final(self)@ == neighbours::after_palettes(
                old(self)@,
                mi.0 as int,
                mi.1 as int,
                side as int / 4,
            ),
    {
        let y: Pending = self.pending_palette;
        let uv: Pending = self.pending_palette_uv;
        match y {
            Some(p) => self.record_palette_y(mi, side, p.0, p.1),
            None => self.record_palette_y(mi, side, 0, NO_COLORS),
        }
        match uv {
            Some(p) => self.record_palette_uv(mi, side, p.0, p.1),
            None => self.record_palette_uv(mi, side, 0, NO_COLORS),
        }
        self.pending_palette = None;
        self.pending_palette_uv = None;
    }

    /// Leaves a block's coefficients behind in every unit up to the frame's
    /// edge, and on a frame of screen content its palettes. Luma is left alone
    /// where its units were left one by one.
    pub fn record_mi_planes(
        &mut self,
        mi: (usize, usize),
        side: usize,
        grids: &[Vec<i32>; 3],
        luma: bool,
        screen: bool,
    )
        requires
            neighbours::is_bands(old(self)@),
            side <= 128,
            neighbours::is_levels(grids@[0]@),
            neighbours::is_levels(grids@[1]@),
            neighbours::is_levels(grids@[2]@),
        ensures
            neighbours::is_bands(final(self)@),
            final(self)@ == neighbours::after_planes(
                old(self)@,
                mi.0 as int,
                mi.1 as int,
                side as int,
                neighbours::states_of(grids@[0]@, grids@[1]@, grids@[2]@),
                luma,
                screen,
            ),
    {
        if screen {
            self.record_palettes(mi, side);
        }
        let states = PlaneStates {
            y: neighbours::neighbour_state(&grids[0]),
            u: neighbours::neighbour_state(&grids[1]),
            v: neighbours::neighbour_state(&grids[2]),
        };
        change_band(
            &mut self.above,
            mi.1,
            side / 4,
            &Change::Planes { edge: self.mi_cols, side, states, luma },
        );
        change_band(
            &mut self.left,
            mi.0,
            side / 4,
            &Change::Planes { edge: self.mi_rows, side, states, luma },
        );
    }

    /// The same with luma among the planes.
    pub fn record_mi(
        &mut self,
        mi: (usize, usize),
        side: usize,
        grids: &[Vec<i32>; 3],
        screen: bool,
    )
        requires
            neighbours::is_bands(old(self)@),
            side <= 128,
            neighbours::is_levels(grids@[0]@),
            neighbours::is_levels(grids@[1]@),
            neighbours::is_levels(grids@[2]@),
        ensures
            neighbours::is_bands(final(self)@),
            final(self)@ == neighbours::after_planes(
                old(self)@,
                mi.0 as int,
                mi.1 as int,
                side as int,
                neighbours::states_of(grids@[0]@, grids@[1]@, grids@[2]@),
                true,
                screen,
            ),
    {
        self.record_mi_planes(mi, side, grids, true, screen);
    }

    /// Leaves a block's luma mode in `count` 16x16 blocks across and down.
    pub fn record_mode(&mut self, at: (usize, usize), count: usize, mode: usize)
        requires
            neighbours::is_bands(old(self)@),
            at.0 + count <= old(self)@.left_mode.len(),
            at.1 + count <= old(self)@.above_mode.len(),
            mode < INTRA_MODES,
        ensures
            neighbours::is_bands(final(self)@),
            final(self)@ == neighbours::after_mode(
                old(self)@,
                at.0 as int,
                at.1 as int,
                count as int,
                mode,
            ),
    {
        set_modes(&mut self.above_mode, at.1, count, mode);
        set_modes(&mut self.left_mode, at.0, count, mode);
    }

    /// Leaves one coded block behind in every 16x16 block and every unit it
    /// covers.
    pub fn record_planes(
        &mut self,
        at: (usize, usize),
        side: usize,
        mode: usize,
        grids: &[Vec<i32>; 3],
        luma: bool,
        screen: bool,
    )
        requires
            neighbours::is_bands(old(self)@),
            side <= 128,
            at.0 + side as int / 16 <= old(self)@.left_mode.len(),
            at.1 + side as int / 16 <= old(self)@.above_mode.len(),
            mode < INTRA_MODES,
            neighbours::is_levels(grids@[0]@),
            neighbours::is_levels(grids@[1]@),
            neighbours::is_levels(grids@[2]@),
        ensures
            neighbours::is_bands(final(self)@),
            final(self)@ == neighbours::after_planes(
                neighbours::after_mode(
                    old(self)@,
                    at.0 as int,
                    at.1 as int,
                    side as int / 16,
                    mode,
                ),
                4 * at.0,
                4 * at.1,
                side as int,
                neighbours::states_of(grids@[0]@, grids@[1]@, grids@[2]@),
                luma,
                screen,
            ),
    {
        self.record_mode(at, side / 16, mode);
        self.record_mi_planes((4 * at.0, 4 * at.1), side, grids, luma, screen);
    }

    /// The same with luma among the planes.
    pub fn record(
        &mut self,
        at: (usize, usize),
        side: usize,
        mode: usize,
        grids: &[Vec<i32>; 3],
        screen: bool,
    )
        requires
            neighbours::is_bands(old(self)@),
            side <= 128,
            at.0 + side as int / 16 <= old(self)@.left_mode.len(),
            at.1 + side as int / 16 <= old(self)@.above_mode.len(),
            mode < INTRA_MODES,
            neighbours::is_levels(grids@[0]@),
            neighbours::is_levels(grids@[1]@),
            neighbours::is_levels(grids@[2]@),
        ensures
            neighbours::is_bands(final(self)@),
            final(self)@ == neighbours::after_planes(
                neighbours::after_mode(
                    old(self)@,
                    at.0 as int,
                    at.1 as int,
                    side as int / 16,
                    mode,
                ),
                4 * at.0,
                4 * at.1,
                side as int,
                neighbours::states_of(grids@[0]@, grids@[1]@, grids@[2]@),
                true,
                screen,
            ),
    {
        self.record_planes(at, side, mode, grids, true, screen);
    }
}

} // verus!
