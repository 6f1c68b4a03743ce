//! The palettes that blocks leave behind: their colours ascend.
use crate::tile::blocks::BlockCoeffs;
use crate::tile::intra;
use crate::tile::intra_read_back;
use crate::tile::neighbours;
use crate::tile::neighbours::{Bands, Cell, Change, Pending};
use crate::tile::palette;
use crate::tile::palette_read_back;
use crate::tile::plans::FramePlan;
use crate::tile::residual;
use crate::tile::residual::{LumaUnits, Written};
use vstd::prelude::*;

verus! {

/// Whether the palettes of a unit ascend.
pub open spec fn is_cell_ordered(c: Cell) -> bool {
    &&& palette::ascends(palette::palette_of(c.palette_size, c.palette_colors))
    &&& palette::ascends(palette::palette_of(c.palette_uv_size, c.palette_uv_colors))
}

/// Whether a palette to be left behind ascends.
pub open spec fn is_pending_ordered(p: Pending) -> bool {
    p matches Some(x) ==> palette::ascends(palette::palette_of(x.0, x.1))
}

/// Whether the palettes of a band ascend.
pub open spec fn is_band_ordered(band: Seq<Cell>) -> bool {
    forall|i: int| 0 <= i < band.len() ==> is_cell_ordered(#[trigger] band[i])
}

/// Whether every palette the blocks left, or are about to leave, ascends.
#[verifier::opaque]
pub open spec fn are_ordered(b: Bands) -> bool {
    &&& is_band_ordered(b.above)
    &&& is_band_ordered(b.left)
    &&& is_pending_ordered(b.pending)
    &&& is_pending_ordered(b.pending_uv)
}

/// Whether what a block leaves has palettes that ascend, or none.
spec fn is_change_ordered(change: Change) -> bool {
    match change {
        Change::Palette(size, colors) | Change::PaletteUv(size, colors) => palette::ascends(
            palette::palette_of(size, colors),
        ),
        _ => true,
    }
}

proof fn lemma_empty_ascends(colors: [u16; 8])
    ensures
        palette::ascends(palette::palette_of(0, colors)),
{
    assert(palette::palette_of(0, colors).len() == 0);
}

proof fn lemma_changed(band: Seq<Cell>, lo: int, count: int, change: Change)
    requires
        is_band_ordered(band),
        is_change_ordered(change),
    ensures
        is_band_ordered(neighbours::changed(band, lo, count, change)),
{
    let after = neighbours::changed(band, lo, count, change);
    assert forall|i: int| 0 <= i < after.len() implies is_cell_ordered(#[trigger] after[i]) by {
        assert(is_cell_ordered(band[i]));
        lemma_empty_ascends(band[i].palette_colors);
        lemma_empty_ascends(band[i].palette_uv_colors);
    }
}

proof fn lemma_both_changed(b: Bands, mi: (int, int), count: int, change: Change)
    requires
        are_ordered(b),
        is_change_ordered(change),
    ensures
        are_ordered(neighbours::both_changed(b, mi.0, mi.1, count, change)),
{
    reveal(are_ordered);
    lemma_changed(b.above, mi.1, count, change);
    lemma_changed(b.left, mi.0, count, change);
}

/// The caches that a block's colours are predicted from ascend.
pub proof fn lemma_caches(b: Bands, mi: (int, int))
    requires
        are_ordered(b),
        0 <= mi.0 < b.left.len(),
        0 <= mi.1 < b.above.len(),
    ensures
        intra_read_back::caches_ascend(b, mi),
{
    reveal(are_ordered);
    assert(is_cell_ordered(b.above[mi.1]));
    assert(is_cell_ordered(b.left[mi.0]));
    palette_read_back::caches_ascend(b, mi.0, mi.1);
}

/// A tile starts without palettes, and so does the left column of a row.
pub proof fn lemma_fresh(cols: int, rows: int, mi_cols: int, mi_rows: int, row0: int, col0: int)
    ensures
        are_ordered(
            (Bands { row0, col0, ..neighbours::fresh(cols, rows, mi_cols, mi_rows) }),
        ),
{
    reveal(are_ordered);
    lemma_empty_ascends(neighbours::NO_COLORS);
}

pub proof fn lemma_row_started(b: Bands)
    requires
        are_ordered(b),
    ensures
        are_ordered(neighbours::row_started(b)),
{
    reveal(are_ordered);
    let after = neighbours::row_started(b);
    assert forall|i: int| 0 <= i < after.left.len() implies is_cell_ordered(
        #[trigger] after.left[i],
    ) by {
        lemma_empty_ascends(b.left[i].palette_colors);
        lemma_empty_ascends(neighbours::NO_COLORS);
    }
}

/// The palettes of a block that can be coded ascend.
pub proof fn lemma_pending(plan: FramePlan, b: Bands, block: BlockCoeffs, side: int, cfl: bool)
    requires
        are_ordered(b),
        intra::is_intra(plan, block, side, cfl),
    ensures
        are_ordered(intra::with_pending(plan, b, block)),
{
    reveal(are_ordered);
}

pub proof fn lemma_mode(b: Bands, at: (int, int), count: int, mode: usize)
    requires
        are_ordered(b),
    ensures
        are_ordered(neighbours::after_mode(b, at.0, at.1, count, mode)),
{
    reveal(are_ordered);
}

/// A block's palettes and coefficients leave ascending palettes.
pub proof fn lemma_planes(
    b: Bands,
    mi: (int, int),
    side: int,
    states: neighbours::PlaneStates,
    luma: bool,
    screen: bool,
)
    requires
        are_ordered(b),
    ensures
        are_ordered(neighbours::after_planes(b, mi.0, mi.1, side, states, luma, screen)),
{
    reveal(are_ordered);
    lemma_empty_ascends(neighbours::NO_COLORS);
    let y = neighbours::both_changed(
        b,
        mi.0,
        mi.1,
        side / 4,
        neighbours::palette_change(b.pending),
    );
    let uv = neighbours::both_changed(
        y,
        mi.0,
        mi.1,
        side / 4,
        neighbours::palette_uv_change(b.pending_uv),
    );
    lemma_both_changed(b, mi, side / 4, neighbours::palette_change(b.pending));
    lemma_both_changed(y, mi, side / 4, neighbours::palette_uv_change(b.pending_uv));
    let p = if screen {
        neighbours::after_palettes(b, mi.0, mi.1, side / 4)
    } else {
        b
    };
    lemma_changed(
        p.above,
        mi.1,
        side / 4,
        neighbours::planes_change(b.mi_cols, side, states, luma),
    );
    lemma_changed(
        p.left,
        mi.0,
        side / 4,
        neighbours::planes_change(b.mi_rows, side, states, luma),
    );
}

/// What a block leaves besides palettes keeps them.
pub proof fn lemma_plain_change(b: Bands, mi: (int, int), count: int, change: Change)
    requires
        are_ordered(b),
        !(change is Palette),
        !(change is PaletteUv),
    ensures
        are_ordered(neighbours::both_changed(b, mi.0, mi.1, count, change)),
{
    lemma_both_changed(b, mi, count, change);
}

proof fn lemma_unit(plan: FramePlan, w: Written, l: LumaUnits, r: int, c: int)
    requires
        are_ordered(w.bands),
    ensures
        are_ordered(residual::unit_written(plan, w, l, r, c).bands),
{
    reveal(are_ordered);
    let unit = residual::unit_grid(l.grid, l.side, l.tx, r, c);
    let state = neighbours::state_of(unit);
    lemma_changed(
        w.bands.above,
        l.mi_c + c * (l.tx / 4),
        l.tx / 4,
        Change::Luma { edge: w.bands.mi_cols as usize, state },
    );
    lemma_changed(
        w.bands.left,
        l.mi_r + r * (l.tx / 4),
        l.tx / 4,
        Change::Luma { edge: w.bands.mi_rows as usize, state },
    );
}

proof fn lemma_unit_row(plan: FramePlan, w: Written, l: LumaUnits, r: int, count: int)
    requires
        are_ordered(w.bands),
    ensures
        are_ordered(residual::unit_row_written(plan, w, l, r, count).bands),
    decreases count,
{
    if count > 0 {
        lemma_unit_row(plan, w, l, r, count - 1);
        lemma_unit(
            plan,
            residual::unit_row_written(plan, w, l, r, count - 1),
            l,
            r,
            count - 1,
        );
    }
}

proof fn lemma_unit_rows(plan: FramePlan, w: Written, l: LumaUnits, count: int)
    requires
        are_ordered(w.bands),
    ensures
        are_ordered(residual::unit_rows_written(plan, w, l, count).bands),
    decreases count,
{
    if count > 0 {
        lemma_unit_rows(plan, w, l, count - 1);
        lemma_unit_row(
            plan,
            residual::unit_rows_written(plan, w, l, count - 1),
            l,
            count - 1,
            l.side / l.tx,
        );
    }
}

/// A block's luma transforms keep the palettes.
pub proof fn lemma_units(plan: FramePlan, w: Written, l: LumaUnits)
    requires
        are_ordered(w.bands),
    ensures
        are_ordered(residual::luma_written(plan, w, l).bands),
{
    reveal(residual::luma_written);
    lemma_unit_rows(plan, w, l, l.side / l.tx);
}

} // verus!
