//! A tile while it is written.
use crate::tile::error::TileError;
use crate::tile::neighbours;
use crate::tile::neighbours::{Bands, Neighbours};
use crate::tile::ops::Op;
use vstd::prelude::*;

verus! {

/// What a coded block leaves for the candidate vectors of later ones: a square
/// of 4x4 units and what it was predicted from.
#[derive(Clone, Copy, Debug, PartialEq, Eq)]
pub struct MiRecord {
    /// Its first unit row.
    pub mi_row: usize,
    /// Its first unit column.
    pub mi_col: usize,
    /// Its side in units.
    pub size: usize,
    /// Whether it offers a vector.
    pub is_inter: bool,
    /// The reference of the vector.
    pub ref_frame: i8,
    /// The second reference.
    pub ref_frame1: Option<i8>,
    /// The vector.
    pub mv: (i32, i32),
    /// The vector into the second reference.
    pub mv1: (i32, i32),
    /// Whether a difference was coded for it.
    pub is_new_mv: bool,
}

/// A tile while it is written.
pub struct Tile {
    /// The symbols so far.
    pub ops: Vec<Op>,
    /// What the blocks left behind.
    pub bands: Neighbours,
    /// The superblock whose CDEF index was written last.
    pub cdef_last: Option<u64>,
    /// The current quantizer.
    pub cur_q: i32,
    /// What the blocks offer the candidate vectors of later ones.
    pub records: Vec<MiRecord>,
    /// How many blocks asked for candidate vectors.
    pub asked: usize,
}

/// A tile while it is written, as values.
#[verifier::ext_equal]
pub struct TileView {
    /// The symbols so far.
    pub ops: Seq<Op>,
    /// What the blocks left behind.
    pub bands: Bands,
    /// The superblock whose CDEF index was written last.
    pub cdef_last: Option<u64>,
    /// The current quantizer.
    pub cur_q: int,
    /// What the blocks offer the candidate vectors of later ones.
    pub records: Seq<MiRecord>,
    /// How many blocks asked for candidate vectors.
    pub asked: int,
}

impl View for Tile {
    type V = TileView;

    open spec fn view(&self) -> TileView {
        TileView {
            ops: self.ops@,
            bands: self.bands@,
            cdef_last: self.cdef_last,
            cur_q: self.cur_q as int,
            records: self.records@,
            asked: self.asked as int,
        }
    }
}

/// A tile after a step, and what stopped it there, if anything did.
#[verifier::ext_equal]
pub struct Step {
    /// The tile.
    pub tile: TileView,
    /// What stopped the writer.
    pub fault: Option<TileError>,
}

/// A tile that goes on.
pub open spec fn going(tile: TileView) -> Step {
    Step { tile, fault: None }
}

/// A tile that stops.
pub open spec fn stopped(tile: TileView, e: TileError) -> Step {
    Step { tile, fault: Some(e) }
}

/// A tile with more symbols.
pub open spec fn said(t: TileView, ops: Seq<Op>) -> TileView {
    TileView { ops: t.ops + ops, ..t }
}

/// A tile with other bands.
pub open spec fn banded(t: TileView, bands: Bands) -> TileView {
    TileView { bands, ..t }
}

/// Whether a tile is in order.
pub open spec fn is_tile(t: TileView) -> bool {
    &&& neighbours::is_bands(t.bands)
    &&& 0 <= t.cur_q <= 255
}

/// Whether two sets of bands belong to the same tile of the same frame.
pub open spec fn same_frame(a: Bands, b: Bands) -> bool {
    &&& a.above.len() == b.above.len()
    &&& a.left.len() == b.left.len()
    &&& a.above_mode.len() == b.above_mode.len()
    &&& a.left_mode.len() == b.left_mode.len()
    &&& a.mi_cols == b.mi_cols
    &&& a.mi_rows == b.mi_rows
    &&& a.row0 == b.row0
    &&& a.col0 == b.col0
}

/// Whether two tiles are the same but for their symbols.
pub open spec fn same_state(s: TileView, t: TileView) -> bool {
    t == TileView { ops: t.ops, ..s }
}

/// Whether a step did what a description of it says.
pub open spec fn is_step(
    before: TileView,
    after: TileView,
    r: Result<(), TileError>,
    step: Step,
) -> bool {
    &&& after == step.tile
    &&& r == match step.fault {
        None => Ok::<(), TileError>(()),
        Some(e) => Err::<(), TileError>(e),
    }
    &&& is_tile(after)
    &&& same_frame(before.bands, after.bands)
}

} // verus!
