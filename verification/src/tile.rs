//! The payload of an AV1 tile, as the sequence of symbols an entropy coder
//! is handed.
//!
//! Every writer here states exactly which [`ops::Op`]s it appends, and every
//! context it picks a table by is derived from what the blocks above and to
//! the left left behind ([`neighbours`]). Turning the sequence into bytes is
//! the arithmetic coder's part alone.
pub mod block_laws;
pub mod blocks;
pub mod census;
pub mod checks;
pub mod children;
pub mod coefficient_laws;
pub mod coeffs;
pub mod color_map;
pub mod colours;
pub mod context;
pub mod context_laws;
pub mod error;
pub mod fixtures;
pub mod frame_laws;
pub mod golomb;
pub mod inter_block;
pub mod inter_frame;
pub mod inter_read_back;
pub mod inter_tile_read_back;
pub mod intra;
pub mod intra_read_back;
pub mod key_block;
pub mod key_frame;
pub mod key_read_back;
pub mod key_tile;
pub mod key_tile_read_back;
pub mod layout;
pub mod levels;
pub mod motion;
pub mod motion_read_back;
pub mod neighbour_laws;
pub mod neighbours;
pub mod ops;
pub mod palette;
pub mod palette_bands;
pub mod palette_laws;
pub mod palette_read_back;
pub mod plan_laws;
pub mod plans;
pub mod price;
pub mod rdoq;
pub mod read_back;
pub mod record;
pub mod reference_laws;
pub mod refs;
pub mod refs_read_back;
pub mod residual;
pub mod residual_read_back;
pub mod scan;
pub mod state;
pub mod syntax_laws;
pub mod tile_read_back;
pub mod tiles;
pub mod unit_laws;
pub mod units_read_back;
pub mod vector_read_back;
pub mod vectors;
