//! Local warp prediction: an affine model fitted to the motion of the
//! neighbouring blocks, and the filter that predicts a block through it.
pub mod affine;
pub mod affine_laws;
pub mod filter;
pub mod filter_laws;
pub mod model;
pub mod samples;
pub mod taps;
