//! The transforms between a block's residual and its coefficients.
pub mod adst;
pub mod cosine;
pub mod dct;
pub mod flat;
pub mod forward;
pub mod inverse;
pub mod lane;
pub mod negation;
pub mod opposite;
pub mod range_laws;
pub mod reconstruct;
pub mod tx_type;
pub mod wht;
