//! Pieces of an AV1 encoder and decoder, each with a contract that says exactly
//! what it computes: the transforms and the quantizer's steps, the payload of a
//! tile as the sequence of symbols an entropy coder is handed, local warp
//! prediction, wedge masks, and the decode timeline.
pub mod bits;
pub mod quant;
pub mod tile;
pub mod timeline;
pub mod transform;
pub mod warp;
pub mod wedge;
