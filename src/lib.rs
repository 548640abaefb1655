//! A lossless RGBA image codec for the QOI ("Quite OK Image") format.

pub mod pixel;
pub mod op;
pub mod decoder;
pub mod encoder;
pub mod laws;

pub use pixel::{Pixel, hash, wrap_add, wrap_sub, wrap_mul};
pub use op::QoiOp;
pub use decoder::{Decoder, Image};
pub use encoder::Encoder;


