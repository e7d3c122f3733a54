//! zen_jpeg: a baseline JPEG (JFIF) decoder whose logic is verified with Verus.
//!
//! The input is a byte buffer; `Decoder::decode` returns the raster (grayscale or RGB) or the
//! first error met.
use vstd::prelude::*;

pub mod bitstream;
pub mod block;
pub mod color;
pub mod dct;
pub mod decoder;
pub mod ec;
pub mod error;
pub mod markers;
pub mod segments;
pub mod util;

pub use crate::decoder::{Decoder, Raster};
pub use crate::error::DecodeError;

verus! {

} // verus!
