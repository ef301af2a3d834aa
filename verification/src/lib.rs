//! Decoder for IFF-family tagged-chunk binary containers (ILBM raster images).
//!
//! The library parses a byte buffer into a forest of chunks, decodes the
//! typed payloads (bitmap header, palette, cycling range, pixel body),
//! decompresses ByteRun1-packed pixel data and transposes bit-plane rows
//! into one index byte per pixel.  Every executable function is verified
//! against the specification functions of `model`, `rle`, `planar` and
//! `enumeration`.

pub mod byte_order;
pub mod enumeration;
pub mod errors;
pub mod iff;
pub mod model;
pub mod planar;
pub mod rle;

pub use byte_order::i16_from_be_bytes;
pub use byte_order::u16_from_be_bytes;
pub use byte_order::u32_from_be_bytes;
