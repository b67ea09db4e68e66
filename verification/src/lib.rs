//! Extraction of a byte stream hidden in the least-significant bits of the
//! red, green and blue channels of an image.
//!
//! The pixels are visited column by column, each column from top to bottom,
//! and in each pixel red, green, blue. Every visited channel gives one bit;
//! eight bits make one byte, the first bit being the lowest. A
//! [`ByteReader`] hands the bytes out on demand and remembers where it
//! stopped, so that a stream can be drawn in pieces of any size.

pub mod bits;
pub mod byte_reader;
pub mod grid;
pub mod laws;
pub mod sink;
pub mod stream;


pub use crate::byte_reader::ByteReader;
pub use crate::grid::PixelGrid;
