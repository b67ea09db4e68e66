//! The bit sink: a little-endian `bitstream_io::BitWriter` over a `Vec<u8>`.
//!
//! The writer collects the bits it is given and appends one byte to its
//! vector for every eight of them. Verus does not look inside it: what it
//! does is stated here, on the sequence of bits that it has been given.

use crate::bits::{packed_bytes, zero_padded};
use bitstream_io::BitWrite;
use vstd::prelude::*;

verus! {

/// A little-endian bit writer that fills a vector of bytes.
#[verifier::external_body]
pub struct BitSink {
    inner: bitstream_io::BitWriter<Vec<u8>, bitstream_io::LittleEndian>,
}

/// The bits that the sink has been given since it was opened, in the order
/// in which they came, the zero bits of an alignment included.
pub uninterp spec fn sink_bits(sink: BitSink) -> Seq<bool>;

impl BitSink {
    /// `BitWriter::endian` over an empty vector, with `LittleEndian`: a sink
    /// that has been given no bit yet.
    #[verifier::external_body]
    pub(crate) fn new() -> (sink: BitSink)
        ensures
            sink_bits(sink) == Seq::<bool>::empty(),
    {
        BitSink { inner: bitstream_io::BitWriter::endian(Vec::new(), bitstream_io::LittleEndian) }
    }

    /// `BitWrite::write_bit`: the bit is added behind those already given.
    /// Writing into a vector cannot fail; were it to, the message names the
    /// channel and the pixel at which it happened.
    #[verifier::external_body]
    pub(crate) fn push_bit(&mut self, bit: bool, channel: usize, column: u32, row: u32)
        ensures
            sink_bits(*final(self)) == sink_bits(*old(self)).push(bit),
    {
        self.inner.write_bit(bit).map_err(
            |_| format!("Color {} on Pixel({}, {})", channel, column, row),
        ).unwrap()
    }

    /// `BitWrite::byte_aligned`: whether the bits given so far make whole
    /// bytes.
    #[verifier::external_body]
    pub(crate) fn is_aligned(&self) -> (aligned: bool)
        ensures
            aligned == (sink_bits(*self).len() % 8 == 0),
    {
        self.inner.byte_aligned()
    }

    /// `BitWrite::byte_align`: zero bits are added until the bits make whole
    /// bytes; none where they already do.
    #[verifier::external_body]
    pub(crate) fn align(&mut self)
        ensures
            sink_bits(*final(self)) == zero_padded(sink_bits(*old(self))),
    {
        self.inner.byte_align().map_err(|_| "a vector took no byte").unwrap()
    }

    /// `BitWriter::into_writer`: the vector, which holds one byte for every
    /// eight bits given, the first bit of each eight as the lowest. Bits
    /// behind the last whole byte are dropped.
    #[verifier::external_body]
    pub(crate) fn into_bytes(self) -> (bytes: Vec<u8>)
        ensures
            bytes@ == packed_bytes(sink_bits(self)),
    {
        self.inner.into_writer()
    }
}

} // verus!
