//! SHDLC frame codec for a particulate-matter sensor on a serial link.
//!
//! The library covers the pure framing layer: byte stuffing and unstuffing,
//! the one's-complement checksum, assembling outbound (MOSI) command frames,
//! splitting a raw byte stream into delimited frames, and decoding inbound
//! (MISO) response frames.

use vstd::prelude::*;

pub mod shdlc;
pub mod stream;

verus! {

pub fn add(left: usize, right: usize) -> (sum: usize)
    requires
        left + right <= usize::MAX,
    ensures
        sum == left + right,
{
    left + right
}

} // verus!
