//! LZW compression with variable-width codes and dictionary reset, with a
//! verified bit queue, encoder and decoder, and the block framing used when
//! the compressed stream is enciphered.
use vstd::prelude::*;

pub mod bitbuf;
pub mod dict;
pub mod compress;
pub mod decompress;
pub mod lzw;
pub mod roundtrip;

verus! {

/// What can go wrong in the codec and its framing.
#[derive(Debug, Clone, Copy, PartialEq, Eq, Structural)]
pub enum LzwError {
    /// The greatest code width is outside 9 to 32 bits.
    InvalidMaxBits,
    /// A code read from the stream is above the next free index, or the
    /// stream opens with the code of an entry not yet made.
    CorruptCode,
    /// An enciphered stream whose length past the initialisation vector is
    /// not a positive multiple of the block length.
    CorruptCipher,
}

/// Whether `max_bits` is a greatest code width the codec accepts.
pub open spec fn valid_max_bits(max_bits: nat) -> bool {
    9 <= max_bits <= 32
}

} // verus!
