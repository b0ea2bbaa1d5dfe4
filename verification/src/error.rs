//! The error type shared by every decoding routine.

use vstd::prelude::*;

verus! {

/// Everything that can go wrong while decoding a DEFLATE stream.
///
/// `UnexpectedEof` is the input-exhaustion category (the in-memory analogue
/// of a read failure on the byte source); every other variant reports a
/// corrupt or invalid compressed stream.
#[derive(Clone, Copy, Debug, PartialEq, Eq, Structural)]
pub enum Error {
    /// The compressed input ended before the stream was complete.
    UnexpectedEof,
    /// A stored block's `NLEN` field is not the ones' complement of `LEN`.
    StoredLengthMismatch { len: u16, nlen: u16 },
    /// A back-reference reaches further back than the bytes produced so far.
    DistanceTooFar { available: usize, distance: u16 },
    /// A block header carried the reserved block type `11`.
    ReservedBlockType,
    /// A Huffman code-length set is over-subscribed or otherwise malformed.
    InvalidHuffmanTable,
    /// A bit sequence matches no valid code, or decodes to a symbol the
    /// format leaves undefined.
    InvalidSymbol,
}

impl Error {
    /// True for the format-error category, false for the input-exhaustion
    /// (I/O-like) category.
    pub open spec fn spec_is_format(self) -> bool {
        self != Error::UnexpectedEof
    }

    /// Distinguishes corrupt-stream errors from input exhaustion.
    pub fn is_format(&self) -> (r: bool)
        ensures
            r == self.spec_is_format(),
    {
        !matches!(self, Error::UnexpectedEof)
    }
}

} // verus!
