use vstd::prelude::*;

verus! {

/// Every way in which extraction or symbol counting can fail on
/// malformed input. Each variant is tied to exactly one condition in
/// the contracts of the functions that return it.
#[derive(Clone, Copy, Debug, PartialEq, Eq)]
pub enum ExtractError {
    /// Neither the sliding-window magic nor the block-format magic occurs
    /// in the input buffer.
    NoCompressionMagic,
    /// The sliding-window magic was found, but fewer than 24 bytes of
    /// buffer follow it, so no compression header fits there.
    ImageTooSmallForHeader,
    /// The embedded executable magic is absent, or sits at offset 0 where
    /// no padding byte can precede it, so no compressed payload exists.
    NoKernelcacheMacho,
    /// The compressed stream ended before the declared compressed size
    /// was consumed.
    TruncatedCompressedStream,
    /// Decoding produced a number of bytes different from the
    /// uncompressed size declared in the header.
    UncompressedSizeMismatch,
    /// The block-format decoder rejected the stream.
    LzfseDecodeFailed,
    /// The decoded image could not be parsed as an executable.
    MachoParseFailed,
}

} // verus!
