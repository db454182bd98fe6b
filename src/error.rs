use vstd::prelude::*;

verus! {

/// Why a compression or a decompression did not produce a result.
#[derive(Debug, Clone, Copy, PartialEq, Eq, Structural)]
pub enum CodecError {
    /// Compression was asked of an empty buffer: no tree can be built.
    EmptyInput,
    /// A serialised tree's size fields disagree with the bytes present,
    /// or the artifact is too short to hold its header.
    FormatError,
    /// The packed body ends before the recorded number of bytes was decoded.
    TruncatedStream,
    /// A subtree's serialised payload does not fit the 16-bit size field.
    OversizedSubtree,
}

} // verus!
