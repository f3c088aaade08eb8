//! The errors that decompression reports.
use vstd::prelude::*;

verus! {

/// Why a block could not be decompressed.
#[derive(Clone, Copy, Debug, PartialEq, Eq, Structural)]
pub enum Error {
    /// The header asks for more bytes than a block may decompress to.
    TooBig {
        /// The decompressed length that the header gives.
        given: u64,
        /// The greatest decompressed length that is permitted.
        max: u64,
    },
    /// The output buffer cannot hold the decompressed bytes.
    BufferTooSmall {
        /// The length of the output buffer.
        given: u64,
        /// The length that the output buffer needs to have at least.
        min: u64,
    },
    /// There is no input at all.
    Empty,
    /// The header is not a variable-length integer of at most 64 bits.
    Header,
    /// The elements decompress to fewer bytes than the header gives.
    HeaderMismatch {
        /// The length that the header gives.
        expected_len: u64,
        /// The length of what the elements decompress to.
        got_len: u64,
    },
    /// A literal runs past the end of the input or of the output.
    Literal {
        /// The number of bytes that the literal needs, or four if the bytes that
        /// hold its length are cut short.
        len: u64,
        /// The number of bytes left in the input.
        src_len: u64,
        /// The number of bytes left in the output.
        dst_len: u64,
    },
    /// The offset of a copy runs past the end of the input.
    CopyRead {
        /// The number of bytes that the offset needs.
        len: u64,
        /// The number of bytes left in the input.
        src_len: u64,
    },
    /// A copy runs past the end of the output.
    CopyWrite {
        /// The number of bytes that the copy appends.
        len: u64,
        /// The number of bytes left in the output.
        dst_len: u64,
    },
    /// A copy starts outside of what has been decompressed so far.
    Offset {
        /// The distance that the copy reaches back.
        offset: u64,
        /// The number of bytes decompressed so far.
        dst_pos: u64,
    },
}

} // verus!
