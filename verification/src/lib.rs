//! A verified decoder for the raw Snappy block format.
//!
//! A block is a header, which gives the length of the decompressed bytes,
//! followed by elements. An element is either a literal, whose bytes are
//! written out in the block, or a copy, which repeats bytes that have already
//! been decompressed.
//!
//! [`Decoder`] decompresses blocks. The `block` module says, over mathematical
//! sequences, what every block decompresses to and which error is owed for a
//! block that cannot be decompressed; the contract of the decoder is stated
//! over it. The `element` module describes blocks from the side of a compressor,
//! and the `laws`, `header_laws` and `block_laws` modules hold what follows for the
//! library as a whole, for headers and for elements.
#![allow(unused_imports)]
use vstd::prelude::*;

pub mod block;
pub mod block_laws;
pub mod bytes;
mod copy;
pub mod decompress;
pub mod element;
pub mod error;
pub mod header_laws;
pub mod laws;
pub mod tag;

pub use decompress::{decompress_len, Decoder};
pub use error::Error;

verus! {

/// The length, in bytes, that a decompressed block has at most.
pub const MAX_INPUT_SIZE: u64 = 0xffff_ffff;

} // verus!
