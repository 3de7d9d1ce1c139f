//! Codec for the LZSS-11 binary compression format (magic byte 0x11):
//! `compress` turns raw bytes into an encoded stream, `decompress` turns an
//! encoded stream back into raw bytes or reports exactly why it is corrupt.
//! The round trip is proved: every stream `compress` produces decompresses
//! back to the original input.

use vstd::prelude::*;

pub mod codec;
pub mod comp;
pub mod decomp;
pub mod searcher;
pub mod tokens;
pub mod writer;

pub use codec::LzssCode;
pub use comp::compress;
pub use decomp::{decompress, get_or_oob_err, DecompressError};
pub use searcher::{make_hash, MatchSearcher};
pub use writer::Lzss11Writer;

verus! {

/// Maximum back-reference distance the on-wire format can carry (12 bits).
pub const TOTAL_BACKREF_POS: u32 = 0xFFF;

/// Maximum back-reference length the on-wire format can carry.
pub const TOTAL_BACKREF_LEN: u32 = 0x10110;

} // verus!
