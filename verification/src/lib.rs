//! A verified writer for an immutable, append-only columnar time-series file.
//!
//! A file is written once, in four strictly sequential phases, and never
//! mutated afterwards:
//!
//! ```text
//! | Header  | Blocks  | Index   | Footer  |
//! | 5 bytes | n bytes | n bytes | filter + 8 bytes |
//! ```
//!
//! The header is a four-byte big-endian magic number followed by a one-byte
//! format version.  The blocks region holds, per chunk, a CRC32 of the encoded
//! timestamps, the encoded timestamps, a CRC32 of the encoded values and the
//! encoded values.  The index region holds, per field, a fixed-width index
//! record followed by one fixed-width block-meta record per chunk.  The footer
//! holds the membership filter's raw bytes and the absolute offset at which
//! the index region starts.

use vstd::prelude::*;

pub mod bloom;
pub mod block;
pub mod codec;
pub mod index;
pub mod sink;
pub mod writer;

verus! {

/// Total size of the fixed file header in bytes.
pub const HEADER_LEN: u64 = 5;

/// Magic number identifying the file format, stored big-endian.
pub const TSM_MAGIC: u32 = 0x1346613;

/// Format version byte written right after the magic number.
pub const VERSION: u8 = 1;

/// Size in bytes of one index record: field id (8), value type (1), count (2).
pub const INDEX_META_SIZE: usize = 11;

/// Size in bytes of one block-meta record: five big-endian 8-byte integers.
pub const BLOCK_META_SIZE: usize = 40;

/// Number of bits in the membership filter; fixed when a file is created.
pub const BLOOM_FILTER_BITS: u64 = 64;

/// Maximum number of points per chunk.
pub const MAX_BLOCK_VALUES: usize = 10000;

/// The single failure kind of the writer: any I/O or encoding failure wraps
/// a human-readable reason.  A failure is terminal for the current file.
#[derive(Debug)]
pub enum TsmError {
    WriteTsmErr { reason: String },
}

impl TsmError {
    /// Builds the write-failure error from a reason message.
    pub fn write_err(reason: &str) -> (e: TsmError)
        ensures
            e matches TsmError::WriteTsmErr { reason: r } && r@ == reason@,
    {
        TsmError::WriteTsmErr { reason: reason.to_owned() }
    }
}

} // verus!
