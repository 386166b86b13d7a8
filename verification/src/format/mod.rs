//! On-disk formats. Two files, one discipline:
//!
//! - [`base`]: `graph.base`, the immutable snapshot: checksummed 128-byte
//!   header, section directory, 64-byte-aligned sections, and a whole-file
//!   xxh3 trailer.
//! - [`wal`]: `graph.wal`, the append-only op log: checksummed frames whose
//!   replay stops at the first torn frame.
use vstd::prelude::*;

pub mod base;
pub mod wal;

verus! {

/// Section alignment inside `graph.base`.
pub const ALIGN: usize = 64;

/// Directory entry width (kind u16, flags u16, reserved u32, offset u64,
/// length u64, xxh3 u64).
pub const DIR_ENTRY_LEN: usize = 32;

/// Whole-file trailer width (xxh3 of everything before it).
pub const TRAILER_LEN: usize = 8;

} // verus!
