//! Node flags.
use vstd::prelude::*;

verus! {

/// Survives eviction sweeps and is exempt from TTL-driven eviction.
pub const PINNED: u16 = 1;

/// Known only as an edge target; never ingested (no URL label yet).
pub const STUB: u16 = 2;

/// Observed gone at the source; retained for history, excluded from due-lists
/// and default query results.
pub const TOMBSTONE: u16 = 4;

} // verus!
