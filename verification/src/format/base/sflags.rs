//! Segment flags.
use vstd::prelude::*;

verus! {

/// The byte range is unknown (heading-path anchor only).
pub const NO_RANGE: u8 = 1;

/// Importance was set by an enricher; preserved across re-ingest while the
/// owning document's content hash is unchanged.
pub const LLM_SCORED: u8 = 2;

} // verus!
