//! Edge flags.
use vstd::prelude::*;

verus! {

/// Set = enrichment tier (survives crawl-tier replacement); clear = crawl
/// tier.
pub const TIER_ENRICH: u8 = 1;

/// Set = inferred (heuristic or enrichment); clear = extracted from source.
pub const INFERRED: u8 = 2;

} // verus!
