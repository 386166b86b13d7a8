//! Convenient single-line import of the working set.
pub use crate::{
    Config, DocRecord, Durability, EdgeType, Error, Hit, LendingIterator, NodeId, NodeRef, Outcome,
    QueryOpts, Result, SegmentRecord, Snapshot, TokenBudget, Touch, TtlConfig, UrlKey, Writer,
};
