//! An embedded, persistent knowledge graph: a durable memory of documents, the
//! links between them and how fresh they are, with local lookups that answer
//! inside a token budget.
//!
//! ## Design tenets
//!
//! - **Zero-copy reads.** The base is a checksummed, sectioned file; lookups
//!   binary-search fixed-width records in place.
//! - **One merge path.** A [`Snapshot`] is one base generation and the ops
//!   committed since; every read, and compaction itself, goes through it.
//! - **Lifetimes over reference counts.** [`Snapshot`], [`NodeRef`], hits and
//!   iterators borrow from the base bytes.
//! - **Determinism.** Compaction is byte-reproducible; ranking, communities and
//!   query output are fully ordered with explicit tie-breaks.
//! - **References, never bodies.** Nodes hold compact lookup metadata (title,
//!   snippet, anchors, freshness); document bodies stay at the source URL.
//!
//! [`model`] says what a store means: [`model::GraphV`] is the mathematical
//! graph that the contracts of the readers speak of.

pub mod bridge;
pub mod bytesio;
pub mod compact;
pub mod compaction;
pub mod enrich;
pub mod error;
pub mod format;
pub mod guarantees;
pub mod key;
pub mod lexicon;
pub mod matching;
pub mod model;
pub mod order;
pub mod overlay;
pub mod path;
pub mod prelude;
pub mod query;
pub mod rank;
pub mod readback;
pub mod render;
pub mod schedule;
pub mod snapshot;
pub mod spread;
pub mod store;
pub mod tokens;
pub mod traverse;
pub mod ttl;
pub mod writer;

pub use enrich::EnrichContext;
pub use error::{Error, Result};
pub use key::{EdgeType, NodeId, SegKey, UrlKey};
pub use query::{Anchor, Hit, QueryOpts, TokenBudget};
pub use schedule::DueItem;
pub use snapshot::{NodeRef, SegRef, Snapshot};
pub use store::{Config, Durability};
pub use traverse::{EdgeRef, LendingIterator, Neighbors};
pub use ttl::{Outcome, TtlConfig};
pub use writer::{DocRecord, SegmentRecord, Touch, Writer};
