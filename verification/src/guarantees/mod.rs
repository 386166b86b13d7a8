//! What the library promises, said of what goes into an operation and what
//! comes out of it.
pub mod acceptance;
pub mod answers;
pub mod counting;
pub mod crawl;
pub mod expansion;
pub mod freshness;
pub mod generations;
pub mod ingest;
pub mod inventory;
pub mod links;
pub mod lookup;
pub mod ranking;
pub mod recovery;
pub mod scores;
pub mod structure;
pub mod ways;
