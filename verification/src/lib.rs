//! Core engine of a podcast-feed synchronizer: an append-only dedup ledger
//! that makes downloads idempotent, an episode selector that decides which
//! candidates are new, a subscription name filter, and the orchestration
//! state that ties them together. All I/O (feed fetching, file transfer,
//! durable appends) is performed by the surrounding application; this crate
//! holds the decisions and the record-keeping, verified.

pub mod error;
pub mod filter;
pub mod ledger;
pub mod selector;
pub mod sync;
