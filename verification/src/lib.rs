//! Compaction engine for a write-ahead-logged time-series store.
//!
//! Pending log entries are decoded into fixed-width numeric rows, grouped by
//! destination series, merged with the destination's existing snapshot under a
//! last-write-wins policy, and re-encoded as a sorted columnar snapshot.

pub mod rows;
pub mod merge;
pub mod codec;
pub mod payload;
pub mod router;
pub mod pipeline;
