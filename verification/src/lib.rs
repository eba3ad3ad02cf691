//! A least-frequently-used cache bounded by the total size of its payloads.
//!
//! Keys are strings and payloads are immutable byte buffers. Every entry
//! carries an exact access count; entries with the same count share a
//! frequency bucket, and the buckets form a list ordered by count. When a
//! payload would not fit, entries are discarded from the lowest bucket first.

pub mod bucket;
pub mod cache;
pub mod entry;
pub mod laws;
pub mod list;
pub mod payload;

pub use bucket::FrequencyNode;
pub use cache::{InsertError, LFU};
pub use entry::Item;
pub use list::FrequencyList;
