//! A log-structured key-value store in the Bitcask style: checksummed records
//! appended to segments, an in-memory key directory, and compaction.
//!
//! The store keeps every segment's bytes in memory and lists the disk writes
//! that mirror them; the host program applies those writes to files.
//!
//! Beside the store stand three small independent pieces: a Bloom filter
//! (`bloom`), a round-robin address picker (`balancer`) and server-sent-event
//! framing (`sse`).

pub mod varint;
pub mod checksum;
pub mod record;
pub mod tombstone;
pub mod keydir;
pub mod clock;
pub mod segment;
pub mod store;
pub mod bloom;
pub mod balancer;
pub mod sse;
pub mod laws;
