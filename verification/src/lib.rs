//! Low-level concurrency primitives: a sharded approximate counter, a
//! spinlock whose single word carries both a held flag and a release count,
//! an open-addressing hash table with tombstone deletion, a raw
//! externally-synchronized value cell, and the status decoding for a
//! hardware-transactional-memory fallback path.
//!
//! The state of every primitive is modelled as a plain value updated through
//! `&mut self`; callers that share a primitive across threads must serialize
//! access, which is the same discipline the operations themselves document.

pub mod cell;
pub mod counter;
pub mod densemap;
pub mod rtm;
pub mod sync_map;
pub mod try_lock;
