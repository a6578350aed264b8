//! Skein: the verified core of a peer-to-peer collaborative video editor.
//!
//! The library holds the edit decision list (an operation log replayed into
//! a timeline), the three-way merge of concurrent edits, the diff of two
//! chunk listings, the copy-on-write chunk index, the MP4 header parsing
//! used to describe chunks, and the byte framing used on the wire.

pub mod edl;
pub mod edl_laws;
pub mod merge;
pub mod diff;
pub mod error;
pub mod store;
mod order;
pub mod video;
pub mod wire;
pub mod sync;
pub mod session;
pub mod units;

