//! Synchronization core for a personal-inventory tracker.
//!
//! The library holds the inventory data model, a client-side change tracker,
//! a binary codec for items and whole inventories, the framed wire protocol
//! spoken between a client and the single server, and both protocol
//! endpoints. All multi-byte integers on the wire are big-endian; structured
//! payloads are length-prefixed blobs produced by the codec in [`codec`].

pub mod client;
pub mod codec;
pub mod display;
pub mod ext;
pub mod inv;
pub mod protocol;
pub mod server;
pub mod tracker;
