//! A peer-to-peer file distribution engine: torrent descriptors, a
//! piece store with cryptographic verification, the peer wire protocol,
//! rarest-first piece selection, discovery backoff, token-bucket rate
//! limiting, and a client registry of active swarms.

pub mod client;
pub mod descriptor;
pub mod discovery;
pub mod errors;
pub mod hashing;
pub mod peer;
pub mod piece_store;
pub mod rate_limiter;
pub mod swarm;
