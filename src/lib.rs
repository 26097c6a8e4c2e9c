//! Replication core of a peer-to-peer, eventually consistent SQL store:
//! the message wire format and its framing, the per-actor version
//! bookkeeping, the decisions around local writes and remote ingestion,
//! membership, anti-entropy sync, bootstrap and schema changes.

pub mod bytes;
pub mod types;
pub mod wire;
pub mod frame;
pub mod broadcast;
pub mod bookie;
pub mod write;
pub mod ingest;
pub mod members;
pub mod sync;
pub mod schema;
pub mod identity;
pub mod bootstrap;
