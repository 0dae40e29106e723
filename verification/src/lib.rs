//! A persistent, networked key-value store.
//!
//! The library holds the verified core: the self-delimiting command codec,
//! the log-structured storage engine (segments, key index, stale-byte
//! counters and compaction) modelled over in-memory segment contents, and
//! the pure request-handling logic of the client and the server.  The
//! unverified shell around the library performs the actual file and
//! socket I/O, mirrors the engine's effect queue to the database
//! directory, and hands plain values in and out.

pub mod client;
pub mod codec;
pub mod decode;
pub mod engines;
pub mod error;
pub mod index;
pub mod kvstore;
pub mod server;
pub mod thread_pool;

pub use codec::Requests;
pub use codec::Response4Get;
pub use codec::Response4Remove;
pub use codec::Response4Set;
pub use engines::EngineKind;
pub use engines::KvsEngine;
pub use error::Error;
pub use kvstore::KvStore;
pub use thread_pool::ThreadPool;
