//! A key-value store backed by an append-only log of records, the engine
//! interface it implements, the request dispatcher of its server, and the
//! supervisor of the server's worker pool.

pub mod codec;
pub mod engines;
pub mod error;
pub mod kv;
pub mod server;
pub mod thread_pool;

pub use codec::Command;
pub use engines::durable::DurableStore;
pub use engines::durable::LogFile;
pub use engines::durable::VecLog;
pub use engines::kvs::KvStore;
pub use engines::KvsEngine;
pub use error::KvStoreError;
pub use error::Result;
pub use server::KvsServer;
pub use thread_pool::ThreadPool;
