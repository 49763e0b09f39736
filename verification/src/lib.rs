//! An embedded key-value store kept as an append-only log of commands.
//!
//! Every mutation is one record at the end of the log. An index remembers, for
//! each live key, the byte range of the record that set it last. The store is
//! what the log denotes: opening a store replays the log, and compaction
//! rewrites the log so that it holds one record for each live key.

pub mod codec;
pub mod compaction;
pub mod error;
pub mod frame;
pub mod index;
pub mod json;
pub mod literal;
pub mod log;
pub mod model;
pub mod places;
pub mod replay;
pub mod store;

pub use error::{KvError, KvResult};
pub use store::KvStore;
