//! A log-structured key-value store.
//!
//! Every `set` and `remove` appends one record to a log, and an in-memory
//! index maps each live key to the offset of its latest record. Compaction
//! rewrites the live records into a fresh log. Records are written in a
//! tagged, line-oriented text format.
//!
//! The library holds the store's logic; reading and writing files is left
//! to its caller, which hands over the bytes it read and writes the bytes it
//! is given.

pub mod de;
pub mod decimal;
pub mod error;
pub mod log;
pub mod paths;
pub mod record;
pub mod ser;
pub mod store;

pub use error::{Error, ErrorKind};
pub use record::Record;
pub use store::KvStore;
