//! Storage abstraction for key/value engines: a uniform database interface,
//! atomic batches, and resumable, prefix-filtered key pagination, with an
//! in-memory backend and adapters for sled and LMDB.
pub mod db;
pub mod util;
