pub mod api;
pub mod keys;
pub mod laws;
pub mod lmdb;
pub mod mem;
pub mod page;
pub mod registry;
pub mod sled;
