//! A minimal persistent key-value store.
//!
//! The store holds a complete snapshot of string keys and string values in
//! memory, backed by a single flat text file: one record per line, the key
//! separated from the value by a single tab character. Loading parses the
//! whole file at once and fails atomically on any malformed line; flushing
//! serializes the whole mapping at once. The parsing and serialization logic
//! is verified here; reading and writing the backing file is left to the
//! caller, who hands the file's contents in and takes the new contents out.

pub mod format;
pub mod store;

pub use store::Database;
pub use store::LoadError;
