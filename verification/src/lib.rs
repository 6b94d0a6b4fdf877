//! An embedded, single-process key/value storage engine in the style of a
//! trivial database: opaque byte-string keys map to opaque byte-string
//! values inside a hash table of bucket chains, with a free-space manager,
//! an all-record lock discipline, atomic transactions over a shadow table,
//! and a cursor-less first-key / next-key iteration protocol.
//!
//! The engine here keeps the whole table in memory; durability layers sit
//! outside the verified core and exchange plain byte buffers with it.

pub mod errors;
pub mod flags;
pub mod hash;
pub mod space;
pub mod table;
pub mod iter;
pub mod db;
pub mod laws;

pub use errors::Error;
pub use flags::{Flags, StoreFlags, O_CREAT, O_RDONLY, O_RDWR, O_TRUNC};
pub use hash::jenkins_hash;
pub use db::Tdb;
