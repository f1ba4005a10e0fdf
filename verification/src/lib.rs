//! An ordered key-value store whose durable data are immutable sorted files
//! in an object store.
//!
//! Writes are buffered in a [`memtable::MemTable`], turned into one sorted
//! file per flush by the [`sst::file::writer::Writer`], and read back through
//! the [`db::DB`] state machine. A [`subspace::Subspace`] is a view of the
//! store that keeps its keys under a prefix, encoded by the
//! [`codec::KeyCodec`].
//!
//! The library never talks to the object store itself: it says which object
//! to put or fetch, and is told how that went.

pub mod codec;
pub mod db;
pub mod entry;
pub mod memtable;
pub mod sst;
pub mod subspace;
