//! The file format of a sorted string table, its writer and its reader.
//!
//! A file is laid out as data blocks, then a sparse index with one entry per
//! block, then a footer of fixed size.

pub mod format;
pub mod naming;
pub mod writer;
pub mod reader;
pub mod round_trip;
