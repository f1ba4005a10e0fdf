//! Sorted string tables: the immutable files that hold flushed generations.

pub mod file;
