//! An embedded key/value store: a height-balanced memtable, sorted on-disk
//! segments with a probing binary search, and the rules that decide flushes
//! and compactions.

pub mod avl;
pub mod directory;
pub mod error;
pub mod handlers;
pub mod idx;
pub mod keys;
pub mod segment;
pub mod sst;
