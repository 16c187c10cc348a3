//! A directory tree kept as one ordered sequence of items.

pub mod btree;
pub mod fs;
pub mod id;
pub mod names;
