//! The directory tree: its items, its cursors and the builder that brings it up to date.

pub mod assembly;
pub mod builder;
pub mod changes;
pub mod cursor;
pub mod item;
pub mod key;
pub mod laws;
pub mod lists;
pub mod merge;
pub mod model;
pub mod moves;
pub mod null_store;
pub mod outcome;
pub mod overlay;
pub mod pushes;
pub mod rebuild;
pub mod sort;
pub mod store;
pub mod tours;
pub mod tree;
pub mod uproot;
pub mod walks;
