//! The index from the tags of series to the files that keep them.

pub mod index_manager;
