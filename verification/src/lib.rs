//! An in-memory index of filesystem metadata with a boolean query language.
//!
//! The crate builds an ownership tree of file names per volume from a flat
//! list of filesystem records, persists the whole snapshot as a byte blob
//! with a verified codec, and answers free-text queries that may constrain a
//! file's name, its path, and its content.

pub mod disk;
pub mod error;
pub mod file;
pub mod search;
pub mod text;
