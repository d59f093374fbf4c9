//! A persistent vector index: vectors of one fixed dimension, each under a
//! 64-bit identifier, with exact nearest-neighbour search and a binary file
//! format.
//!
//! The components of a vector and the distances of a search are handled as
//! the bit patterns of IEEE-754 binary32 numbers. The library never does
//! arithmetic on them: it stores them, writes and reads them bit for bit, and
//! orders distances by their bit patterns, which for numbers that are not
//! negative is the order of the numbers. The caller computes the squared
//! Euclidean distance of each entry to a query and hands the distances to
//! `search`. The library does no input or output either: the caller reads
//! and writes the file.

pub mod codec;
pub mod error;
pub mod format;
pub mod handle;
pub mod model;
pub mod rank;
pub mod store;

pub use error::StoreError;
pub use handle::{FileProbe, DB};
pub use store::VectorStore;
