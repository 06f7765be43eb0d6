//! An in-memory vector index: a KD-tree over fixed-dimension integer
//! coordinate vectors with opaque string metadata, answering exact
//! k-nearest-neighbor queries under squared Euclidean distance, with a
//! binary persistence format.

pub mod codec;
pub mod kdtree;
pub mod model;
