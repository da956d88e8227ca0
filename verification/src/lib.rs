//! Static, immutable perfect hash maps that leave the choice of hasher to the caller.
//!
//! A map is built once from a fixed list of entries. Every later lookup costs one
//! hash, one read of a displacement pair and one comparison of keys.

pub mod word;
pub mod hasher;
pub mod permute;
pub mod bucket;
pub mod trial;
pub mod generate;
pub mod seed;
pub mod map;
pub mod laws;

pub use crate::bucket::Bucket;
pub use crate::hasher::{hash, MapHasher};
pub use crate::map::{BuildError, StaticMap};
pub use crate::permute::sort_by_indices;
