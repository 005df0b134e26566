//! A trie in memory whose nodes can be shared between several paths.

pub mod hash_scheme;
pub mod map;
pub mod map_zipper;
pub mod merkleization;
pub mod redirects;
mod shares;

pub use map::PathMap;
pub use map_zipper::ReadZipper;
pub use merkleization::MerkleizeResult;
