pub mod arena_compact;
pub mod harness;
pub mod laws;
pub mod mapped;
pub mod morphisms;
pub mod observer;
pub mod path_map;
pub mod ring;
pub mod slices;
pub mod text;
pub mod trie;
pub mod trie_order;
pub mod trie_union;
pub mod trie_walk;
pub mod utils;
pub mod zipper;

pub use path_map::PathMap;
