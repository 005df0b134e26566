//! A compact representation of a trie in one arena of bytes.

pub mod act_iter;
pub mod act_moves;
pub mod act_zipper;
pub mod builder;
pub mod cached;
pub mod count;
pub mod counters;
pub mod file;
pub mod growth;
pub mod kept;
pub mod layout;
pub mod line_hash;
pub mod meaning;
pub mod merge;
pub mod node;
pub mod readers;
pub mod shared_layout;
pub mod shared_length;
pub mod sound;
pub mod stream;
pub mod stream_writer;
pub mod tree;
pub mod varint;
pub mod writer;

pub use act_zipper::ACTZipper;
pub use counters::Counters;
pub use node::{LineId, NodeId};
pub use readers::ActIter;
pub use stream::ACTOutputStream;
pub use stream_writer::StreamError;
pub use tree::{ACTVec, ActError, ArenaCompactTree, Storage};
pub use varint::{push_varint_u64, read_varint_u64};
