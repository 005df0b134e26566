//! Utilities on bytes and sets of bytes.

pub mod bits;
pub mod byte_mask;
pub mod byte_mask_fmt;
pub mod byte_mask_iter;
pub mod byte_range;

pub use byte_mask::{empty_mask, BitMask, ByteMask};
pub use byte_mask_fmt::ByteMaskBinaryFmt;
pub use byte_mask_iter::{ByteMaskIter, ByteMaskRangeIter, IntoByteMaskIter};
pub use byte_range::ByteRange;
