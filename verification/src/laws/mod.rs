//! What holds of several functions together.

pub mod counting;
pub mod files;
pub mod fold_results;
pub mod folds;
pub mod formats;
pub mod hashes;
pub mod lines;
pub mod masks;
pub mod merkle;
pub mod moves;
pub mod paths;
pub mod scripts;
pub mod sharing;
pub mod steps;
pub mod texts;
pub mod tries;
pub mod walks;
