//! Size statistics for directory trees: a walk that finds every regular file
//! under a root and its size, and a histogram that sorts those sizes.

pub mod dir;
pub mod dirutils;
pub mod scan;
pub mod stats;
pub mod tree;
pub mod utils;

pub use dir::SizeEntry;
