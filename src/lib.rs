//! A skip list: a sorted set of integers kept as a tower of linked layers
//! stored in per-layer arenas, with integer handles as links.

pub mod promotion;
pub mod skip_list;

pub use skip_list::{SkipList, LAYER_COUNT};
