//! An ordered binary search tree with a lazy in-order iterator.

pub mod iter;
pub mod laws;
pub mod order;
pub mod render;
pub mod sum;
pub mod tree;

pub use iter::BstIter;
pub use sum::Accumulate;
pub use tree::Bst;
