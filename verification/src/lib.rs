//! An array-backed binary min-heap used as a priority queue, and a binary
//! tree with its traversals.
//!
//! - [`heap`]: the heap itself, [`BinaryHeap`].
//! - [`heap_model`]: the heap's positions, its order invariant, what each
//!   operation does to the positions, and the laws that follow.
//! - [`heap_cost`]: how many exchanges and comparisons the operations make.
//! - [`tree`]: [`BinaryTree`], a tree of owned nodes.
//! - [`traversal`]: the keys of a tree in pre-order, in-order, post-order and
//!   level order.
//! - [`order`]: [`TotalOrder`], the order that element types bring along.

pub mod heap;
pub mod heap_cost;
pub mod heap_model;
pub mod order;
pub mod traversal;
pub mod tree;

pub use crate::heap::BinaryHeap;
pub use crate::order::Comparison;
pub use crate::order::TotalOrder;
pub use crate::tree::BinaryTree;
pub use crate::tree::Link;
