//! Ordered containers built on owned recursive structures.
//!
//! The centerpiece is [`tree::TreeNode`], a self-balancing (AVL) binary
//! search tree over `u64` values: insertion rebalances bottom-up with single
//! and double rotations, and every operation carries a contract relating it
//! to a mathematical model of the tree. A companion singly linked list,
//! [`list::ListNode`], offers append, delete-first and in-place reversal,
//! specified against the sequence of its elements.

pub mod list;
pub mod tree;
