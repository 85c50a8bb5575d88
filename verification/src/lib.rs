//! Binary trees over owned, boxed nodes: a plain binary tree with traversal
//! helpers, a binary search tree with insertion, lookup, deletion, successor
//! queries and three ways to walk it, and a thin list wrapper.
//!
//! A tree is described by the shape of its nodes. `node` holds the node, its
//! primitives and the traversal orders that turn a shape into the sequence
//! of its values. `element` says what the trees ask of the type of their
//! values. `bst_model` defines, as functions on shapes, what it means for a
//! tree to be ordered and what each operation of the search tree leaves
//! behind; `bst_laws` proves what that amounts to on ordered trees;
//! `search_tree` and `iterators` hold the operations themselves, whose
//! contracts are stated over the model. `binary_tree` and `list` hold the
//! plain tree and the list.

pub mod binary_tree;
pub mod bst_laws;
pub mod bst_model;
pub mod element;
pub mod iterators;
pub mod list;
pub mod node;
pub mod search_tree;

pub use binary_tree::BinaryTree;
pub use iterators::{IntoIter, Iter, IterMut};
pub use list::List;
pub use node::{drop, BinTreeNode, Node};
pub use search_tree::BinSearchTree;
