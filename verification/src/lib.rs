//! Self-balancing binary search trees over an index-addressed node arena:
//! a height-balanced (AVL) engine and a colour-balanced (red-black) engine.
//!
//! Both engines keep their nodes in a vector and name children and parents
//! by slot number. Every operation is specified on a mathematical model of
//! the tree, and the arena is proved to hold that model after every step,
//! parent links included.
//!
//! * [`key`] says what a key is.
//! * [`shape`] defines the model and what it means for an arena to hold it;
//!   [`arena`] manages the slots.
//! * [`avl_tree`] and [`redblack_tree`] are the two engines. Their balance
//!   disciplines are stated on the model in [`avl_model`], [`rb_model`],
//!   [`rb_insert`] and [`rb_delete`], and tied to the arena in
//!   [`avl_links`] and [`rb_links`].
//! * [`laws`] states what holds of every tree and every operation.

pub mod key;
pub mod shape;
pub mod arena;
pub mod avl_model;
pub mod avl_links;
pub mod avl_tree;
pub mod rb_model;
pub mod rb_insert;
pub mod rb_delete;
pub mod rb_links;
pub mod redblack_tree;
pub mod laws;
