//! A persistent (immutable, structurally shared) ordered map, implemented as a
//! red-black tree over `u64` keys.
//!
//! Every mutation returns a new logical version of the map; prior versions stay
//! valid and unaffected, and unchanged subtrees are shared (via `Arc`) rather
//! than copied.  Deletion uses a transient `DoubleBlack` color to propagate a
//! local black-height deficit up the tree; such a color never escapes to a
//! caller.

pub mod balance;
pub mod deficit;
pub mod delete;
pub mod insert;
pub mod iter;
pub mod laws;
pub mod link;
pub mod search;
pub mod tree;

pub use link::{Color, Link, Node};
pub use iter::Iter;
pub use tree::Tree;
