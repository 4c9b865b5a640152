//! The public persistent map: a `Tree` wraps a root link.  `insert` and
//! `delete` return a new tree and leave the receiver untouched; `get` walks
//! shared structure without allocating.

use vstd::prelude::*;

use crate::link::Link;

verus! {

/// A persistent ordered map from `u64` keys to values.
pub struct Tree<V> {
    pub root: Link<V>,
}

impl<V> View for Tree<V> {
    type V = Map<u64, V>;

    open spec fn view(&self) -> Map<u64, V> {
        self.root.as_map()
    }
}

impl<V> Tree<V> {
    /// Well-formedness: the root satisfies the red-black and binary-search
    /// invariants, and is never red (every operation hands back a tree with a
    /// black or empty root).
    pub open spec fn wf(self) -> bool {
        &&& self.root.rb()
        &&& self.root.bst()
        &&& !self.root.is_red()
    }

    /// Height of the tree (an empty tree has height 0).
    pub open spec fn height(self) -> nat {
        self.root.height()
    }

    /// The entries of the map in ascending key order.
    pub open spec fn inorder_seq(self) -> Seq<(u64, V)> {
        self.root.inorder()
    }

    /// The empty map.
    pub fn new() -> (tree: Tree<V>)
        ensures
            tree.wf(),
            tree@ == Map::<u64, V>::empty(),
            tree.inorder_seq() == Seq::<(u64, V)>::empty(),
    {
        Tree { root: Link::Empty }
    }
}

impl<V> Clone for Tree<V> {
    /// A tree value is freely shareable; cloning shares the root.
    fn clone(&self) -> (res: Self)
        ensures
            res == *self,
    {
        Tree { root: self.root.clone() }
    }
}

} // verus!
