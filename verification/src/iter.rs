//! Lazy in-order traversal with an explicit stack of shared ancestor
//! references: descend left pushing ancestors, emit the top of the stack,
//! then continue in that node's right subtree.  No recursion, no mutation of
//! the tree; the iterator owns shares of the nodes it still has to visit, so
//! it stays valid whatever happens to the trees it came from.

use std::sync::Arc;
use vstd::prelude::*;

use crate::link::{lemma_node_parts, Link, Node};
use crate::tree::Tree;

verus! {

/// The entries still to be produced from the stacked ancestors, top first:
/// each ancestor contributes its own entry and then its right subtree.
pub open spec fn stack_rem<V>(s: Seq<Arc<Node<V>>>) -> Seq<(u64, V)>
    decreases s.len(),
{
    if s.len() == 0 {
        Seq::empty()
    } else {
        seq![((*s.last()).key, (*s.last()).value)] + (*s.last()).right.inorder() + stack_rem(
            s.drop_last(),
        )
    }
}

/// An in-order traversal in progress: `cur` is the next subtree to descend
/// into, `stack` the ancestors whose entry and right subtree are still due.
pub struct Iter<V> {
    pub cur: Link<V>,
    pub stack: Vec<Arc<Node<V>>>,
}

impl<V> View for Iter<V> {
    type V = Seq<(u64, V)>;

    /// The sequence of entries this iterator has yet to produce.
    open spec fn view(&self) -> Seq<(u64, V)> {
        self.cur.inorder() + stack_rem(self.stack@)
    }
}

impl<V: Copy> Iter<V> {
    /// Produces the next entry in ascending key order, or `None` when the
    /// traversal is done.
    pub fn next(&mut self) -> (res: Option<(u64, V)>)
        ensures
            match res {
                Some(p) => old(self)@.len() > 0 && p == old(self)@[0] && final(self)@ == old(
                    self,
                )@.drop_first(),
                None => old(self)@.len() == 0 && final(self)@.len() == 0,
            },
    {
        let mut current = Link::Empty;
        core::mem::swap(&mut current, &mut self.cur);
        loop
            invariant
                self.cur is Empty,
                current.inorder() + stack_rem(self.stack@) == old(self)@,
            decreases current.height(),
        {
            let ghost pre_stack = self.stack@;
            match current {
                Link::Node(n) => {
                    proof {
                        lemma_node_parts(Link::Node(n));
                        assert(((*n).left.inorder() + seq![((*n).key, (*n).value)]
                            + (*n).right.inorder()) + stack_rem(self.stack@) =~= (*n).left.inorder()
                            + (seq![((*n).key, (*n).value)] + (*n).right.inorder() + stack_rem(
                            self.stack@,
                        )));
                    }
                    let next_cur = n.left.clone();
                    self.stack.push(n);
                    proof {
                        assert(self.stack@.drop_last() =~= pre_stack);
                        assert(stack_rem(self.stack@) == seq![
                            ((*self.stack@.last()).key, (*self.stack@.last()).value),
                        ] + (*self.stack@.last()).right.inorder() + stack_rem(
                            self.stack@.drop_last(),
                        ));
                    }
                    current = next_cur;
                },
                Link::Empty => {
                    let popped = self.stack.pop();
                    match popped {
                        Some(n) => {
                            proof {
                                assert(stack_rem(pre_stack) == seq![
                                    ((*n).key, (*n).value),
                                ] + (*n).right.inorder() + stack_rem(self.stack@));
                            }
                            let item = (n.key, n.value);
                            self.cur = n.right.clone();
                            proof {
                                assert(self@ =~= old(self)@.drop_first());
                            }
                            return Some(item);
                        },
                        None => {
                            proof {
                                assert(old(self)@ =~= Seq::<(u64, V)>::empty());
                            }
                            return None;
                        },
                    }
                },
            }
        }
    }
}

impl<V: Copy> Tree<V> {
    /// A fresh traversal of this map's entries in ascending key order.  The
    /// iterator reads immutable shared structure only, so the tree (and any
    /// other version of it) can keep being used while it is alive.
    pub fn iter(&self) -> (it: Iter<V>)
        requires
            self.wf(),
        ensures
            it@ == self.inorder_seq(),
    {
        let it = Iter { cur: self.root.clone(), stack: Vec::new() };
        proof {
            assert(it@ =~= self.inorder_seq());
        }
        it
    }

    /// All entries in ascending key order, as a vector.
    pub fn entries(&self) -> (res: Vec<(u64, V)>)
        requires
            self.wf(),
        ensures
            res@ == self.inorder_seq(),
    {
        let mut it = self.iter();
        let mut out: Vec<(u64, V)> = Vec::new();
        loop
            invariant
                out@ + it@ == self.inorder_seq(),
            decreases it@.len(),
        {
            match it.next() {
                Some(p) => {
                    out.push(p);
                    proof {
                        assert(out@ + it@ =~= self.inorder_seq());
                    }
                },
                None => {
                    proof {
                        assert(out@ =~= self.inorder_seq());
                    }
                    return out;
                },
            }
        }
    }
}

} // verus!
