//! Lookup: walk from the root comparing the probe against each node's key.
//! No allocation, no mutation; the walk only reads shared structure.

use core::cmp::Ordering;
use vstd::prelude::*;

use crate::link::{lemma_node_parts, Link};
use crate::tree::Tree;

verus! {

/// How `target` stands to `probe` in the total order on keys: the comparison
/// a well-behaved caller-supplied comparator must realize.
pub open spec fn cmp_spec(target: u64, probe: u64) -> Ordering {
    if target < probe {
        Ordering::Less
    } else if target == probe {
        Ordering::Equal
    } else {
        Ordering::Greater
    }
}

impl<V> Link<V> {
    /// Exact-key lookup in this subtree.
    pub fn get(&self, key: u64) -> (res: Option<&V>)
        requires
            self.bst(),
        ensures
            match res {
                Some(v) => self.as_map().dom().contains(key) && *v == self.as_map()[key],
                None => !self.as_map().dom().contains(key),
            },
        decreases *self,
    {
        match self {
            Link::Empty => None,
            Link::Node(n) => {
                proof {
                    lemma_node_parts(*self);
                    assert(self.nd().left.bst() && self.nd().right.bst());
                }
                if key < n.key {
                    n.left.get(key)
                } else if key > n.key {
                    n.right.get(key)
                } else {
                    Some(&n.value)
                }
            },
        }
    }

    /// Lookup through a caller-supplied three-way comparison, probing each
    /// visited key.  The comparator must realize the order of some target key
    /// (tracked as the ghost argument) against the probed key.
    pub fn get_by<F: Fn(&u64) -> Ordering>(&self, compare: &F, target: Ghost<u64>) -> (res: Option<
        (u64, &V),
    >)
        requires
            self.bst(),
            forall|k: u64| #[trigger] compare.requires((&k,)),
            forall|k: u64, o: Ordering| #[trigger]
                compare.ensures((&k,), o) ==> o == cmp_spec(target@, k),
        ensures
            match res {
                Some((k, v)) => k == target@ && self.as_map().dom().contains(k) && *v
                    == self.as_map()[k],
                None => !self.as_map().dom().contains(target@),
            },
        decreases *self,
    {
        match self {
            Link::Empty => None,
            Link::Node(n) => {
                proof {
                    lemma_node_parts(*self);
                    assert(self.nd().left.bst() && self.nd().right.bst());
                    assert(compare.requires((&self.nd().key,)));
                }
                match compare(&n.key) {
                    Ordering::Less => n.left.get_by(compare, target),
                    Ordering::Greater => n.right.get_by(compare, target),
                    Ordering::Equal => Some((n.key, &n.value)),
                }
            },
        }
    }
}

impl<V> Tree<V> {
    /// Exact-key lookup: the value bound to `key`, or `None` when the key is
    /// absent.  Pure and total; never fails, never allocates.
    pub fn get(&self, key: u64) -> (res: Option<&V>)
        requires
            self.wf(),
        ensures
            match res {
                Some(v) => self@.dom().contains(key) && *v == self@[key],
                None => !self@.dom().contains(key),
            },
    {
        self.root.get(key)
    }

    /// Lookup by a caller-supplied three-way comparator against candidate
    /// keys, for probes of a borrowed or derived form.  The comparator must
    /// realize the order of some target key (the ghost argument) against the
    /// probed key; the result is that key's binding.
    pub fn get_by<F: Fn(&u64) -> Ordering>(&self, compare: F, target: Ghost<u64>) -> (res: Option<
        (u64, &V),
    >)
        requires
            self.wf(),
            forall|k: u64| #[trigger] compare.requires((&k,)),
            forall|k: u64, o: Ordering| #[trigger]
                compare.ensures((&k,), o) ==> o == cmp_spec(target@, k),
        ensures
            match res {
                Some((k, v)) => k == target@ && self@.dom().contains(k) && *v == self@[k],
                None => !self@.dom().contains(target@),
            },
    {
        self.root.get_by(&compare, target)
    }
}

} // verus!
