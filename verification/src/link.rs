//! The recursive backbone of the tree: links, nodes and colors, together with
//! the mathematical model (a `Map<u64, V>`), the in-order sequence, and the
//! red-black well-formedness predicates.

use std::sync::Arc;
use vstd::prelude::*;

verus! {

/// Node color.  `DoubleBlack` marks a subtree that is locally one black level
/// short; it exists only transiently inside the deletion algorithm and never
/// appears in a tree handed to a caller.
#[derive(Clone, Copy, Debug)]
pub enum Color {
    Red,
    Black,
    DoubleBlack,
}

/// An immutable tree node.  Once built, a node's fields never change;
/// "mutation" always builds a brand-new node and relinks its ancestors.
#[derive(Debug)]
pub struct Node<V> {
    pub key: u64,
    pub value: V,
    pub left: Link<V>,
    pub right: Link<V>,
    pub color: Color,
}

/// A link is either empty or a shared reference to a node.  A node may have
/// many owners (several trees, several in-flight iterators); it is reclaimed
/// when the last owner drops it.
#[derive(Debug)]
pub enum Link<V> {
    Empty,
    Node(Arc<Node<V>>),
}

impl Color {
    /// How many black levels a node of this color contributes to the black
    /// height of the paths running through it.
    pub open spec fn weight(self) -> nat {
        match self {
            Color::Red => 0,
            Color::Black => 1,
            Color::DoubleBlack => 2,
        }
    }

    pub fn is_red(self) -> (r: bool)
        ensures
            r == (self is Red),
    {
        matches!(self, Color::Red)
    }

    pub fn is_black(self) -> (r: bool)
        ensures
            r == (self is Black),
    {
        matches!(self, Color::Black)
    }

    pub fn is_double_black(self) -> (r: bool)
        ensures
            r == (self is DoubleBlack),
    {
        matches!(self, Color::DoubleBlack)
    }
}

impl<V> Link<V> {
    /// The node behind this link (meaningful only when the link is not empty).
    pub open spec fn nd(self) -> Node<V>
        recommends
            self is Node,
    {
        *self->Node_0
    }

    /// The map this subtree represents: every key bound in it, each to the
    /// value stored at that key.
    pub open spec fn as_map(self) -> Map<u64, V>
        decreases self,
    {
        match self {
            Link::Empty => Map::empty(),
            Link::Node(n) => (*n).left.as_map().union_prefer_right(
                (*n).right.as_map(),
            ).insert((*n).key, (*n).value),
        }
    }

    /// The entries of this subtree, in ascending key order (given `bst`).
    pub open spec fn inorder(self) -> Seq<(u64, V)>
        decreases self,
    {
        match self {
            Link::Empty => Seq::empty(),
            Link::Node(n) => (*n).left.inorder() + seq![((*n).key, (*n).value)]
                + (*n).right.inorder(),
        }
    }

    /// Number of nodes in this subtree.
    pub open spec fn size(self) -> nat
        decreases self,
    {
        match self {
            Link::Empty => 0,
            Link::Node(n) => 1 + (*n).left.size() + (*n).right.size(),
        }
    }

    /// Height of this subtree (an empty link has height 0).
    pub open spec fn height(self) -> nat
        decreases self,
    {
        match self {
            Link::Empty => 0,
            Link::Node(n) => 1 + if (*n).left.height() >= (*n).right.height() {
                (*n).left.height()
            } else {
                (*n).right.height()
            },
        }
    }

    /// Black height: the number of black levels on the leftmost path, counting
    /// this link's own color.  On a well-formed tree every path agrees.
    pub open spec fn bh(self) -> nat
        decreases self,
    {
        match self {
            Link::Empty => 0,
            Link::Node(n) => (*n).left.bh() + (*n).color.weight(),
        }
    }

    /// The root node of this link is red.
    pub open spec fn is_red(self) -> bool {
        self is Node && self.nd().color is Red
    }

    /// The binary-search-tree ordering invariant: at every node, all keys to
    /// the left are smaller and all keys to the right are greater.
    pub open spec fn bst(self) -> bool
        decreases self,
    {
        match self {
            Link::Empty => true,
            Link::Node(n) => {
                &&& (*n).left.bst()
                &&& (*n).right.bst()
                &&& (forall|k: u64| (*n).left.as_map().dom().contains(k) ==> k < (*n).key)
                &&& (forall|k: u64| (*n).right.as_map().dom().contains(k) ==> k > (*n).key)
            },
        }
    }

    /// The red-black validity invariant: no `DoubleBlack` anywhere, no red
    /// node with a red child, and both children of every node have the same
    /// black height.
    pub open spec fn rb(self) -> bool
        decreases self,
    {
        match self {
            Link::Empty => true,
            Link::Node(n) => {
                &&& !((*n).color is DoubleBlack)
                &&& (*n).left.rb()
                &&& (*n).right.rb()
                &&& (*n).left.bh() == (*n).right.bh()
                &&& ((*n).color is Red ==> !(*n).left.is_red() && !(*n).right.is_red())
            },
        }
    }

    /// A tree that is valid except that its red root may have a red child
    /// ("infrared").  Insertion's recursion produces such trees; the caller's
    /// balancing step repairs them.
    pub open spec fn infrared(self) -> bool {
        &&& self is Node
        &&& self.nd().color is Red
        &&& self.nd().left.rb()
        &&& self.nd().right.rb()
        &&& self.nd().left.bh() == self.nd().right.bh()
    }

    /// The shape insertion's recursion guarantees: fully valid, or infrared.
    pub open spec fn ins_shape(self) -> bool {
        self.rb() || self.infrared()
    }

    /// A tree that is valid except that its root carries the transient
    /// `DoubleBlack` color: the subtree is one black level short and the
    /// deficit has been pushed onto the root.
    pub open spec fn db_root(self) -> bool {
        &&& self is Node
        &&& self.nd().color is DoubleBlack
        &&& self.nd().left.rb()
        &&& self.nd().right.rb()
        &&& self.nd().left.bh() == self.nd().right.bh()
    }

    /// The shape deletion's recursion guarantees, against the black height `m`
    /// the subtree had before the deletion: either still valid with black
    /// height `m`, or one black level short — a `DoubleBlack` root accounting
    /// for the deficit, or an empty link where a lone black leaf (black
    /// height 1) was removed.
    pub open spec fn del_shape(self, m: nat) -> bool {
        ||| self.rb() && self.bh() == m
        ||| self.db_root() && self.bh() == m
        ||| self is Empty && m == 1
    }

    /// Every key in this subtree is smaller than `b`.
    pub open spec fn keys_below(self, b: u64) -> bool {
        forall|k: u64| self.as_map().dom().contains(k) ==> k < b
    }

    /// Every key in this subtree is greater than `b`.
    pub open spec fn keys_above(self, b: u64) -> bool {
        forall|k: u64| self.as_map().dom().contains(k) ==> k > b
    }
}

/// `b` is `a` with only the stored value at `key` replaced by `value`: the
/// same keys and colors in the same arrangement, and every subtree off the
/// search path for `key` the very same value.  This is the shape a
/// value-replacing insertion leaves behind: no rebalancing, no new keys.
pub open spec fn value_replaced<V>(a: Link<V>, b: Link<V>, key: u64, value: V) -> bool
    decreases a,
{
    match a {
        Link::Empty => false,
        Link::Node(an) => match b {
            Link::Empty => false,
            Link::Node(bn) => {
                &&& (*bn).key == (*an).key
                &&& (*bn).color == (*an).color
                &&& if key == (*an).key {
                    (*bn).value == value && (*bn).left == (*an).left && (*bn).right == (*an).right
                } else if key < (*an).key {
                    (*bn).value == (*an).value && (*bn).right == (*an).right && value_replaced(
                        (*an).left,
                        (*bn).left,
                        key,
                        value,
                    )
                } else {
                    (*bn).value == (*an).value && (*bn).left == (*an).left && value_replaced(
                        (*an).right,
                        (*bn).right,
                        key,
                        value,
                    )
                }
            },
        },
    }
}

/// Spells out one step of the recursive model functions for a non-empty link,
/// so that proofs about freshly rebuilt nodes can relate the whole to its
/// parts.
pub proof fn lemma_node_parts<V>(l: Link<V>)
    requires
        l is Node,
    ensures
        l.as_map() == l.nd().left.as_map().union_prefer_right(l.nd().right.as_map()).insert(
            l.nd().key,
            l.nd().value,
        ),
        l.as_map().dom().contains(l.nd().key),
        l.as_map()[l.nd().key] == l.nd().value,
        l.bh() == l.nd().left.bh() + l.nd().color.weight(),
        l.size() == 1 + l.nd().left.size() + l.nd().right.size(),
        l.inorder() == l.nd().left.inorder() + seq![(l.nd().key, l.nd().value)]
            + l.nd().right.inorder(),
        forall|k: u64| #[trigger]
            l.nd().left.as_map().dom().contains(k) ==> l.as_map().dom().contains(k),
        forall|k: u64| #[trigger]
            l.nd().right.as_map().dom().contains(k) ==> l.as_map().dom().contains(k),
        forall|k: u64| #[trigger]
            l.as_map().dom().contains(k) ==> k == l.nd().key || l.nd().left.as_map().dom().contains(
                k,
            ) || l.nd().right.as_map().dom().contains(k),
{
    broadcast use vstd::map_lib::group_map_union;

}

impl<V> Clone for Link<V> {
    /// Sharing a subtree: clones the reference, never the structure.
    fn clone(&self) -> (res: Self)
        ensures
            res == *self,
    {
        match self {
            Link::Empty => Link::Empty,
            Link::Node(n) => Link::Node(n.clone()),
        }
    }
}

impl<V> Link<V> {
    /// Builds a fresh node.  This is the only way new structure enters a tree.
    pub fn node(color: Color, key: u64, value: V, left: Link<V>, right: Link<V>) -> (res: Link<V>)
        ensures
            res is Node,
            res.nd() == (Node { key, value, left, right, color }),
    {
        Link::Node(Arc::new(Node { key, value, left, right, color }))
    }

    /// True when this link is empty or its node is `DoubleBlack` — the two
    /// forms a one-black-level deficit takes during deletion rebalancing.
    pub fn is_empty_or_double_black(&self) -> (r: bool)
        ensures
            r == (self is Empty || self.nd().color is DoubleBlack),
    {
        match self {
            Link::Empty => true,
            Link::Node(node) => node.color.is_double_black(),
        }
    }

    /// The node behind this link, if any.
    pub fn to_option(&self) -> (r: Option<&Arc<Node<V>>>)
        ensures
            match r {
                Some(n) => self is Node && *n == self->Node_0,
                None => self is Empty,
            },
    {
        match self {
            Link::Empty => None,
            Link::Node(node) => Some(node),
        }
    }

    /// The node behind this link, if it is red.
    pub fn get_if_red(&self) -> (r: Option<&Arc<Node<V>>>)
        ensures
            match r {
                Some(n) => self.is_red() && *n == self->Node_0,
                None => !self.is_red(),
            },
    {
        match self {
            Link::Node(node) => {
                if node.color.is_red() {
                    Some(node)
                } else {
                    None
                }
            },
            Link::Empty => None,
        }
    }

    /// The node behind this link, if it is black.
    pub fn get_if_black(&self) -> (r: Option<&Arc<Node<V>>>)
        ensures
            match r {
                Some(n) => self is Node && self.nd().color is Black && *n == self->Node_0,
                None => !(self is Node && self.nd().color is Black),
            },
    {
        match self {
            Link::Node(node) => {
                if node.color.is_black() {
                    Some(node)
                } else {
                    None
                }
            },
            Link::Empty => None,
        }
    }
}

} // verus!
