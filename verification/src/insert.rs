//! Insertion: recurse toward the key, rebuild the path bottom-up, and pass
//! every rebuilt ancestor through the balancing step.  The recursion may hand
//! back an "infrared" subtree (a red root with a red child); repainting the
//! root black at the top repairs it.

use vstd::prelude::*;

use crate::balance::danger_shape;
use crate::link::{lemma_node_parts, value_replaced, Color, Link};
use crate::tree::Tree;

verus! {

broadcast use vstd::map_lib::group_map_union;

impl<V: Copy> Link<V> {
    /// Inserts or updates a binding in this subtree.  The result represents
    /// the same map extended with the binding, keeps the search order and the
    /// black height, and is valid except possibly for an infrared root —
    /// which only arises under a red root.
    pub fn insert(&self, key: u64, value: V) -> (res: Link<V>)
        requires
            self.rb(),
            self.bst(),
        ensures
            res.as_map() == self.as_map().insert(key, value),
            res.bst(),
            res.ins_shape(),
            res.bh() == self.bh(),
            !self.is_red() ==> res.rb(),
            // replacing the value of a bound key keeps the whole arrangement:
            // same keys and colors, only that one stored value changes
            self.as_map().dom().contains(key) ==> value_replaced(*self, res, key, value),
        decreases *self,
    {
        match self {
            Link::Empty => {
                let res = Link::node(Color::Red, key, value, Link::Empty, Link::Empty);
                proof {
                    lemma_node_parts(res);
                    assert(res.as_map() =~= self.as_map().insert(key, value));
                    assert(res.rb());
                    assert(res.bst());
                }
                res
            },
            Link::Node(n) => {
                proof {
                    lemma_node_parts(*self);
                    assert(self.nd().left.bst() && self.nd().right.bst());
                    assert(self.nd().left.rb() && self.nd().right.rb());
                }
                if key < n.key {
                    let li = n.left.insert(key, value);
                    let ghost gli = li;
                    let res = n.color.balance(n.key, n.value, li, n.right.clone());
                    proof {
                        assert(res.as_map() =~= self.as_map().insert(key, value));
                        if self.as_map().dom().contains(key) {
                            assert(self.nd().left.as_map().dom().contains(key));
                            lemma_value_replaced_colors(self.nd().left, gli, key, value);
                            assert(!danger_shape(self.nd().color, gli, self.nd().right));
                            assert(value_replaced(*self, res, key, value));
                        }
                    }
                    res
                } else if key > n.key {
                    let ri = n.right.insert(key, value);
                    let ghost gri = ri;
                    let res = n.color.balance(n.key, n.value, n.left.clone(), ri);
                    proof {
                        assert(res.as_map() =~= self.as_map().insert(key, value));
                        if self.as_map().dom().contains(key) {
                            assert(self.nd().right.as_map().dom().contains(key));
                            lemma_value_replaced_colors(self.nd().right, gri, key, value);
                            assert(!danger_shape(self.nd().color, self.nd().left, gri));
                            assert(value_replaced(*self, res, key, value));
                        }
                    }
                    res
                } else {
                    let res = Link::node(n.color, key, value, n.left.clone(), n.right.clone());
                    proof {
                        lemma_node_parts(res);
                        assert(res.as_map() =~= self.as_map().insert(key, value));
                        assert(res.bst());
                        assert(res.rb());
                        assert(value_replaced(*self, res, key, value));
                    }
                    res
                }
            },
        }
    }

    /// Repaints the root black (a no-op on an empty link).  This turns an
    /// infrared or double-black root back into a valid one without changing
    /// the represented map.
    pub fn blacken(&self) -> (res: Link<V>)
        requires
            self.bst(),
        ensures
            res.as_map() == self.as_map(),
            res.bst(),
            !res.is_red(),
            self.ins_shape() ==> res.rb(),
            self.db_root() ==> res.rb(),
            self.rb() ==> res.bh() == self.bh() + (if self.is_red() {
                1nat
            } else {
                0nat
            }),
            self is Empty <==> res is Empty,
            self is Node ==> res is Node && res.nd() == (crate::link::Node {
                key: self.nd().key,
                value: self.nd().value,
                left: self.nd().left,
                right: self.nd().right,
                color: Color::Black,
            }),
    {
        match self {
            Link::Empty => Link::Empty,
            Link::Node(n) => {
                let res = Link::node(Color::Black, n.key, n.value, n.left.clone(), n.right.clone());
                proof {
                    lemma_node_parts(*self);
                    lemma_node_parts(res);
                    assert(res.as_map() =~= self.as_map());
                    assert(self.nd().left.bst() && self.nd().right.bst());
                    assert(res.bst());
                    if self.ins_shape() || self.db_root() {
                        assert(self.nd().left.rb() && self.nd().right.rb());
                        assert(res.rb());
                    }
                }
                res
            },
        }
    }
}

impl<V: Copy> Tree<V> {
    /// Returns a new map in which `key` is bound to `value`; every other
    /// binding is unchanged, and the receiver is not affected.
    pub fn insert(&self, key: u64, value: V) -> (res: Tree<V>)
        requires
            self.wf(),
        ensures
            res.wf(),
            res@ == self@.insert(key, value),
            // a pure value replacement: the structure, keys and colors are
            // preserved as they are, only the one stored value changes
            self@.dom().contains(key) ==> value_replaced(self.root, res.root, key, value),
    {
        let li = self.root.insert(key, value);
        let ghost gli = li;
        let res = Tree { root: li.blacken() };
        proof {
            if self@.dom().contains(key) {
                assert(self.root is Node);
                assert(self.root.nd().color is Black);
                lemma_value_replaced_colors(self.root, gli, key, value);
                assert(res.root.nd() == gli.nd());
                assert(value_replaced(self.root, res.root, key, value));
            }
        }
        res
    }
}

/// A value-replacing insertion keeps the root and both its children exactly
/// as red or non-red as they were: nothing about the shape invites the
/// balancing step to act.
proof fn lemma_value_replaced_colors<V>(a: Link<V>, b: Link<V>, key: u64, value: V)
    requires
        value_replaced(a, b, key, value),
    ensures
        a is Node && b is Node,
        b.nd().key == a.nd().key,
        b.nd().color == a.nd().color,
        b.is_red() == a.is_red(),
        b.nd().left.is_red() == a.nd().left.is_red(),
        b.nd().right.is_red() == a.nd().right.is_red(),
{
    if key < a.nd().key {
        assert(value_replaced(a.nd().left, b.nd().left, key, value));
    } else if key > a.nd().key {
        assert(value_replaced(a.nd().right, b.nd().right, key, value));
    }
}


/// The map that a sequence of bindings builds up by repeated insertion: for a
/// duplicated key, the later pair wins.
pub open spec fn map_of_pairs<V>(s: Seq<(u64, V)>) -> Map<u64, V>
    decreases s.len(),
{
    if s.len() == 0 {
        Map::empty()
    } else {
        map_of_pairs(s.drop_last()).insert(s.last().0, s.last().1)
    }
}

impl<V: Copy> Tree<V> {
    /// Builds a map from an arbitrary sequence of (key, value) pairs by
    /// repeated insertion; for a duplicated key the last pair wins.
    pub fn from_pairs(pairs: &Vec<(u64, V)>) -> (res: Tree<V>)
        ensures
            res.wf(),
            res@ == map_of_pairs(pairs@),
    {
        let mut tree = Tree::new();
        let mut i: usize = 0;
        while i < pairs.len()
            invariant
                tree.wf(),
                i <= pairs.len(),
                tree@ == map_of_pairs(pairs@.subrange(0, i as int)),
            decreases pairs.len() - i,
        {
            tree = tree.insert(pairs[i].0, pairs[i].1);
            proof {
                assert(pairs@.subrange(0, i + 1 as int).drop_last() =~= pairs@.subrange(
                    0,
                    i as int,
                ));
            }
            i += 1;
        }
        proof {
            assert(pairs@.subrange(0, pairs@.len() as int) =~= pairs@);
        }
        tree
    }
}

} // verus!

