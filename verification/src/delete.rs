//! The deletion-specific rebalancing step.  `Color::rotate` rebuilds a node
//! one of whose children may carry a one-black-level deficit left behind by a
//! deletion below; it recolors the intact sibling and finishes with a
//! `Color::balance` call that absorbs the deficit or hands it one level up.

use vstd::prelude::*;

use crate::deficit::{defic_left, defic_right, lemma_inner_left, lemma_inner_right,
    lemma_site_sib_black, lemma_site_sib_black_mirror, lemma_site_sib_red,
    lemma_site_sib_red_mirror, rot_pre};
use crate::link::{lemma_node_parts, Color, Link};
use crate::tree::Tree;

verus! {

/// One of the rotation shapes `rotate` acts on: some child is empty or
/// `DoubleBlack` (the forms a deletion deficit takes) while its sibling is a
/// black node, or — under a black parent only — a red node with a black near
/// child.  Outside these shapes the node is rebuilt from its parts unchanged.
pub open spec fn rotation_shape<V>(c: Color, l: Link<V>, r: Link<V>) -> bool {
    ||| (l is Empty || l.nd().color is DoubleBlack) && r is Node && r.nd().color is Black
    ||| (r is Empty || r.nd().color is DoubleBlack) && l is Node && l.nd().color is Black
    ||| c is Black && (l is Empty || l.nd().color is DoubleBlack) && r.is_red()
        && r.nd().left is Node && r.nd().left.nd().color is Black
    ||| c is Black && (r is Empty || r.nd().color is DoubleBlack) && l.is_red()
        && l.nd().right is Node && l.nd().right.nd().color is Black
}

impl Color {
    /// Rebuilds a node of this color from its parts while one child may carry
    /// a one-black-level deficit, recoloring and rotating so that the deficit
    /// is absorbed locally or handed one level up (a `DoubleBlack` result).
    #[verifier::rlimit(100)]
    #[verifier::spinoff_prover]
    pub fn rotate<V: Copy>(self, key: u64, value: V, left: Link<V>, right: Link<V>) -> (res: Link<
        V,
    >)
        requires
            !(self is DoubleBlack),
            left.bst(),
            right.bst(),
            left.keys_below(key),
            right.keys_above(key),
            self is Red ==> !left.is_red() && !right.is_red(),
            rot_pre(left, right),
        ensures
            res.as_map() == left.as_map().union_prefer_right(right.as_map()).insert(key, value),
            res.bst(),
            !(self is Red) ==> !res.is_red(),
            (left.rb() && right.rb() && left.bh() == right.bh()) ==> res.rb() && res.bh()
                == left.bh() + self.weight(),
            defic_left(left, right) ==> res.del_shape(right.bh() + self.weight()),
            defic_right(left, right) ==> res.del_shape(left.bh() + self.weight()),
            // a red parent absorbs the deficit on the spot: the result is
            // fully valid and the subtree's black height is unchanged
            (self is Red && defic_left(left, right)) ==> res.rb() && res.bh() == right.bh(),
            (self is Red && defic_right(left, right)) ==> res.rb() && res.bh() == left.bh(),
            // a red sibling under a black parent resolves the deficit locally:
            // nothing propagates upward
            (self is Black && defic_left(left, right) && right.is_red()) ==> res.rb() && res.bh()
                == right.bh() + 1,
            (self is Black && defic_right(left, right) && left.is_red()) ==> res.rb() && res.bh()
                == left.bh() + 1,
            // outside every rotation shape the node is rebuilt unchanged
            !rotation_shape(self, left, right) ==> res is Node && res.nd() == (crate::link::Node {
                key,
                value,
                left,
                right,
                color: self,
            }),
            // whatever was rotated, the in-order sequence is untouched
            res.inorder() == left.inorder() + seq![(key, value)] + right.inorder(),
    {
        let ghost gl = left;
        let ghost gr = right;
        if self.is_red() {
            if left.is_empty_or_double_black() {
                if let Some(r) = right.get_if_black() {
                    let fixed = left.double_black_to_black();
                    let ghost gf = fixed;
                    let inner = Link::node(Color::Red, key, value, fixed, r.left.clone());
                    let ghost gi = inner;
                    proof {
                        lemma_inner_left(key, value, gl, gr, gf, gi);
                    }
                    let res = Color::Black.balance(r.key, r.value, inner, r.right.clone());
                    proof {
                        lemma_site_sib_black(self, key, value, gl, gr, gf, gi, res);
                    }
                    return res;
                }
            }
            if right.is_empty_or_double_black() {
                if let Some(l) = left.get_if_black() {
                    let fixed = right.double_black_to_black();
                    let ghost gf = fixed;
                    let inner = Link::node(Color::Red, key, value, l.right.clone(), fixed);
                    let ghost gi = inner;
                    proof {
                        lemma_inner_right(key, value, gl, gr, gf, gi);
                    }
                    let res = Color::Black.balance(l.key, l.value, l.left.clone(), inner);
                    proof {
                        lemma_site_sib_black_mirror(self, key, value, gl, gr, gf, gi, res);
                    }
                    return res;
                }
            }
        } else {
            if left.is_empty_or_double_black() {
                if let Some(r) = right.get_if_black() {
                    let fixed = left.double_black_to_black();
                    let ghost gf = fixed;
                    let inner = Link::node(Color::Red, key, value, fixed, r.left.clone());
                    let ghost gi = inner;
                    proof {
                        lemma_inner_left(key, value, gl, gr, gf, gi);
                    }
                    let res = Color::DoubleBlack.balance(r.key, r.value, inner, r.right.clone());
                    proof {
                        lemma_site_sib_black(self, key, value, gl, gr, gf, gi, res);
                    }
                    return res;
                }
                if let Some(r) = right.get_if_red() {
                    if let Some(rl) = r.left.get_if_black() {
                        let fixed = left.double_black_to_black();
                        let ghost gf = fixed;
                        let inner = Link::node(Color::Red, key, value, fixed, rl.left.clone());
                        let ghost gi = inner;
                        proof {
                            lemma_node_parts(gr);
                            assert(gr.nd().left.bst() && gr.nd().right.bst());
                            assert(gr.nd().left.keys_above(key));
                            lemma_inner_left(key, value, gl, gr.nd().left, gf, gi);
                        }
                        let balanced = Color::Black.balance(rl.key, rl.value, inner, rl.right.clone());
                        let ghost gb = balanced;
                        let res = Link::node(Color::Black, r.key, r.value, balanced, r.right.clone());
                        proof {
                            lemma_site_sib_red(self, key, value, gl, gr, gf, gi, gb, res);
                        }
                        return res;
                    }
                }
            }
            if right.is_empty_or_double_black() {
                if let Some(l) = left.get_if_black() {
                    let fixed = right.double_black_to_black();
                    let ghost gf = fixed;
                    let inner = Link::node(Color::Red, key, value, l.right.clone(), fixed);
                    let ghost gi = inner;
                    proof {
                        lemma_inner_right(key, value, gl, gr, gf, gi);
                    }
                    let res = Color::DoubleBlack.balance(l.key, l.value, l.left.clone(), inner);
                    proof {
                        lemma_site_sib_black_mirror(self, key, value, gl, gr, gf, gi, res);
                    }
                    return res;
                }
                if let Some(l) = left.get_if_red() {
                    if let Some(lr) = l.right.get_if_black() {
                        let fixed = right.double_black_to_black();
                        let ghost gf = fixed;
                        let inner = Link::node(Color::Red, key, value, lr.right.clone(), fixed);
                        let ghost gi = inner;
                        proof {
                            lemma_node_parts(gl);
                            assert(gl.nd().left.bst() && gl.nd().right.bst());
                            assert(gl.nd().right.keys_below(key));
                            lemma_inner_right(key, value, gl.nd().right, gr, gf, gi);
                        }
                        let balanced = Color::Black.balance(lr.key, lr.value, lr.left.clone(), inner);
                        let ghost gb = balanced;
                        let res = Link::node(Color::Black, l.key, l.value, l.left.clone(), balanced);
                        proof {
                            lemma_site_sib_red_mirror(self, key, value, gl, gr, gf, gi, gb, res);
                        }
                        return res;
                    }
                }
            }
        }
        let res = Link::node(self, key, value, left, right);
        proof {
            lemma_node_parts(res);
            assert(res.bst());
            if gl.rb() && gr.rb() && gl.bh() == gr.bh() {
                assert(res.rb());
            }
            if defic_left(gl, gr) {
                if gl.db_root() {
                    lemma_node_parts(gl);
                }
                assert(gr is Node);
                lemma_node_parts(gr);
                assert(gr.nd().left.rb() && gr.nd().right.rb());
                assert(gr.nd().left is Node);
                assert(false);
            }
            if defic_right(gl, gr) {
                if gr.db_root() {
                    lemma_node_parts(gr);
                }
                assert(gl is Node);
                lemma_node_parts(gl);
                assert(gl.nd().left.rb() && gl.nd().right.rb());
                assert(gl.nd().right is Node);
                assert(false);
            }
        }
        res
    }
}


impl<V: Copy> Link<V> {
    /// Removes a key from this subtree.  The result represents the same map
    /// without the key, keeps the search order, and is valid except possibly
    /// for a one-black-level deficit that the caller's own rebalancing step
    /// absorbs; a subtree that was not red-rooted never comes back red-rooted.
    #[verifier::rlimit(100)]
    #[verifier::spinoff_prover]
    pub fn delete(&self, key: u64) -> (res: Link<V>)
        requires
            self.rb(),
            self.bst(),
        ensures
            res.as_map() == self.as_map().remove(key),
            res.bst(),
            res.del_shape(self.bh()),
            !self.is_red() ==> !res.is_red(),
        decreases *self,
    {
        match self {
            Link::Empty => {
                proof {
                    assert(self.as_map().remove(key) =~= self.as_map());
                }
                Link::Empty
            },
            Link::Node(n) => {
                proof {
                    lemma_node_parts(*self);
                    assert(self.nd().left.bst() && self.nd().right.bst());
                    assert(self.nd().left.rb() && self.nd().right.rb());
                }
                if key < n.key {
                    let res = n.color.rotate(n.key, n.value, n.left.delete(key), n.right.clone());
                    proof {
                        assert(res.as_map() =~= self.as_map().remove(key));
                    }
                    res
                } else if key > n.key {
                    let res = n.color.rotate(n.key, n.value, n.left.clone(), n.right.delete(key));
                    proof {
                        assert(res.as_map() =~= self.as_map().remove(key));
                    }
                    res
                } else {
                    match (&n.left, &n.right) {
                        (Link::Empty, Link::Empty) => {
                            proof {
                                assert(Link::<V>::Empty.as_map() =~= self.as_map().remove(key));
                            }
                            Link::Empty
                        },
                        (Link::Empty, Link::Node(_)) => {
                            let res = n.right.blacken();
                            proof {
                                lemma_node_parts(self.nd().right);
                                assert(self.nd().right.is_red());
                                assert(res.as_map() =~= self.as_map().remove(key));
                            }
                            res
                        },
                        (Link::Node(_), Link::Empty) => {
                            let res = n.left.blacken();
                            proof {
                                lemma_node_parts(self.nd().left);
                                assert(self.nd().left.is_red());
                                assert(res.as_map() =~= self.as_map().remove(key));
                            }
                            res
                        },
                        (Link::Node(_), Link::Node(_)) => {
                            let (pk, pv) = n.left.max_entry();
                            let res = n.color.rotate(pk, pv, n.left.delete(pk), n.right.clone());
                            proof {
                                assert(self.nd().left.as_map().remove(pk).dom().contains(pk)
                                    == false);
                                assert(res.as_map() =~= self.as_map().remove(key));
                            }
                            res
                        },
                    }
                }
            },
        }
    }
}


impl<V: Copy> Tree<V> {
    /// Returns a new map without `key`; every other binding is unchanged, the
    /// receiver is not affected, and deleting an absent key returns an
    /// equivalent map.  A deficit that reaches the root is absorbed by
    /// demoting the root to plain black.
    pub fn delete(&self, key: u64) -> (res: Tree<V>)
        requires
            self.wf(),
        ensures
            res.wf(),
            res@ == self@.remove(key),
    {
        Tree { root: self.root.delete(key).double_black_to_black() }
    }
}

} // verus!


