//! The local rebalancing step shared by insertion and deletion.
//!
//! `Color::balance` inspects a node about to be rebuilt and, when it finds one
//! of the classic danger shapes (a red child with a red grandchild under a
//! black root, or an inner red grandchild under a transient `DoubleBlack`
//! root), rebuilds the three nodes involved as a single rearrangement that
//! restores the red-black invariants without changing the represented map.

use vstd::prelude::*;

use crate::link::{lemma_node_parts, Color, Link};

verus! {

broadcast use vstd::map_lib::group_map_union;

impl<V> Link<V> {
    /// Rebuilds a 3-node, 4-subtree local configuration: the middle key
    /// becomes the subtree root with the given color, and the outer keys
    /// become its two black children, each owning two of the four subtrees.
    pub fn rearrangement(
        color: Color,
        parent_key: u64,
        parent_value: V,
        left_key: u64,
        left_value: V,
        left_left: Link<V>,
        left_right: Link<V>,
        right_key: u64,
        right_value: V,
        right_left: Link<V>,
        right_right: Link<V>,
    ) -> (res: Link<V>)
        ensures
            res is Node,
            res.nd().color == color,
            res.nd().key == parent_key,
            res.nd().value == parent_value,
            res.nd().left is Node,
            res.nd().left.nd() == (crate::link::Node {
                key: left_key,
                value: left_value,
                left: left_left,
                right: left_right,
                color: Color::Black,
            }),
            res.nd().right is Node,
            res.nd().right.nd() == (crate::link::Node {
                key: right_key,
                value: right_value,
                left: right_left,
                right: right_right,
                color: Color::Black,
            }),
    {
        let new_left = Link::node(Color::Black, left_key, left_value, left_left, left_right);
        let new_right = Link::node(Color::Black, right_key, right_value, right_left, right_right);
        Link::node(color, parent_key, parent_value, new_left, new_right)
    }
}

impl Color {
    /// Rebuilds a node of this color from its parts, repairing any local
    /// red-black violation the parts carry.
    ///
    /// Under a `Black` root it eliminates a red child with a red grandchild
    /// (the four insertion danger shapes); under a `DoubleBlack` root it
    /// absorbs the black-height deficit against an inner red grandchild.  If
    /// no danger shape matches, the node is rebuilt unchanged.
    #[verifier::rlimit(100)]
    pub fn balance<V: Copy>(self, key: u64, value: V, left: Link<V>, right: Link<V>) -> (res: Link<
        V,
    >)
        requires
            left.bst(),
            right.bst(),
            left.keys_below(key),
            right.keys_above(key),
        ensures
            res.as_map() == left.as_map().union_prefer_right(right.as_map()).insert(key, value),
            res.bst(),
            (self is Red && left.rb() && right.rb() && left.bh() == right.bh()) ==> res.infrared()
                && res.bh() == left.bh(),
            (self is Black && left.bh() == right.bh() && (left.ins_shape() && right.rb()
                || left.rb() && right.ins_shape())) ==> res.rb() && res.bh() == left.bh() + 1,
            (self is DoubleBlack && left.bh() == right.bh() && (left.rb() && right.rb()
                || left.infrared() && !left.nd().left.is_red() && right.rb()
                || left.rb() && right.infrared() && !right.nd().right.is_red())) ==> (res.rb()
                || res.db_root()) && res.bh() == left.bh() + 2 && !res.is_red(),
            // with a danger shape under a double-black root, the deficit is
            // absorbed outright: no transient color remains
            (self is DoubleBlack && left.bh() == right.bh() && (left.rb() && right.rb()
                || left.infrared() && !left.nd().left.is_red() && right.rb()
                || left.rb() && right.infrared() && !right.nd().right.is_red())
                && danger_shape(self, left, right)) ==> res.rb(),
            // which rearrangement happened, in the order the shapes are tried:
            // the middle key becomes the root, over two black children
            (self is Black && left.is_red() && left.nd().left.is_red()) ==> decomp_ll(
                key,
                value,
                left,
                right,
                res,
            ) && res.nd().color is Red,
            (self is Black && left.is_red() && !left.nd().left.is_red()
                && left.nd().right.is_red()) ==> decomp_lr(key, value, left, right, res)
                && res.nd().color is Red,
            (self is Black && !(left.is_red() && (left.nd().left.is_red()
                || left.nd().right.is_red())) && right.is_red() && right.nd().left.is_red())
                ==> decomp_rl(key, value, left, right, res) && res.nd().color is Red,
            (self is Black && !(left.is_red() && (left.nd().left.is_red()
                || left.nd().right.is_red())) && right.is_red() && !right.nd().left.is_red()
                && right.nd().right.is_red()) ==> decomp_rr(key, value, left, right, res)
                && res.nd().color is Red,
            (self is DoubleBlack && left.is_red() && left.nd().right.is_red()) ==> decomp_lr(
                key,
                value,
                left,
                right,
                res,
            ) && res.nd().color is Black,
            (self is DoubleBlack && !(left.is_red() && left.nd().right.is_red())
                && right.is_red() && right.nd().left.is_red()) ==> decomp_rl(
                key,
                value,
                left,
                right,
                res,
            ) && res.nd().color is Black,
            // with no danger shape the node is rebuilt from its parts unchanged
            !danger_shape(self, left, right) ==> res is Node && res.nd() == (crate::link::Node {
                key,
                value,
                left,
                right,
                color: self,
            }),
            // whatever was rearranged, the in-order sequence is untouched
            res.inorder() == left.inorder() + seq![(key, value)] + right.inorder(),
    {
        let ghost gl = left;
        let ghost gr = right;
        if self.is_black() {
            if let Some(l) = left.get_if_red() {
                if let Some(ll) = l.left.get_if_red() {
                    let res = Link::rearrangement(
                        Color::Red,
                        l.key,
                        l.value,
                        ll.key,
                        ll.value,
                        ll.left.clone(),
                        ll.right.clone(),
                        key,
                        value,
                        l.right.clone(),
                        right,
                    );
                    proof {
                        lemma_site_ll(key, value, gl, gr, res);
                    }
                    return res;
                }
                if let Some(lr) = l.right.get_if_red() {
                    let res = Link::rearrangement(
                        Color::Red,
                        lr.key,
                        lr.value,
                        l.key,
                        l.value,
                        l.left.clone(),
                        lr.left.clone(),
                        key,
                        value,
                        lr.right.clone(),
                        right,
                    );
                    proof {
                        lemma_site_lr(key, value, gl, gr, res);
                    }
                    return res;
                }
            }
            if let Some(r) = right.get_if_red() {
                if let Some(rl) = r.left.get_if_red() {
                    let res = Link::rearrangement(
                        Color::Red,
                        rl.key,
                        rl.value,
                        key,
                        value,
                        left,
                        rl.left.clone(),
                        r.key,
                        r.value,
                        rl.right.clone(),
                        r.right.clone(),
                    );
                    proof {
                        lemma_site_rl(key, value, gl, gr, res);
                    }
                    return res;
                }
                if let Some(rr) = r.right.get_if_red() {
                    let res = Link::rearrangement(
                        Color::Red,
                        r.key,
                        r.value,
                        key,
                        value,
                        left,
                        r.left.clone(),
                        rr.key,
                        rr.value,
                        rr.left.clone(),
                        rr.right.clone(),
                    );
                    proof {
                        lemma_site_rr(key, value, gl, gr, res);
                    }
                    return res;
                }
            }
        }
        if self.is_double_black() {
            if let Some(l) = left.get_if_red() {
                if let Some(lr) = l.right.get_if_red() {
                    let res = Link::rearrangement(
                        Color::Black,
                        lr.key,
                        lr.value,
                        l.key,
                        l.value,
                        l.left.clone(),
                        lr.left.clone(),
                        key,
                        value,
                        lr.right.clone(),
                        right,
                    );
                    proof {
                        lemma_site_lr(key, value, gl, gr, res);
                    }
                    return res;
                }
            }
            if let Some(r) = right.get_if_red() {
                if let Some(rl) = r.left.get_if_red() {
                    let res = Link::rearrangement(
                        Color::Black,
                        rl.key,
                        rl.value,
                        key,
                        value,
                        left,
                        rl.left.clone(),
                        r.key,
                        r.value,
                        rl.right.clone(),
                        r.right.clone(),
                    );
                    proof {
                        lemma_site_rl(key, value, gl, gr, res);
                    }
                    return res;
                }
            }
        }
        let res = Link::node(self, key, value, left, right);
        proof {
            lemma_node_parts(res);
            if self is Red && gl.rb() && gr.rb() && gl.bh() == gr.bh() {
                assert(res.infrared());
                assert(res.bh() == gl.bh());
            }
            if self is Black && gl.bh() == gr.bh() && (gl.ins_shape() && gr.rb() || gl.rb()
                && gr.ins_shape()) {
                assert(gl.rb());
                assert(gr.rb());
                assert(res.rb());
            }
            if self is DoubleBlack && gl.bh() == gr.bh() && (gl.rb() && gr.rb() || gl.infrared()
                && !gl.nd().left.is_red() && gr.rb() || gl.rb() && gr.infrared()
                && !gr.nd().right.is_red()) {
                assert(gl.rb());
                assert(gr.rb());
                assert(res.db_root());
            }
        }
        res
    }
}

/// Correctness of the left-left rearrangement: same map plus the new
/// binding, search order kept, and a valid red-rooted subtree one black
/// level taller than the parts.
proof fn lemma_site_ll<V>(key: u64, value: V, gl: Link<V>, gr: Link<V>, res: Link<V>)
    requires
        gl.bst(),
        gr.bst(),
        gl.keys_below(key),
        gr.keys_above(key),
        decomp_ll(key, value, gl, gr, res),
        res.nd().color is Red,
    ensures
        res.as_map() == gl.as_map().union_prefer_right(gr.as_map()).insert(key, value),
        res.bst(),
        (gl.bh() == gr.bh() && (gl.ins_shape() && gr.rb() || gl.rb() && gr.ins_shape()))
            ==> res.rb() && res.bh() == gl.bh() + 1,
        res.inorder() == gl.inorder() + seq![(key, value)] + gr.inorder(),
{
    lemma_node_parts(res);
    lemma_node_parts(res.nd().left);
    lemma_node_parts(res.nd().right);
    lemma_node_parts(gl);
    lemma_node_parts(gl.nd().left);
    assert(gl.nd().left.bst() && gl.nd().right.bst());
    assert(gl.nd().left.nd().left.bst() && gl.nd().left.nd().right.bst());
    assert(res.as_map() =~= gl.as_map().union_prefer_right(gr.as_map()).insert(key, value));
    assert(res.inorder() =~= gl.inorder() + seq![(key, value)] + gr.inorder());
    assert(res.nd().left.bst());
    assert(res.nd().right.bst());
    assert(res.bst());
    if gl.bh() == gr.bh() && (gl.ins_shape() && gr.rb() || gl.rb() && gr.ins_shape()) {
        assert(!gl.rb());
        assert(gl.nd().left.rb() && gl.nd().right.rb());
        assert(gl.nd().left.nd().left.rb() && gl.nd().left.nd().right.rb());
        assert(res.nd().left.rb() && res.nd().right.rb());
        assert(res.rb() && res.bh() == gl.bh() + 1);
    }
}

/// Correctness of the left-right rearrangement.  With a red root it repairs
/// an insertion shape; with a black root it absorbs a deletion deficit (the
/// `DoubleBlack` parent's two extra black levels land on this subtree).
proof fn lemma_site_lr<V>(key: u64, value: V, gl: Link<V>, gr: Link<V>, res: Link<V>)
    requires
        gl.bst(),
        gr.bst(),
        gl.keys_below(key),
        gr.keys_above(key),
        decomp_lr(key, value, gl, gr, res),
        res.nd().color is Red || res.nd().color is Black,
    ensures
        res.as_map() == gl.as_map().union_prefer_right(gr.as_map()).insert(key, value),
        res.bst(),
        (res.nd().color is Red && gl.bh() == gr.bh() && (gl.ins_shape() && gr.rb() || gl.rb()
            && gr.ins_shape())) ==> res.rb() && res.bh() == gl.bh() + 1,
        (res.nd().color is Black && gl.bh() == gr.bh() && (gl.rb() && gr.rb() || gl.infrared()
            && !gl.nd().left.is_red() && gr.rb() || gl.rb() && gr.infrared()
            && !gr.nd().right.is_red())) ==> res.rb() && res.bh() == gl.bh() + 2 && !res.is_red(),
        res.inorder() == gl.inorder() + seq![(key, value)] + gr.inorder(),
{
    lemma_node_parts(res);
    lemma_node_parts(res.nd().left);
    lemma_node_parts(res.nd().right);
    lemma_node_parts(gl);
    lemma_node_parts(gl.nd().right);
    assert(gl.nd().left.bst() && gl.nd().right.bst());
    assert(gl.nd().right.nd().left.bst() && gl.nd().right.nd().right.bst());
    assert(res.as_map() =~= gl.as_map().union_prefer_right(gr.as_map()).insert(key, value));
    assert(res.inorder() =~= gl.inorder() + seq![(key, value)] + gr.inorder());
    assert(res.nd().left.bst());
    assert(res.nd().right.bst());
    assert(res.bst());
    assert(!gl.rb());
    if res.nd().color is Red && gl.bh() == gr.bh() && (gl.ins_shape() && gr.rb() || gl.rb() && gr.ins_shape()) {
        assert(gl.nd().left.rb() && gl.nd().right.rb());
        assert(gl.nd().right.nd().left.rb() && gl.nd().right.nd().right.rb());
        assert(gl.nd().right.nd().left.bh() == gl.nd().right.nd().right.bh());
        assert(gl.nd().left.bh() == gl.nd().right.bh());
        assert(res.nd().left.rb() && res.nd().right.rb());
        assert(res.nd().left.bh() == res.nd().right.bh());
        assert(res.rb() && res.bh() == gl.bh() + 1);
    }
    if gl.bh() == gr.bh() && gl.infrared() && !gl.nd().left.is_red() && gr.rb() {
        assert(gl.nd().left.rb() && gl.nd().right.rb());
        assert(gl.nd().right.nd().left.rb() && gl.nd().right.nd().right.rb());
        assert(res.nd().left.rb() && res.nd().right.rb());
        assert(res.nd().color is Black ==> res.rb() && res.bh() == gl.bh() + 2);
    }
}

/// Correctness of the right-left rearrangement, the mirror image of the
/// left-right one.
proof fn lemma_site_rl<V>(key: u64, value: V, gl: Link<V>, gr: Link<V>, res: Link<V>)
    requires
        gl.bst(),
        gr.bst(),
        gl.keys_below(key),
        gr.keys_above(key),
        decomp_rl(key, value, gl, gr, res),
        res.nd().color is Red || res.nd().color is Black,
    ensures
        res.as_map() == gl.as_map().union_prefer_right(gr.as_map()).insert(key, value),
        res.bst(),
        (res.nd().color is Red && gl.bh() == gr.bh() && (gl.ins_shape() && gr.rb() || gl.rb()
            && gr.ins_shape())) ==> res.rb() && res.bh() == gl.bh() + 1,
        (res.nd().color is Black && gl.bh() == gr.bh() && (gl.rb() && gr.rb() || gl.infrared()
            && !gl.nd().left.is_red() && gr.rb() || gl.rb() && gr.infrared()
            && !gr.nd().right.is_red())) ==> res.rb() && res.bh() == gl.bh() + 2 && !res.is_red(),
        res.inorder() == gl.inorder() + seq![(key, value)] + gr.inorder(),
{
    lemma_node_parts(res);
    lemma_node_parts(res.nd().left);
    lemma_node_parts(res.nd().right);
    lemma_node_parts(gr);
    lemma_node_parts(gr.nd().left);
    assert(gr.nd().left.bst() && gr.nd().right.bst());
    assert(gr.nd().left.nd().left.bst() && gr.nd().left.nd().right.bst());
    assert(res.as_map() =~= gl.as_map().union_prefer_right(gr.as_map()).insert(key, value));
    assert(res.inorder() =~= gl.inorder() + seq![(key, value)] + gr.inorder());
    assert(res.nd().left.bst());
    assert(res.nd().right.bst());
    assert(res.bst());
    assert(!gr.rb());
    if res.nd().color is Red && gl.bh() == gr.bh() && (gl.ins_shape() && gr.rb() || gl.rb() && gr.ins_shape()) {
        assert(gr.nd().left.rb() && gr.nd().right.rb());
        assert(gr.nd().left.nd().left.rb() && gr.nd().left.nd().right.rb());
        assert(gr.nd().left.nd().left.bh() == gr.nd().left.nd().right.bh());
        assert(gr.nd().left.bh() == gr.nd().right.bh());
        assert(res.nd().left.rb() && res.nd().right.rb());
        assert(res.nd().left.bh() == res.nd().right.bh());
        assert(res.rb() && res.bh() == gl.bh() + 1);
    }
    if gl.bh() == gr.bh() && gl.rb() && gr.infrared() && !gr.nd().right.is_red() {
        assert(gr.nd().left.rb() && gr.nd().right.rb());
        assert(gr.nd().left.nd().left.rb() && gr.nd().left.nd().right.rb());
        assert(res.nd().left.rb() && res.nd().right.rb());
        assert(res.nd().color is Black ==> res.rb() && res.bh() == gl.bh() + 2);
    }
}

/// Correctness of the right-right rearrangement, the mirror image of the
/// left-left one.
proof fn lemma_site_rr<V>(key: u64, value: V, gl: Link<V>, gr: Link<V>, res: Link<V>)
    requires
        gl.bst(),
        gr.bst(),
        gl.keys_below(key),
        gr.keys_above(key),
        decomp_rr(key, value, gl, gr, res),
        res.nd().color is Red,
    ensures
        res.as_map() == gl.as_map().union_prefer_right(gr.as_map()).insert(key, value),
        res.bst(),
        (gl.bh() == gr.bh() && (gl.ins_shape() && gr.rb() || gl.rb() && gr.ins_shape()))
            ==> res.rb() && res.bh() == gl.bh() + 1,
        res.inorder() == gl.inorder() + seq![(key, value)] + gr.inorder(),
{
    lemma_node_parts(res);
    lemma_node_parts(res.nd().left);
    lemma_node_parts(res.nd().right);
    lemma_node_parts(gr);
    lemma_node_parts(gr.nd().right);
    assert(gr.nd().left.bst() && gr.nd().right.bst());
    assert(gr.nd().right.nd().left.bst() && gr.nd().right.nd().right.bst());
    assert(res.as_map() =~= gl.as_map().union_prefer_right(gr.as_map()).insert(key, value));
    assert(res.inorder() =~= gl.inorder() + seq![(key, value)] + gr.inorder());
    assert(res.nd().left.bst());
    assert(res.nd().right.bst());
    assert(res.bst());
    if gl.bh() == gr.bh() && (gl.ins_shape() && gr.rb() || gl.rb() && gr.ins_shape()) {
        assert(!gr.rb());
        assert(gr.nd().left.rb() && gr.nd().right.rb());
        assert(gr.nd().right.nd().left.rb() && gr.nd().right.nd().right.rb());
        assert(res.nd().left.rb() && res.nd().right.rb());
        assert(res.rb() && res.bh() == gl.bh() + 1);
    }
}

/// One of the local shapes `balance` repairs: under a black root, a red child
/// with a red grandchild (the four insertion danger shapes); under a
/// double-black root, a red child with an inner red grandchild.
pub open spec fn danger_shape<V>(c: Color, l: Link<V>, r: Link<V>) -> bool {
    ||| c is Black && (l.is_red() && (l.nd().left.is_red() || l.nd().right.is_red())
        || r.is_red() && (r.nd().left.is_red() || r.nd().right.is_red()))
    ||| c is DoubleBlack && (l.is_red() && l.nd().right.is_red() || r.is_red()
        && r.nd().left.is_red())
}

/// The node being rebuilt had a red left child with a red left grandchild;
/// the left child's key became the new root, the grandchild and the old root
/// its black children.
pub open spec fn decomp_ll<V>(key: u64, value: V, gl: Link<V>, gr: Link<V>, res: Link<V>) -> bool {
    &&& gl is Node
    &&& gl.nd().left is Node
    &&& gl.is_red()
    &&& gl.nd().left.is_red()
    &&& res is Node
    &&& res.nd().key == gl.nd().key
    &&& res.nd().value == gl.nd().value
    &&& res.nd().left is Node
    &&& res.nd().left.nd() == (crate::link::Node {
        key: gl.nd().left.nd().key,
        value: gl.nd().left.nd().value,
        left: gl.nd().left.nd().left,
        right: gl.nd().left.nd().right,
        color: Color::Black,
    })
    &&& res.nd().right is Node
    &&& res.nd().right.nd() == (crate::link::Node {
        key: key,
        value: value,
        left: gl.nd().right,
        right: gr,
        color: Color::Black,
    })
}

/// The node being rebuilt had a red left child with a red right grandchild;
/// the grandchild's key became the new root.
pub open spec fn decomp_lr<V>(key: u64, value: V, gl: Link<V>, gr: Link<V>, res: Link<V>) -> bool {
    &&& gl is Node
    &&& gl.nd().right is Node
    &&& gl.is_red()
    &&& gl.nd().right.is_red()
    &&& res is Node
    &&& res.nd().key == gl.nd().right.nd().key
    &&& res.nd().value == gl.nd().right.nd().value
    &&& res.nd().left is Node
    &&& res.nd().left.nd() == (crate::link::Node {
        key: gl.nd().key,
        value: gl.nd().value,
        left: gl.nd().left,
        right: gl.nd().right.nd().left,
        color: Color::Black,
    })
    &&& res.nd().right is Node
    &&& res.nd().right.nd() == (crate::link::Node {
        key: key,
        value: value,
        left: gl.nd().right.nd().right,
        right: gr,
        color: Color::Black,
    })
}

/// The node being rebuilt had a red right child with a red left grandchild;
/// the grandchild's key became the new root.
pub open spec fn decomp_rl<V>(key: u64, value: V, gl: Link<V>, gr: Link<V>, res: Link<V>) -> bool {
    &&& gr is Node
    &&& gr.nd().left is Node
    &&& gr.is_red()
    &&& gr.nd().left.is_red()
    &&& res is Node
    &&& res.nd().key == gr.nd().left.nd().key
    &&& res.nd().value == gr.nd().left.nd().value
    &&& res.nd().left is Node
    &&& res.nd().left.nd() == (crate::link::Node {
        key: key,
        value: value,
        left: gl,
        right: gr.nd().left.nd().left,
        color: Color::Black,
    })
    &&& res.nd().right is Node
    &&& res.nd().right.nd() == (crate::link::Node {
        key: gr.nd().key,
        value: gr.nd().value,
        left: gr.nd().left.nd().right,
        right: gr.nd().right,
        color: Color::Black,
    })
}

/// The node being rebuilt had a red right child with a red right grandchild;
/// the right child's key became the new root.
pub open spec fn decomp_rr<V>(key: u64, value: V, gl: Link<V>, gr: Link<V>, res: Link<V>) -> bool {
    &&& gr is Node
    &&& gr.nd().right is Node
    &&& gr.is_red()
    &&& gr.nd().right.is_red()
    &&& res is Node
    &&& res.nd().key == gr.nd().key
    &&& res.nd().value == gr.nd().value
    &&& res.nd().left is Node
    &&& res.nd().left.nd() == (crate::link::Node {
        key: key,
        value: value,
        left: gl,
        right: gr.nd().left,
        color: Color::Black,
    })
    &&& res.nd().right is Node
    &&& res.nd().right.nd() == (crate::link::Node {
        key: gr.nd().right.nd().key,
        value: gr.nd().right.nd().value,
        left: gr.nd().right.nd().left,
        right: gr.nd().right.nd().right,
        color: Color::Black,
    })
}

} // verus!
