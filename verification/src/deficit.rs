//! Deficit bookkeeping for deletion: when a key is removed, the subtree that lost it may
//! be one black level short.  The deficit is carried by the transient
//! `DoubleBlack` color (or by an empty link where a black leaf was spliced
//! out) and absorbed or handed upward by `Color::rotate`, which recolors the
//! intact sibling and finishes with a `Color::balance` call.

use vstd::prelude::*;

use crate::link::{lemma_node_parts, Color, Link};

verus! {

broadcast use vstd::map_lib::group_map_union;

/// The left child carries a one-black-level deficit: either a `DoubleBlack`
/// root whose two black levels stand for one too many, or an empty link
/// where a black leaf was spliced out (so the intact sibling has black
/// height 1).
pub open spec fn defic_left<V>(l: Link<V>, r: Link<V>) -> bool {
    ||| l.db_root() && r.rb() && r.bh() == l.bh()
    ||| l is Empty && r.rb() && r.bh() == 1
}

/// Mirror image of `defic_left`.
pub open spec fn defic_right<V>(l: Link<V>, r: Link<V>) -> bool {
    ||| r.db_root() && l.rb() && l.bh() == r.bh()
    ||| r is Empty && l.rb() && l.bh() == 1
}

/// What `Color::rotate` accepts: two intact children of equal black height,
/// or one intact child and one carrying the deficit left behind by a
/// deletion one level below.
pub open spec fn rot_pre<V>(l: Link<V>, r: Link<V>) -> bool {
    ||| l.rb() && r.rb() && l.bh() == r.bh()
    ||| defic_left(l, r)
    ||| defic_right(l, r)
}

impl<V: Copy> Link<V> {
    /// Demotes a `DoubleBlack` root to plain black (an empty link stays
    /// empty, and a black root is rebuilt unchanged).  This either absorbs a
    /// deficit that a sibling rotation accounted for, or finishes a deletion
    /// whose deficit reached the root.
    pub fn double_black_to_black(&self) -> (res: Link<V>)
        requires
            self.bst(),
            !self.is_red(),
        ensures
            res.as_map() == self.as_map(),
            res.bst(),
            !res.is_red(),
            self.rb() ==> res.rb() && res.bh() == self.bh(),
            self.db_root() ==> res.rb() && res.bh() + 1 == self.bh(),
            self is Empty <==> res is Empty,
            self is Node ==> res is Node && res.nd() == (crate::link::Node {
                key: self.nd().key,
                value: self.nd().value,
                left: self.nd().left,
                right: self.nd().right,
                color: Color::Black,
            }),
            res.inorder() == self.inorder(),
    {
        match self {
            Link::Empty => Link::Empty,
            Link::Node(n) => {
                let res = Link::node(Color::Black, n.key, n.value, n.left.clone(), n.right.clone());
                proof {
                    lemma_node_parts(*self);
                    lemma_node_parts(res);
                    assert(res.as_map() =~= self.as_map());
                    assert(res.inorder() =~= self.inorder());
                    assert(self.nd().left.bst() && self.nd().right.bst());
                    assert(res.bst());
                    if self.rb() || self.db_root() {
                        assert(self.nd().left.rb() && self.nd().right.rb());
                        assert(res.rb());
                    }
                }
                res
            },
        }
    }

    /// The greatest key of a non-empty subtree, with its value: the in-order
    /// predecessor used when deleting a node with two children.
    pub fn max_entry(&self) -> (res: (u64, V))
        requires
            self is Node,
            self.bst(),
        ensures
            self.as_map().dom().contains(res.0),
            self.as_map()[res.0] == res.1,
            forall|x: u64| self.as_map().dom().contains(x) ==> x <= res.0,
        decreases *self,
    {
        match self {
            Link::Node(n) => {
                proof {
                    lemma_node_parts(*self);
                    assert(self.nd().left.bst() && self.nd().right.bst());
                }
                match &n.right {
                    Link::Empty => (n.key, n.value),
                    Link::Node(_) => n.right.max_entry(),
                }
            },
            Link::Empty => vstd::pervasive::unreached(),
        }
    }
}

/// The recolored node handed to `balance` when a left-side deficit is
/// absorbed against a sibling `sib`: it is a search tree whose keys lie
/// strictly below `sib`'s key.
pub(crate) proof fn lemma_inner_left<V>(key: u64, value: V, gl: Link<V>, sib: Link<V>, gf: Link<V>, gi: Link<
    V,
>)
    requires
        gl.bst(),
        gl.keys_below(key),
        sib is Node,
        sib.bst(),
        sib.keys_above(key),
        gf.bst(),
        gf.as_map() == gl.as_map(),
        gi is Node,
        gi.nd() == (crate::link::Node {
            key: key,
            value: value,
            left: gf,
            right: sib.nd().left,
            color: Color::Red,
        }),
    ensures
        gi.bst(),
        gi.keys_below(sib.nd().key),
        sib.nd().left.bst(),
        sib.nd().right.bst(),
        sib.nd().right.keys_above(sib.nd().key),
{
    lemma_node_parts(sib);
    assert(sib.nd().left.bst() && sib.nd().right.bst());
    lemma_node_parts(gi);
    assert(gi.bst());
    assert(gi.keys_below(sib.nd().key));
}

/// Mirror image of `lemma_inner_left`.
pub(crate) proof fn lemma_inner_right<V>(key: u64, value: V, sib: Link<V>, gr: Link<V>, gf: Link<V>, gi: Link<
    V,
>)
    requires
        gr.bst(),
        gr.keys_above(key),
        sib is Node,
        sib.bst(),
        sib.keys_below(key),
        gf.bst(),
        gf.as_map() == gr.as_map(),
        gi is Node,
        gi.nd() == (crate::link::Node {
            key: key,
            value: value,
            left: sib.nd().right,
            right: gf,
            color: Color::Red,
        }),
    ensures
        gi.bst(),
        gi.keys_above(sib.nd().key),
        sib.nd().left.bst(),
        sib.nd().right.bst(),
        sib.nd().left.keys_below(sib.nd().key),
{
    lemma_node_parts(sib);
    assert(sib.nd().left.bst() && sib.nd().right.bst());
    lemma_node_parts(gi);
    assert(gi.bst());
    assert(gi.keys_above(sib.nd().key));
}

/// A left-side deficit absorbed against a black sibling: the `balance` call
/// on the recolored pieces yields the represented map and either repairs the
/// deficit (red parent) or hands one black level up (black parent).
#[verifier::spinoff_prover]
pub(crate) proof fn lemma_site_sib_black<V>(
    c: Color,
    key: u64,
    value: V,
    gl: Link<V>,
    gr: Link<V>,
    gf: Link<V>,
    gi: Link<V>,
    res: Link<V>,
)
    requires
        c is Red || c is Black,
        gl.bst(),
        gr.bst(),
        gl.keys_below(key),
        gr.keys_above(key),
        rot_pre(gl, gr),
        gl is Empty || gl.nd().color is DoubleBlack,
        gr is Node,
        gr.nd().color is Black,
        gf.as_map() == gl.as_map(),
        gf.bst(),
        !gf.is_red(),
        gl.rb() ==> gf.rb() && gf.bh() == gl.bh(),
        gl.db_root() ==> gf.rb() && gf.bh() + 1 == gl.bh(),
        gl is Empty <==> gf is Empty,
        gi is Node,
        gi.nd() == (crate::link::Node {
            key: key,
            value: value,
            left: gf,
            right: gr.nd().left,
            color: Color::Red,
        }),
        gf.inorder() == gl.inorder(),
        res.as_map() == gi.as_map().union_prefer_right(gr.nd().right.as_map()).insert(
            gr.nd().key,
            gr.nd().value,
        ),
        res.bst(),
        res.inorder() == gi.inorder() + seq![(gr.nd().key, gr.nd().value)]
            + gr.nd().right.inorder(),
        c is Red ==> ((gi.bh() == gr.nd().right.bh() && (gi.ins_shape() && gr.nd().right.rb()
            || gi.rb() && gr.nd().right.ins_shape())) ==> res.rb() && res.bh() == gi.bh() + 1),
        c is Black ==> ((gi.bh() == gr.nd().right.bh() && (gi.rb() && gr.nd().right.rb()
            || gi.infrared() && !gi.nd().left.is_red() && gr.nd().right.rb() || gi.rb()
            && gr.nd().right.infrared() && !gr.nd().right.nd().right.is_red())) ==> (res.rb()
            || res.db_root()) && res.bh() == gi.bh() + 2 && !res.is_red()),
    ensures
        res.as_map() == gl.as_map().union_prefer_right(gr.as_map()).insert(key, value),
        !(c is Red) ==> !res.is_red(),
        !(gl.rb() && gr.rb() && gl.bh() == gr.bh()),
        !defic_right(gl, gr),
        res.del_shape(gr.bh() + c.weight()),
        c is Red ==> res.rb() && res.bh() == gr.bh(),
        res.inorder() == gl.inorder() + seq![(key, value)] + gr.inorder(),
{
    lemma_node_parts(gr);
    lemma_node_parts(gi);
    assert(gr.nd().left.bst() && gr.nd().right.bst());
    assert(res.as_map() =~= gl.as_map().union_prefer_right(gr.as_map()).insert(key, value));
    assert(res.inorder() =~= gl.inorder() + seq![(key, value)] + gr.inorder());
    if gl.rb() && gr.rb() && gl.bh() == gr.bh() {
        assert(false);
    }
    if defic_right(gl, gr) {
        assert(false);
    }
    assert(defic_left(gl, gr));
    assert(gr.nd().left.rb() && gr.nd().right.rb());
    assert(gf.rb() && !gf.is_red());
    assert(gf.bh() + 1 == gr.bh());
    assert(gi.bh() == gr.nd().right.bh());
    if gi.nd().right.is_red() {
        assert(gi.infrared());
    } else {
        assert(gi.rb());
    }
    assert(gi.ins_shape());
    assert(res.del_shape(gr.bh() + c.weight()));
}

/// Mirror image of `lemma_site_sib_black`.
#[verifier::spinoff_prover]
pub(crate) proof fn lemma_site_sib_black_mirror<V>(
    c: Color,
    key: u64,
    value: V,
    gl: Link<V>,
    gr: Link<V>,
    gf: Link<V>,
    gi: Link<V>,
    res: Link<V>,
)
    requires
        c is Red || c is Black,
        gl.bst(),
        gr.bst(),
        gl.keys_below(key),
        gr.keys_above(key),
        rot_pre(gl, gr),
        gr is Empty || gr.nd().color is DoubleBlack,
        gl is Node,
        gl.nd().color is Black,
        gf.as_map() == gr.as_map(),
        gf.bst(),
        !gf.is_red(),
        gr.rb() ==> gf.rb() && gf.bh() == gr.bh(),
        gr.db_root() ==> gf.rb() && gf.bh() + 1 == gr.bh(),
        gr is Empty <==> gf is Empty,
        gi is Node,
        gi.nd() == (crate::link::Node {
            key: key,
            value: value,
            left: gl.nd().right,
            right: gf,
            color: Color::Red,
        }),
        gf.inorder() == gr.inorder(),
        res.as_map() == gl.nd().left.as_map().union_prefer_right(gi.as_map()).insert(
            gl.nd().key,
            gl.nd().value,
        ),
        res.bst(),
        res.inorder() == gl.nd().left.inorder() + seq![(gl.nd().key, gl.nd().value)]
            + gi.inorder(),
        c is Red ==> ((gl.nd().left.bh() == gi.bh() && (gl.nd().left.ins_shape() && gi.rb()
            || gl.nd().left.rb() && gi.ins_shape())) ==> res.rb() && res.bh() == gl.nd().left.bh()
            + 1),
        c is Black ==> ((gl.nd().left.bh() == gi.bh() && (gl.nd().left.rb() && gi.rb()
            || gl.nd().left.infrared() && !gl.nd().left.nd().left.is_red() && gi.rb()
            || gl.nd().left.rb() && gi.infrared() && !gi.nd().right.is_red())) ==> (res.rb()
            || res.db_root()) && res.bh() == gl.nd().left.bh() + 2 && !res.is_red()),
    ensures
        res.as_map() == gl.as_map().union_prefer_right(gr.as_map()).insert(key, value),
        !(c is Red) ==> !res.is_red(),
        !(gl.rb() && gr.rb() && gl.bh() == gr.bh()),
        !defic_left(gl, gr),
        res.del_shape(gl.bh() + c.weight()),
        c is Red ==> res.rb() && res.bh() == gl.bh(),
        res.inorder() == gl.inorder() + seq![(key, value)] + gr.inorder(),
{
    lemma_node_parts(gl);
    lemma_node_parts(gi);
    assert(gl.nd().left.bst() && gl.nd().right.bst());
    assert(res.as_map() =~= gl.as_map().union_prefer_right(gr.as_map()).insert(key, value));
    assert(res.inorder() =~= gl.inorder() + seq![(key, value)] + gr.inorder());
    if gl.rb() && gr.rb() && gl.bh() == gr.bh() {
        assert(false);
    }
    if defic_left(gl, gr) {
        assert(false);
    }
    assert(defic_right(gl, gr));
    assert(gl.nd().left.rb() && gl.nd().right.rb());
    assert(gf.rb() && !gf.is_red());
    assert(gf.bh() + 1 == gl.bh());
    assert(gi.bh() == gl.nd().left.bh());
    if gi.nd().left.is_red() {
        assert(gi.infrared());
    } else {
        assert(gi.rb());
    }
    assert(gi.ins_shape());
    assert(res.del_shape(gl.bh() + c.weight()));
}

/// A left-side deficit under a black parent whose sibling is red: a two-level
/// rotation that resolves the deficit locally, using a nested `balance` on
/// the sibling's near child.
#[verifier::spinoff_prover]
pub(crate) proof fn lemma_site_sib_red<V>(
    c: Color,
    key: u64,
    value: V,
    gl: Link<V>,
    gr: Link<V>,
    gf: Link<V>,
    gi: Link<V>,
    gb: Link<V>,
    res: Link<V>,
)
    requires
        c is Black,
        gl.bst(),
        gr.bst(),
        gl.keys_below(key),
        gr.keys_above(key),
        rot_pre(gl, gr),
        gl is Empty || gl.nd().color is DoubleBlack,
        gr is Node,
        gr.nd().color is Red,
        gr.nd().left is Node,
        gr.nd().left.nd().color is Black,
        gf.as_map() == gl.as_map(),
        gf.bst(),
        !gf.is_red(),
        gl.rb() ==> gf.rb() && gf.bh() == gl.bh(),
        gl.db_root() ==> gf.rb() && gf.bh() + 1 == gl.bh(),
        gl is Empty <==> gf is Empty,
        gi is Node,
        gi.nd() == (crate::link::Node {
            key: key,
            value: value,
            left: gf,
            right: gr.nd().left.nd().left,
            color: Color::Red,
        }),
        gf.inorder() == gl.inorder(),
        gb.as_map() == gi.as_map().union_prefer_right(gr.nd().left.nd().right.as_map()).insert(
            gr.nd().left.nd().key,
            gr.nd().left.nd().value,
        ),
        gb.bst(),
        gb.inorder() == gi.inorder() + seq![(gr.nd().left.nd().key, gr.nd().left.nd().value)]
            + gr.nd().left.nd().right.inorder(),
        (gi.bh() == gr.nd().left.nd().right.bh() && (gi.ins_shape() && gr.nd().left.nd().right.rb()
            || gi.rb() && gr.nd().left.nd().right.ins_shape())) ==> gb.rb() && gb.bh() == gi.bh()
            + 1,
        res is Node,
        res.nd() == (crate::link::Node {
            key: gr.nd().key,
            value: gr.nd().value,
            left: gb,
            right: gr.nd().right,
            color: Color::Black,
        }),
    ensures
        res.as_map() == gl.as_map().union_prefer_right(gr.as_map()).insert(key, value),
        res.bst(),
        !res.is_red(),
        !(gl.rb() && gr.rb() && gl.bh() == gr.bh()),
        !defic_right(gl, gr),
        res.del_shape(gr.bh() + c.weight()),
        res.rb() && res.bh() == gr.bh() + 1,
        res.inorder() == gl.inorder() + seq![(key, value)] + gr.inorder(),
{
    lemma_node_parts(gr);
    lemma_node_parts(gr.nd().left);
    lemma_node_parts(gi);
    lemma_node_parts(res);
    assert(gr.nd().left.bst() && gr.nd().right.bst());
    assert(gr.nd().left.nd().left.bst() && gr.nd().left.nd().right.bst());
    assert(res.as_map() =~= gl.as_map().union_prefer_right(gr.as_map()).insert(key, value));
    assert(res.inorder() =~= gl.inorder() + seq![(key, value)] + gr.inorder());
    assert(res.bst());
    if gl.rb() && gr.rb() && gl.bh() == gr.bh() {
        assert(false);
    }
    if defic_right(gl, gr) {
        assert(false);
    }
    assert(defic_left(gl, gr));
    assert(gr.nd().left.rb() && gr.nd().right.rb());
    assert(gr.nd().left.nd().left.rb() && gr.nd().left.nd().right.rb());
    assert(gf.rb() && !gf.is_red());
    assert(gf.bh() + 1 == gr.bh());
    assert(gi.bh() == gr.nd().left.nd().right.bh());
    if gi.nd().right.is_red() {
        assert(gi.infrared());
    } else {
        assert(gi.rb());
    }
    assert(gi.ins_shape());
    assert(gb.rb() && gb.bh() == gr.bh());
    assert(res.rb());
    assert(res.del_shape(gr.bh() + c.weight()));
}

/// Mirror image of `lemma_site_sib_red`.
#[verifier::spinoff_prover]
pub(crate) proof fn lemma_site_sib_red_mirror<V>(
    c: Color,
    key: u64,
    value: V,
    gl: Link<V>,
    gr: Link<V>,
    gf: Link<V>,
    gi: Link<V>,
    gb: Link<V>,
    res: Link<V>,
)
    requires
        c is Black,
        gl.bst(),
        gr.bst(),
        gl.keys_below(key),
        gr.keys_above(key),
        rot_pre(gl, gr),
        gr is Empty || gr.nd().color is DoubleBlack,
        gl is Node,
        gl.nd().color is Red,
        gl.nd().right is Node,
        gl.nd().right.nd().color is Black,
        gf.as_map() == gr.as_map(),
        gf.bst(),
        !gf.is_red(),
        gr.rb() ==> gf.rb() && gf.bh() == gr.bh(),
        gr.db_root() ==> gf.rb() && gf.bh() + 1 == gr.bh(),
        gr is Empty <==> gf is Empty,
        gi is Node,
        gi.nd() == (crate::link::Node {
            key: key,
            value: value,
            left: gl.nd().right.nd().right,
            right: gf,
            color: Color::Red,
        }),
        gf.inorder() == gr.inorder(),
        gb.as_map() == gl.nd().right.nd().left.as_map().union_prefer_right(gi.as_map()).insert(
            gl.nd().right.nd().key,
            gl.nd().right.nd().value,
        ),
        gb.bst(),
        gb.inorder() == gl.nd().right.nd().left.inorder() + seq![
            (gl.nd().right.nd().key, gl.nd().right.nd().value),
        ] + gi.inorder(),
        (gl.nd().right.nd().left.bh() == gi.bh() && (gl.nd().right.nd().left.ins_shape()
            && gi.rb() || gl.nd().right.nd().left.rb() && gi.ins_shape())) ==> gb.rb() && gb.bh()
            == gl.nd().right.nd().left.bh() + 1,
        res is Node,
        res.nd() == (crate::link::Node {
            key: gl.nd().key,
            value: gl.nd().value,
            left: gl.nd().left,
            right: gb,
            color: Color::Black,
        }),
    ensures
        res.as_map() == gl.as_map().union_prefer_right(gr.as_map()).insert(key, value),
        res.bst(),
        !res.is_red(),
        !(gl.rb() && gr.rb() && gl.bh() == gr.bh()),
        !defic_left(gl, gr),
        res.del_shape(gl.bh() + c.weight()),
        res.rb() && res.bh() == gl.bh() + 1,
        res.inorder() == gl.inorder() + seq![(key, value)] + gr.inorder(),
{
    lemma_node_parts(gl);
    lemma_node_parts(gl.nd().right);
    lemma_node_parts(gi);
    lemma_node_parts(res);
    assert(gl.nd().left.bst() && gl.nd().right.bst());
    assert(gl.nd().right.nd().left.bst() && gl.nd().right.nd().right.bst());
    assert(res.as_map() =~= gl.as_map().union_prefer_right(gr.as_map()).insert(key, value));
    assert(res.inorder() =~= gl.inorder() + seq![(key, value)] + gr.inorder());
    assert(res.bst());
    if gl.rb() && gr.rb() && gl.bh() == gr.bh() {
        assert(false);
    }
    if defic_left(gl, gr) {
        assert(false);
    }
    assert(defic_right(gl, gr));
    assert(gl.nd().left.rb() && gl.nd().right.rb());
    assert(gl.nd().right.nd().left.rb() && gl.nd().right.nd().right.rb());
    assert(gf.rb() && !gf.is_red());
    assert(gf.bh() + 1 == gl.bh());
    assert(gi.bh() == gl.nd().right.nd().left.bh());
    if gi.nd().left.is_red() {
        assert(gi.infrared());
    } else {
        assert(gi.rb());
    }
    assert(gi.ins_shape());
    assert(gb.rb() && gb.bh() == gl.bh());
    assert(res.rb());
    assert(res.del_shape(gl.bh() + c.weight()));
}

} // verus!
