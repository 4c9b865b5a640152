//! The laws of the map, stated and proved over the model: ascending
//! iteration, iteration determined by the represented map alone, the
//! red-black structure invariants, deletion against insertion, the height
//! bound, and deletion of an absent key as a no-op.

use vstd::arithmetic::power2::{lemma_pow2_strictly_increases, pow2};
use vstd::prelude::*;

use crate::insert::map_of_pairs;
use crate::link::{lemma_node_parts, Link};
use crate::tree::Tree;

verus! {

broadcast use vstd::map_lib::group_map_union;

/// Keys strictly ascend along the sequence: no duplicates, no inversions.
pub open spec fn sorted_by_key<V>(s: Seq<(u64, V)>) -> bool {
    forall|i: int, j: int| 0 <= i < j < s.len() ==> (#[trigger] s[i]).0 < (#[trigger] s[j]).0
}

/// The sequence lists exactly the bindings of the map: every listed pair is a
/// binding, every binding is listed, and the lengths agree.
pub open spec fn matches_map<V>(s: Seq<(u64, V)>, m: Map<u64, V>) -> bool {
    &&& forall|i: int|
        0 <= i < s.len() ==> m.dom().contains((#[trigger] s[i]).0) && m[s[i].0] == s[i].1
    &&& forall|k: u64| #[trigger] m.dom().contains(k) ==> s.contains((k, m[k]))
    &&& s.len() == m.dom().len()
}

/// No red node has a red child, anywhere in the subtree.
pub open spec fn no_red_red<V>(l: Link<V>) -> bool
    decreases l,
{
    match l {
        Link::Empty => true,
        Link::Node(n) => {
            &&& ((*n).color is Red ==> !(*n).left.is_red() && !(*n).right.is_red())
            &&& no_red_red((*n).left)
            &&& no_red_red((*n).right)
        },
    }
}

/// Both children of every node have the same black height: every path from a
/// node to a descendant empty link passes the same number of black nodes.
pub open spec fn black_balanced<V>(l: Link<V>) -> bool
    decreases l,
{
    match l {
        Link::Empty => true,
        Link::Node(n) => {
            &&& (*n).left.bh() == (*n).right.bh()
            &&& black_balanced((*n).left)
            &&& black_balanced((*n).right)
        },
    }
}

/// The transient deletion color appears nowhere in the subtree.
pub open spec fn no_double_black<V>(l: Link<V>) -> bool
    decreases l,
{
    match l {
        Link::Empty => true,
        Link::Node(n) => {
            &&& !((*n).color is DoubleBlack)
            &&& no_double_black((*n).left)
            &&& no_double_black((*n).right)
        },
    }
}

/// The in-order sequence of a search tree ascends strictly and lists exactly
/// the bindings of the represented map, whose key set is finite and as large
/// as the tree.
pub proof fn lemma_inorder_matches<V>(l: Link<V>)
    requires
        l.bst(),
    ensures
        sorted_by_key(l.inorder()),
        matches_map(l.inorder(), l.as_map()),
        l.as_map().dom().finite(),
        l.inorder().len() == l.size(),
    decreases l,
{
    match l {
        Link::Empty => {
            assert(l.as_map().dom() =~= Set::<u64>::empty());
        },
        Link::Node(n) => {
            lemma_node_parts(l);
            assert(l.nd().left.bst() && l.nd().right.bst());
            lemma_inorder_matches(l.nd().left);
            lemma_inorder_matches(l.nd().right);
            let lm = l.nd().left.as_map();
            let rm = l.nd().right.as_map();
            let ls = l.nd().left.inorder();
            let rs = l.nd().right.inorder();
            let s = l.inorder();
            let k = l.nd().key;
            let v = l.nd().value;
            assert(s == ls + seq![(k, v)] + rs);
            assert(forall|i: int| 0 <= i < ls.len() ==> s[i] == ls[i]);
            assert(s[ls.len() as int] == (k, v));
            assert(forall|i: int|
                ls.len() + 1 <= i < s.len() ==> s[i] == rs[i - ls.len() - 1]);
            // every listed pair is a binding of the whole map
            assert forall|i: int| 0 <= i < s.len() implies l.as_map().dom().contains(
                (#[trigger] s[i]).0,
            ) && l.as_map()[s[i].0] == s[i].1 by {
                if i < ls.len() {
                    assert(lm.dom().contains(s[i].0));
                    assert(s[i].0 < k);
                } else if i > ls.len() {
                    assert(rm.dom().contains(s[i].0));
                    assert(s[i].0 > k);
                }
            }
            // strict ascent, by which segment each index falls in
            assert forall|i: int, j: int| 0 <= i < j < s.len() implies (#[trigger] s[i]).0 < (
            #[trigger] s[j]).0 by {
                if i < ls.len() {
                    assert(lm.dom().contains(s[i].0));
                    assert(s[i].0 < k);
                }
                if j > ls.len() {
                    assert(rm.dom().contains(s[j].0));
                    assert(s[j].0 > k);
                }
            }
            // every binding is listed
            assert forall|x: u64| #[trigger]
                l.as_map().dom().contains(x) implies s.contains((x, l.as_map()[x])) by {
                if x == k {
                    assert(s[ls.len() as int] == (x, l.as_map()[x]));
                } else if lm.dom().contains(x) {
                    assert(ls.contains((x, lm[x])));
                    let i = choose|i: int| 0 <= i < ls.len() && ls[i] == (x, lm[x]);
                    assert(s[i] == (x, l.as_map()[x]));
                } else {
                    assert(rm.dom().contains(x));
                    assert(rs.contains((x, rm[x])));
                    let i = choose|i: int| 0 <= i < rs.len() && rs[i] == (x, rm[x]);
                    assert(s[i + ls.len() + 1] == (x, l.as_map()[x]));
                }
            }
            // sizes agree: the two key sets are disjoint and the root key is new
            assert(lm.dom().disjoint(rm.dom()));
            assert(lm.union_prefer_right(rm).dom().len() == lm.dom().len() + rm.dom().len());
            assert(!lm.union_prefer_right(rm).dom().contains(k));
            assert(l.as_map().dom() =~= lm.union_prefer_right(rm).dom().insert(k));
            vstd::set::axiom_set_insert_len(lm.union_prefer_right(rm).dom(), k);
        },
    }
}

/// Two strictly ascending listings of the same map are the same sequence:
/// what `iter` produces is determined by the represented map alone.
pub proof fn lemma_sorted_matching_unique<V>(s1: Seq<(u64, V)>, s2: Seq<(u64, V)>, m: Map<u64, V>)
    requires
        sorted_by_key(s1),
        sorted_by_key(s2),
        matches_map(s1, m),
        matches_map(s2, m),
        m.dom().finite(),
    ensures
        s1 == s2,
    decreases s1.len(),
{
    if s1.len() == 0 {
        assert(s1 =~= s2);
    } else {
        let k1 = s1[0].0;
        let k2 = s2[0].0;
        assert(m.dom().contains(k1) && m.dom().contains(k2));
        assert(s2.contains((k1, m[k1])));
        let i2 = choose|i: int| 0 <= i < s2.len() && s2[i] == (k1, m[k1]);
        assert(k2 <= k1);
        assert(s1.contains((k2, m[k2])));
        let i1 = choose|i: int| 0 <= i < s1.len() && s1[i] == (k2, m[k2]);
        assert(k1 <= k2);
        assert(s1[0] == (k1, m[k1]) && s2[0] == (k1, m[k1]));
        let t1 = s1.subrange(1, s1.len() as int);
        let t2 = s2.subrange(1, s2.len() as int);
        let m2 = m.remove(k1);
        assert(forall|i: int| 0 <= i < t1.len() ==> #[trigger] t1[i] == s1[i + 1]);
        assert(forall|i: int| 0 <= i < t2.len() ==> #[trigger] t2[i] == s2[i + 1]);
        assert forall|x: u64| #[trigger] m2.dom().contains(x) implies t1.contains((x, m2[x])) by {
            assert(s1.contains((x, m[x])));
            let i = choose|i: int| 0 <= i < s1.len() && s1[i] == (x, m[x]);
            assert(i != 0);
            assert(t1[i - 1] == (x, m2[x]));
        }
        assert forall|x: u64| #[trigger] m2.dom().contains(x) implies t2.contains((x, m2[x])) by {
            assert(s2.contains((x, m[x])));
            let i = choose|i: int| 0 <= i < s2.len() && s2[i] == (x, m[x]);
            assert(i != 0);
            assert(t2[i - 1] == (x, m2[x]));
        }
        assert(m2.dom() =~= m.dom().remove(k1));
        vstd::set::axiom_set_remove_len(m.dom(), k1);
        assert(matches_map(t1, m2));
        assert(matches_map(t2, m2));
        assert(m2.dom().finite());
        lemma_sorted_matching_unique(t1, t2, m2);
        assert(s1 =~= s2);
    }
}

/// Size against black height: a valid subtree of black height `b` holds at
/// least `2^b - 1` nodes, and is at most twice `b` tall (one more when its
/// root is red).
pub proof fn lemma_rb_size_height<V>(l: Link<V>)
    requires
        l.rb(),
    ensures
        pow2(l.bh()) <= l.size() + 1,
        l.height() <= 2 * l.bh() + (if l.is_red() {
            1nat
        } else {
            0nat
        }),
    decreases l,
{
    vstd::arithmetic::power2::lemma2_to64();
    match l {
        Link::Empty => {
        },
        Link::Node(n) => {
            lemma_node_parts(l);
            assert(l.nd().left.rb() && l.nd().right.rb());
            lemma_rb_size_height(l.nd().left);
            lemma_rb_size_height(l.nd().right);
            if l.nd().color is Black {
                vstd::arithmetic::power2::lemma_pow2_adds(l.nd().left.bh(), 1);
                assert(pow2(l.bh()) == pow2(l.nd().left.bh()) * 2);
            }
        },
    }
}

impl<V> Tree<V> {
    /// Ordering: iteration yields keys in strictly ascending order with no
    /// duplicates — and lists exactly the bindings of the represented map
    /// (each distinct key once, bound to its current value).
    pub proof fn lemma_iter_ascending(self)
        requires
            self.wf(),
        ensures
            sorted_by_key(self.inorder_seq()),
            matches_map(self.inorder_seq(), self@),
    {
        lemma_inorder_matches(self.root);
    }

    /// Round-trip set semantics: a tree built from a sequence of pairs by
    /// repeated insertion iterates exactly the distinct keys in ascending
    /// order, each bound to the value of its last pair in the sequence.
    pub proof fn lemma_round_trip(self, pairs: Seq<(u64, V)>)
        requires
            self.wf(),
            self@ == map_of_pairs(pairs),
        ensures
            sorted_by_key(self.inorder_seq()),
            matches_map(self.inorder_seq(), map_of_pairs(pairs)),
    {
        lemma_inorder_matches(self.root);
    }

    /// Round-trip determinacy: two trees that represent the same map iterate
    /// identically, whatever insertion order built each of them.
    pub proof fn lemma_iter_determined_by_map(self, other: Tree<V>)
        requires
            self.wf(),
            other.wf(),
            self@ == other@,
        ensures
            self.inorder_seq() == other.inorder_seq(),
    {
        lemma_inorder_matches(self.root);
        lemma_inorder_matches(other.root);
        lemma_sorted_matching_unique(self.inorder_seq(), other.inorder_seq(), self@);
    }

    /// Red-black invariants: a well-formed tree has no red node with a red
    /// child, uniform black height below every node, and no transient
    /// `DoubleBlack` color anywhere.
    pub proof fn lemma_red_black_invariants(self)
        requires
            self.wf(),
        ensures
            no_red_red(self.root),
            black_balanced(self.root),
            no_double_black(self.root),
    {
        lemma_rb_structure(self.root);
    }

    /// Deletion against insertion: deleting `k` right after binding it yields
    /// exactly the original map without `k` — the original key set minus
    /// `{k}`, which is the original key set itself when `k` was absent.
    pub proof fn lemma_delete_after_insert(self, mid: Tree<V>, end: Tree<V>, k: u64, v: V)
        requires
            self.wf(),
            mid.wf(),
            end.wf(),
            mid@ == self@.insert(k, v),
            end@ == mid@.remove(k),
        ensures
            end@ == self@.remove(k),
            end@.dom() == self@.dom().remove(k),
            !self@.dom().contains(k) ==> end@ == self@,
    {
        assert(end@ =~= self@.remove(k));
        assert(end@.dom() =~= self@.dom().remove(k));
        if !self@.dom().contains(k) {
            assert(end@ =~= self@);
        }
    }

    /// Height bound: whenever `2^g` exceeds the number of keys, the height is
    /// at most `2·g`; with `g = ⌈log₂(n+1)⌉` this is the classic red-black
    /// bound.
    pub proof fn lemma_height_bound(self, g: nat)
        requires
            self.wf(),
            pow2(g) >= self@.dom().len() + 1,
        ensures
            self.height() <= 2 * g,
    {
        lemma_rb_size_height(self.root);
        lemma_inorder_matches(self.root);
        if self.root.bh() > g {
            lemma_pow2_strictly_increases(g, self.root.bh());
            assert(false);
        }
    }

    /// Idempotent delete: removing an absent key leaves a map that iterates
    /// identically to the original.
    pub proof fn lemma_delete_absent(self, deleted: Tree<V>, key: u64)
        requires
            self.wf(),
            deleted.wf(),
            !self@.dom().contains(key),
            deleted@ == self@.remove(key),
        ensures
            deleted@ == self@,
            deleted.inorder_seq() == self.inorder_seq(),
    {
        assert(deleted@ =~= self@);
        self.lemma_iter_determined_by_map(deleted);
    }
}

/// A valid subtree satisfies each of the three structure invariants.
pub proof fn lemma_rb_structure<V>(l: Link<V>)
    requires
        l.rb(),
    ensures
        no_red_red(l),
        black_balanced(l),
        no_double_black(l),
    decreases l,
{
    match l {
        Link::Empty => {
        },
        Link::Node(n) => {
            lemma_rb_structure(l.nd().left);
            lemma_rb_structure(l.nd().right);
        },
    }
}

} // verus!
