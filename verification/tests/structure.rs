//! Structural checks against the representation itself: the red-black
//! invariants after arbitrary workloads, the height bound, and structural
//! sharing between versions.

use std::sync::Arc;

use rbmap::{Color, Link, Node, Tree};

/// Black height of a link, checking along the way that every node's two
/// children agree; panics on a violation.
fn checked_black_height(l: &Link<i64>) -> usize {
    match l {
        Link::Empty => 0,
        Link::Node(n) => {
            let lh = checked_black_height(&n.left);
            let rh = checked_black_height(&n.right);
            assert_eq!(lh, rh, "black-height uniformity violated at key {}", n.key);
            lh + match n.color {
                Color::Black => 1,
                Color::Red => 0,
                Color::DoubleBlack => panic!("DoubleBlack exposed at key {}", n.key),
            }
        }
    }
}

fn is_red(l: &Link<i64>) -> bool {
    matches!(l, Link::Node(n) if matches!(n.color, Color::Red))
}

/// Panics if some red node has a red child.
fn check_no_red_red(l: &Link<i64>) {
    if let Link::Node(n) = l {
        if matches!(n.color, Color::Red) {
            assert!(!is_red(&n.left), "red-red adjacency at key {}", n.key);
            assert!(!is_red(&n.right), "red-red adjacency at key {}", n.key);
        }
        check_no_red_red(&n.left);
        check_no_red_red(&n.right);
    }
}

fn check_invariants(t: &Tree<i64>) {
    check_no_red_red(&t.root);
    checked_black_height(&t.root);
}

fn height(l: &Link<i64>) -> usize {
    match l {
        Link::Empty => 0,
        Link::Node(n) => 1 + height(&n.left).max(height(&n.right)),
    }
}

/// `⌈log₂(n+1)⌉`
fn ceil_log2_n_plus_1(n: usize) -> u32 {
    (n as u128 + 1).next_power_of_two().trailing_zeros()
}

/// A small deterministic pseudo-random stream.
fn lcg(state: &mut u64) -> u64 {
    *state = state.wrapping_mul(6364136223846793005).wrapping_add(1442695040888963407);
    *state >> 16
}

#[test]
fn invariants_hold_after_ascending_inserts() {
    let mut t = Tree::new();
    for k in 0..256u64 {
        t = t.insert(k, k as i64);
        check_invariants(&t);
    }
    assert_eq!(t.entries().len(), 256);
}

#[test]
fn invariants_hold_after_descending_inserts() {
    let mut t = Tree::new();
    for k in (0..256u64).rev() {
        t = t.insert(k, k as i64);
        check_invariants(&t);
    }
    assert_eq!(t.entries().len(), 256);
}

#[test]
fn invariants_hold_after_mixed_inserts_and_deletes() {
    let mut state = 0xfeed_beef_u64;
    let mut t = Tree::new();
    let mut model = std::collections::BTreeMap::new();
    for step in 0..2000 {
        let k = lcg(&mut state) % 128;
        if step % 3 == 2 {
            t = t.delete(k);
            model.remove(&k);
        } else {
            t = t.insert(k, step as i64);
            model.insert(k, step as i64);
        }
        check_invariants(&t);
    }
    let want: Vec<(u64, i64)> = model.into_iter().collect();
    assert_eq!(t.entries(), want);
}

#[test]
fn deleting_every_key_keeps_invariants() {
    let mut t = Tree::new();
    for k in 0..128u64 {
        t = t.insert(k, k as i64);
    }
    let mut state = 0x1234_5678_u64;
    let mut left: Vec<u64> = (0..128).collect();
    while !left.is_empty() {
        let i = (lcg(&mut state) as usize) % left.len();
        let k = left.swap_remove(i);
        t = t.delete(k);
        check_invariants(&t);
        assert_eq!(t.get(k), None);
        assert_eq!(t.entries().len(), left.len());
    }
}

#[test]
fn height_stays_within_twice_the_logarithm() {
    let mut state = 0xabcdef_u64;
    let mut t = Tree::new();
    let mut seen = std::collections::BTreeSet::new();
    for _ in 0..1000 {
        let k = lcg(&mut state);
        t = t.insert(k, 0);
        seen.insert(k);
        let n = seen.len();
        let bound = 2 * ceil_log2_n_plus_1(n) as usize;
        assert!(
            height(&t.root) <= bound,
            "height {} exceeds 2*ceil(log2({}+1)) = {}",
            height(&t.root),
            n,
            bound
        );
    }
}

#[test]
fn update_in_place_shares_both_subtrees() {
    let mut t = Tree::new();
    for k in 0..64u64 {
        t = t.insert(k, k as i64);
    }
    let root_key = match &t.root {
        Link::Node(n) => n.key,
        Link::Empty => unreachable!(),
    };
    // replacing the root's value rebuilds only the root node
    let t2 = t.insert(root_key, -1);
    let (n1, n2): (&Arc<Node<i64>>, &Arc<Node<i64>>) = match (&t.root, &t2.root) {
        (Link::Node(a), Link::Node(b)) => (a, b),
        _ => unreachable!(),
    };
    match (&n1.left, &n2.left) {
        (Link::Node(a), Link::Node(b)) => assert!(Arc::ptr_eq(a, b), "left subtree not shared"),
        _ => unreachable!(),
    }
    match (&n1.right, &n2.right) {
        (Link::Node(a), Link::Node(b)) => assert!(Arc::ptr_eq(a, b), "right subtree not shared"),
        _ => unreachable!(),
    }
}

#[test]
fn update_in_place_preserves_shape_and_colors() {
    fn shape(l: &Link<i64>, out: &mut Vec<(u64, bool)>) {
        if let Link::Node(n) = l {
            out.push((n.key, matches!(n.color, Color::Red)));
            shape(&n.left, out);
            shape(&n.right, out);
        }
    }
    let mut state = 0x5eed_u64;
    let mut t = Tree::new();
    let mut keys = Vec::new();
    for _ in 0..200 {
        let k = lcg(&mut state) % 512;
        t = t.insert(k, 0);
        keys.push(k);
    }
    let mut before = Vec::new();
    shape(&t.root, &mut before);
    for &k in keys.iter() {
        let t2 = t.insert(k, 1);
        let mut after = Vec::new();
        shape(&t2.root, &mut after);
        assert_eq!(before, after, "value replacement at {} reshaped or recolored", k);
        assert_eq!(t2.get(k), Some(&1));
    }
}

#[test]
fn inserting_into_a_large_tree_allocates_few_nodes() {
    fn collect_ptrs(l: &Link<i64>, out: &mut std::collections::HashSet<usize>) {
        if let Link::Node(n) = l {
            out.insert(Arc::as_ptr(n) as usize);
            collect_ptrs(&n.left, out);
            collect_ptrs(&n.right, out);
        }
    }
    fn count_new(l: &Link<i64>, old: &std::collections::HashSet<usize>) -> usize {
        match l {
            Link::Empty => 0,
            Link::Node(n) => {
                if old.contains(&(Arc::as_ptr(n) as usize)) {
                    0  // a shared subtree is the same object, all the way down
                } else {
                    1 + count_new(&n.left, old) + count_new(&n.right, old)
                }
            }
        }
    }
    let mut t = Tree::new();
    for k in 0..1024u64 {
        t = t.insert(2 * k, k as i64);
    }
    let mut old = std::collections::HashSet::new();
    collect_ptrs(&t.root, &mut old);
    let t2 = t.insert(777, -1);
    let fresh = count_new(&t2.root, &old);
    let bound = 2 * ceil_log2_n_plus_1(1025) as usize + 2;
    assert!(fresh <= bound, "insert allocated {} nodes, bound {}", fresh, bound);
}
