//! Behavior of the public map operations: lookup, insertion, deletion,
//! construction from pairs, iteration, and persistence across versions.

use rbmap::Tree;

fn entries_of(t: &Tree<&'static str>) -> Vec<(u64, &'static str)> {
    t.entries()
}

#[test]
fn empty_tree_has_nothing() {
    let t: Tree<&'static str> = Tree::new();
    assert_eq!(t.get(0), None);
    assert_eq!(t.get(u64::MAX), None);
    assert_eq!(t.entries(), vec![]);
    let mut it = t.iter();
    assert_eq!(it.next(), None);
    assert_eq!(it.next(), None);
}

#[test]
fn insert_then_get() {
    let t = Tree::new().insert(5, "five").insert(3, "three").insert(9, "nine");
    assert_eq!(t.get(5), Some(&"five"));
    assert_eq!(t.get(3), Some(&"three"));
    assert_eq!(t.get(9), Some(&"nine"));
    assert_eq!(t.get(4), None);
    assert_eq!(t.get(0), None);
}

#[test]
fn insert_existing_key_replaces_value() {
    let t = Tree::new().insert(1, "a").insert(1, "b");
    assert_eq!(t.get(1), Some(&"b"));
    assert_eq!(entries_of(&t), vec![(1, "b")]);
}

#[test]
fn round_trip_last_write_wins() {
    // Inserting (3,"c"),(1,"a"),(2,"b"),(1,"z") and iterating yields
    // [(1,"z"),(2,"b"),(3,"c")].
    let t = Tree::new().insert(3, "c").insert(1, "a").insert(2, "b").insert(1, "z");
    assert_eq!(entries_of(&t), vec![(1, "z"), (2, "b"), (3, "c")]);
}

#[test]
fn round_trip_independent_of_order() {
    let a = Tree::new().insert(1, "x").insert(2, "y").insert(3, "z");
    let b = Tree::new().insert(3, "z").insert(2, "y").insert(1, "x");
    let c = Tree::new().insert(2, "y").insert(3, "z").insert(1, "x");
    let want = vec![(1, "x"), (2, "y"), (3, "z")];
    assert_eq!(entries_of(&a), want);
    assert_eq!(entries_of(&b), want);
    assert_eq!(entries_of(&c), want);
}

#[test]
fn iteration_is_ascending_without_duplicates() {
    let keys = [41u64, 7, 19, 3, 7, 100, 55, 0, 19, 88, 41];
    let mut t = Tree::new();
    for &k in keys.iter() {
        t = t.insert(k, k as i64);
    }
    let got = t.entries();
    let mut prev: Option<u64> = None;
    for &(k, v) in got.iter() {
        if let Some(p) = prev {
            assert!(p < k, "keys must strictly ascend");
        }
        assert_eq!(v, k as i64);
        prev = Some(k);
    }
    assert_eq!(got.len(), 8);
}

#[test]
fn persistence_insert_leaves_old_version_unchanged() {
    let t0 = Tree::new().insert(2, "b").insert(1, "a");
    let before = entries_of(&t0);
    let t1 = t0.insert(3, "c");
    let t2 = t1.insert(1, "z");
    // t0 answers get exactly as before the inserts
    assert_eq!(t0.get(1), Some(&"a"));
    assert_eq!(t0.get(2), Some(&"b"));
    assert_eq!(t0.get(3), None);
    assert_eq!(entries_of(&t0), before);
    // mutating t1 further never changes what t0 or t1 produce
    assert_eq!(entries_of(&t1), vec![(1, "a"), (2, "b"), (3, "c")]);
    assert_eq!(entries_of(&t2), vec![(1, "z"), (2, "b"), (3, "c")]);
}

#[test]
fn persistence_delete_leaves_old_version_unchanged() {
    let t0 = Tree::new().insert(1, "a").insert(2, "b").insert(3, "c");
    let t1 = t0.delete(2);
    assert_eq!(entries_of(&t0), vec![(1, "a"), (2, "b"), (3, "c")]);
    assert_eq!(entries_of(&t1), vec![(1, "a"), (3, "c")]);
    assert_eq!(t0.get(2), Some(&"b"));
    assert_eq!(t1.get(2), None);
}

#[test]
fn delete_present_key() {
    let t = Tree::new().insert(5, "e").insert(2, "b").insert(8, "h").insert(1, "a");
    let d = t.delete(5);
    assert_eq!(d.get(5), None);
    assert_eq!(entries_of(&d), vec![(1, "a"), (2, "b"), (8, "h")]);
}

#[test]
fn delete_absent_key_is_a_no_op() {
    let t = Tree::new().insert(10, "x").insert(20, "y").insert(30, "z");
    let d = t.delete(25);
    assert_eq!(entries_of(&d), entries_of(&t));
    let e = Tree::<&'static str>::new().delete(7);
    assert_eq!(e.entries(), vec![]);
}

#[test]
fn delete_after_insert_restores_key_set() {
    let t = Tree::new().insert(1, 10i64).insert(2, 20).insert(3, 30);
    // k was absent: key set shrinks back to t's
    let d1 = t.insert(4, 40).delete(4);
    assert_eq!(d1.entries(), t.entries());
    // k was present with some other value: key set is t's key set
    let d2 = t.insert(2, 99).delete(2);
    let keys: Vec<u64> = d2.entries().iter().map(|p| p.0).collect();
    assert_eq!(keys, vec![1, 3]);
}

#[test]
fn delete_down_to_empty() {
    let keys = [4u64, 1, 3, 2, 6, 5, 7];
    let mut t = Tree::new();
    for &k in keys.iter() {
        t = t.insert(k, k);
    }
    let mut sorted = keys.to_vec();
    sorted.sort();
    for (done, &k) in sorted.iter().enumerate() {
        t = t.delete(k);
        assert_eq!(t.get(k), None);
        assert_eq!(t.entries().len(), keys.len() - done - 1);
    }
    assert_eq!(t.entries(), vec![]);
}

#[test]
fn from_pairs_builds_by_repeated_insert() {
    let pairs = vec![(3u64, "c"), (1, "a"), (2, "b"), (1, "z")];
    let t = Tree::from_pairs(&pairs);
    assert_eq!(entries_of(&t), vec![(1, "z"), (2, "b"), (3, "c")]);
    let none: Vec<(u64, &'static str)> = vec![];
    assert_eq!(Tree::from_pairs(&none).entries(), vec![]);
}

#[test]
fn iterator_steps_one_entry_at_a_time() {
    let t = Tree::new().insert(2, "b").insert(1, "a").insert(3, "c");
    let mut it = t.iter();
    assert_eq!(it.next(), Some((1, "a")));
    // a fresh call re-traverses from the start
    let mut it2 = t.iter();
    assert_eq!(it2.next(), Some((1, "a")));
    assert_eq!(it.next(), Some((2, "b")));
    assert_eq!(it.next(), Some((3, "c")));
    assert_eq!(it.next(), None);
    assert_eq!(it2.next(), Some((2, "b")));
}

#[test]
fn iterator_outlives_newer_versions() {
    let t0 = Tree::new().insert(1, "a").insert(2, "b");
    let mut it = t0.iter();
    let t1 = t0.insert(1, "z");
    drop(t1);
    assert_eq!(it.next(), Some((1, "a")));
    assert_eq!(it.next(), Some((2, "b")));
    assert_eq!(it.next(), None);
}

#[test]
fn extreme_keys() {
    let t = Tree::new().insert(u64::MAX, "max").insert(0, "min").insert(1, "one");
    assert_eq!(entries_of(&t), vec![(0, "min"), (1, "one"), (u64::MAX, "max")]);
    let d = t.delete(0).delete(u64::MAX);
    assert_eq!(entries_of(&d), vec![(1, "one")]);
}

#[test]
fn clone_shares_the_same_map() {
    let t = Tree::new().insert(1, "a").insert(2, "b");
    let c = t.clone();
    assert_eq!(entries_of(&c), entries_of(&t));
    let t2 = t.insert(3, "c");
    assert_eq!(entries_of(&c), vec![(1, "a"), (2, "b")]);
    assert_eq!(entries_of(&t2), vec![(1, "a"), (2, "b"), (3, "c")]);
}
