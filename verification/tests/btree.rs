//! The copy-on-write B-tree against `std::collections::BTreeMap`.

use std::collections::BTreeMap;

use engram::storage::btree::{CowBTree, Iter, KeyBound};

fn keys<K: engram::storage::key::BKey, V: Copy>(mut it: Iter<K, V>) -> Vec<K> {
    let mut out = Vec::new();
    while let Some((k, _)) = it.next() {
        out.push(k);
    }
    out
}

#[test]
fn empty_tree() {
    let t: CowBTree<u32, u32> = CowBTree::new();
    assert!(t.is_empty());
    assert_eq!(t.get(&1), None);
    assert!(keys(t.iter()).is_empty());
    assert!(!t.iter().has_next());
}

#[test]
fn insert_get_and_upsert() {
    let mut t = CowBTree::new();
    assert_eq!(t.insert(1u32, "a"), None);
    assert_eq!(t.insert(2u32, "b"), None);
    assert_eq!(t.get(&1), Some("a"));
    assert_eq!(t.insert(1u32, "A"), Some("a"));
    assert_eq!(t.get(&1), Some("A"));
    assert_eq!(t.len(), 2);
}

#[test]
fn splits_keep_tree_sorted_and_complete() {
    let mut t = CowBTree::new();
    let n = 5000u32;
    for i in (0..n).rev() {
        t.insert(i, i * 10);
    }
    assert_eq!(t.len() as u32, n);
    for i in 0..n {
        assert_eq!(t.get(&i), Some(i * 10), "missing {i}");
    }
    let collected: Vec<u32> = keys(t.iter());
    assert!(collected.windows(2).all(|w| w[0] < w[1]));
    assert_eq!(collected.len() as u32, n);
}

#[test]
fn range_queries_match_btreemap() {
    let mut t = CowBTree::new();
    let mut oracle = BTreeMap::new();
    for i in (0..1000u32).map(|i| (i * 7) % 1000) {
        t.insert(i, i);
        oracle.insert(i, i);
    }
    for (lo, hi) in [(0u32, 100u32), (250, 750), (900, 1000), (400, 401)] {
        let got: Vec<u32> = keys(t.range(KeyBound::Included(lo), KeyBound::Excluded(hi)));
        let want: Vec<u32> = oracle.range(lo..hi).map(|(k, _)| *k).collect();
        assert_eq!(got, want, "range {lo}..{hi}");
    }
    let inc: Vec<u32> = keys(t.range(KeyBound::Included(10), KeyBound::Included(20)));
    assert_eq!(inc, (10..=20).collect::<Vec<_>>());
}

#[test]
fn unbounded_and_excluded_ranges_match_btreemap() {
    let mut t = CowBTree::new();
    let mut oracle = BTreeMap::new();
    for i in 0..300u64 {
        t.insert(i * 3, i);
        oracle.insert(i * 3, i);
    }
    let got = keys(t.range(KeyBound::Excluded(30), KeyBound::Unbounded));
    let want: Vec<u64> = oracle
        .range((std::ops::Bound::Excluded(30), std::ops::Bound::Unbounded))
        .map(|(k, _)| *k)
        .collect();
    assert_eq!(got, want);
    let got = keys(t.range(KeyBound::Unbounded, KeyBound::Excluded(31)));
    let want: Vec<u64> = oracle.range(..31).map(|(k, _)| *k).collect();
    assert_eq!(got, want);
    // An empty range (lower bound above the upper one) yields nothing.
    assert!(keys(t.range(KeyBound::Included(50), KeyBound::Included(10))).is_empty());
}

#[test]
fn mvcc_snapshot_isolation() {
    let mut t = CowBTree::new();
    for i in 0..100u32 {
        t.insert(i, i);
    }
    let snap = t.snapshot();
    assert_eq!(snap.len(), 100);
    for i in 100..200u32 {
        t.insert(i, i);
    }
    t.insert(0, 9999);
    assert_eq!(snap.len(), 100);
    assert_eq!(snap.get(&0), Some(0));
    assert_eq!(snap.get(&150), None);
    let snap_keys: Vec<u32> = keys(snap.iter());
    assert_eq!(snap_keys, (0..100).collect::<Vec<_>>());
    assert_eq!(t.len(), 200);
    assert_eq!(t.get(&0), Some(9999));
    assert_eq!(t.get(&150), Some(150));
}

#[test]
fn large_random_insert_and_scan() {
    let n: u64 = 100_000;
    let mut t = CowBTree::new();
    let mut oracle = BTreeMap::new();
    let mut x = 1u64;
    for _ in 0..n {
        x = x.wrapping_mul(6_364_136_223_846_793_005).wrapping_add(1);
        let k = x >> 16;
        t.insert(k, k);
        oracle.insert(k, k);
    }
    assert_eq!(t.len(), oracle.len());
    let got: Vec<u64> = keys(t.iter());
    let want: Vec<u64> = oracle.keys().copied().collect();
    assert_eq!(got, want);
}

#[test]
fn matches_btreemap_on_mixed_operations() {
    let mut tree = CowBTree::new();
    let mut oracle: BTreeMap<u16, u16> = BTreeMap::new();
    let mut x = 7u32;
    for step in 0..3000u32 {
        x = x.wrapping_mul(1_103_515_245).wrapping_add(12_345);
        let k = (x >> 16) as u16 % 512;
        if step % 3 == 0 {
            assert_eq!(tree.get(&k), oracle.get(&k).copied());
        } else {
            assert_eq!(tree.insert(k, step as u16), oracle.insert(k, step as u16));
        }
        assert_eq!(tree.len(), oracle.len());
    }
    let mut it = tree.iter();
    let mut got = Vec::new();
    while let Some(e) = it.next() {
        got.push(e);
    }
    let want: Vec<(u16, u16)> = oracle.iter().map(|(k, v)| (*k, *v)).collect();
    assert_eq!(got, want);
}
