use fringe::store::VersionedStore;
use fringe::sync::sync_stores;
use fringe::merkle::{root_hash, tree_stats, summarize_span};

fn b(s: &str) -> Vec<u8> {
    s.as_bytes().to_vec()
}

#[test]
fn version_counts_across_writes() {
    // every write to one key bumps its version by one, deletes included
    let mut store = VersionedStore::new();
    let v1 = store.put(b("k"), b("a"), 10);
    let v2 = store.put(b("k"), b("b"), 11);
    let v3 = store.delete(b("k"), 12);
    let v4 = store.put(b("k"), b("c"), 13);
    assert_eq!(v1, 1);
    assert_eq!(v2, 2);
    assert_eq!(v3, 3);
    assert_eq!(v4, 4);
    assert_eq!(store.version_of(&b("k")), 4);
    assert_eq!(store.len(), 1);
}

#[test]
fn get_hides_tombstones() {
    let mut store = VersionedStore::new();
    store.put(b("k"), b("v"), 1);
    let got = store.get(&b("k")).expect("live key must be readable");
    assert_eq!(got.value, b("v"));
    assert_eq!(got.version, 1);
    assert_eq!(got.modified_at, 1);
    store.delete(b("k"), 2);
    assert!(store.get(&b("k")).is_none());
    // the tombstone still occupies the key for sync
    assert_eq!(store.len(), 1);
    assert_eq!(store.version_of(&b("k")), 2);
}

#[test]
fn delete_of_unknown_key_writes_tombstone() {
    let mut store = VersionedStore::new();
    let v = store.delete(b("ghost"), 5);
    assert_eq!(v, 1);
    assert!(store.get(&b("ghost")).is_none());
    assert_eq!(store.len(), 1);
}

#[test]
fn records_enumerate_in_key_order() {
    let mut store = VersionedStore::new();
    store.put(b("pear"), b("3"), 1);
    store.put(b("apple"), b("1"), 2);
    store.put(b("app"), b("0"), 3);
    store.put(b("banana"), b("2"), 4);
    let keys: Vec<Vec<u8>> = store.records().iter().map(|r| r.key.clone()).collect();
    assert_eq!(keys, vec![b("app"), b("apple"), b("banana"), b("pear")]);
}

#[test]
fn scan_returns_the_key_range_in_order() {
    let mut store = VersionedStore::new();
    store.put(b("cherry"), b("3"), 1);
    store.put(b("apple"), b("1"), 2);
    store.put(b("banana"), b("2"), 3);
    store.delete(b("blueberry"), 4);
    store.put(b("date"), b("4"), 5);
    let hits = store.scan(&b("b"), &b("d"));
    let keys: Vec<Vec<u8>> = hits.iter().map(|r| r.key.clone()).collect();
    assert_eq!(keys, vec![b("banana"), b("blueberry"), b("cherry")]);
    assert!(hits[1].tombstone, "tombstones stay visible to range scans");
    // the range is half-open and empty ranges are allowed
    assert_eq!(store.scan(&b("apple"), &b("apple")).len(), 0);
    assert_eq!(store.scan(&b(""), &b("b")).len(), 1);
}

#[test]
fn sync_propagates_record_to_empty_peer() {
    // node A holds k1=v1 at version 1, node B holds nothing
    let mut a = VersionedStore::new();
    let mut b_store = VersionedStore::new();
    a.put(b("k1"), b("v1"), 7);
    let stats = sync_stores(&mut a, &mut b_store);
    let got = b_store.get(&b("k1")).expect("sync must copy the record");
    assert_eq!(got.value, b("v1"));
    assert_eq!(got.version, 1);
    assert_eq!(root_hash(&a), root_hash(&b_store));
    assert_eq!(stats.total_leaves, 1);
    assert_eq!(stats.max_depth, 1);
    assert_eq!(stats.tree_hash, root_hash(&b_store));
}

#[test]
fn sync_keeps_higher_version_on_both_sides() {
    let mut a = VersionedStore::new();
    let mut b_store = VersionedStore::new();
    a.put(b("k"), b("old"), 1);
    b_store.put(b("k"), b("mid"), 2);
    b_store.put(b("k"), b("new"), 3);
    a.put(b("only-a"), b("x"), 4);
    b_store.delete(b("gone"), 5);
    sync_stores(&mut a, &mut b_store);
    // the version-2 record wins over version 1
    assert_eq!(a.get(&b("k")).unwrap().value, b("new"));
    assert_eq!(a.get(&b("k")).unwrap().version, 2);
    assert_eq!(b_store.get(&b("k")).unwrap().value, b("new"));
    // keys present on only one side appear on both
    assert_eq!(b_store.get(&b("only-a")).unwrap().value, b("x"));
    assert!(a.get(&b("gone")).is_none());
    assert_eq!(a.version_of(&b("gone")), 1);
    assert_eq!(root_hash(&a), root_hash(&b_store));
}

#[test]
fn tombstone_wins_over_older_value() {
    let mut a = VersionedStore::new();
    let mut b_store = VersionedStore::new();
    a.put(b("k"), b("v"), 1);
    b_store.put(b("k"), b("v"), 2);
    b_store.delete(b("k"), 3);
    sync_stores(&mut a, &mut b_store);
    assert!(a.get(&b("k")).is_none());
    assert_eq!(a.version_of(&b("k")), 2);
    assert_eq!(root_hash(&a), root_hash(&b_store));
}

#[test]
fn second_sync_is_a_no_op() {
    let mut a = VersionedStore::new();
    let mut b_store = VersionedStore::new();
    a.put(b("x"), b("1"), 1);
    b_store.put(b("y"), b("2"), 2);
    let first = sync_stores(&mut a, &mut b_store);
    let root_a = root_hash(&a);
    let root_b = root_hash(&b_store);
    assert_eq!(root_a, root_b);
    let second = sync_stores(&mut a, &mut b_store);
    assert_eq!(first.tree_hash, second.tree_hash);
    assert_eq!(first.total_leaves, second.total_leaves);
    assert_eq!(first.max_depth, second.max_depth);
    assert_eq!(root_hash(&a), root_a);
    assert_eq!(root_hash(&b_store), root_b);
}

#[test]
fn sync_repairs_a_single_divergent_key_among_many() {
    // a large shared prefix of agreeing keys, one divergence in the middle
    let mut a = VersionedStore::new();
    let mut b_store = VersionedStore::new();
    for i in 0..16 {
        let key = format!("key-{:02}", i);
        a.put(key.as_bytes().to_vec(), b("same"), 1);
        b_store.put(key.as_bytes().to_vec(), b("same"), 1);
    }
    a.put(b("key-07"), b("newer"), 5);
    assert_ne!(root_hash(&a), root_hash(&b_store));
    sync_stores(&mut a, &mut b_store);
    assert_eq!(b_store.get(&b("key-07")).unwrap().value, b("newer"));
    assert_eq!(b_store.get(&b("key-07")).unwrap().version, 2);
    for i in 0..16 {
        let key = format!("key-{:02}", i).as_bytes().to_vec();
        assert_eq!(a.get(&key).unwrap().value, b_store.get(&key).unwrap().value);
    }
    assert_eq!(root_hash(&a), root_hash(&b_store));
}

#[test]
fn equal_version_race_converges_deterministically() {
    // two replicas write different values at the same version
    let run = |va: &str, vb: &str| -> (Vec<u8>, Vec<u8>) {
        let mut a = VersionedStore::new();
        let mut b_store = VersionedStore::new();
        a.put(b("k"), b(va), 1);
        b_store.put(b("k"), b(vb), 9);
        sync_stores(&mut a, &mut b_store);
        (
            a.get(&b("k")).unwrap().value,
            b_store.get(&b("k")).unwrap().value,
        )
    };
    let (wa, wb) = run("left", "right");
    // both sides converge on one of the two candidates
    assert_eq!(wa, wb);
    assert!(wa == b("left") || wa == b("right"));
    // the winner does not depend on which side held which value
    let (xa, xb) = run("right", "left");
    assert_eq!(xa, xb);
    assert_eq!(xa, wa);
    // replaying the same race picks the same winner again
    let (ya, _) = run("left", "right");
    assert_eq!(ya, wa);
}

#[test]
fn same_content_same_root_regardless_of_write_order() {
    let mut a = VersionedStore::new();
    a.put(b("one"), b("1"), 1);
    a.put(b("two"), b("2"), 2);
    a.put(b("three"), b("3"), 3);
    let mut c = VersionedStore::new();
    c.put(b("three"), b("3"), 30);
    c.put(b("one"), b("1"), 31);
    c.put(b("two"), b("2"), 32);
    // same (key, value, version, tombstone) content, different write times
    assert_eq!(root_hash(&a), root_hash(&c));
    // diverging in one value diverges the root
    let mut d = VersionedStore::new();
    d.put(b("one"), b("1"), 1);
    d.put(b("two"), b("2"), 2);
    d.put(b("three"), b("different"), 3);
    assert_ne!(root_hash(&a), root_hash(&d));
}

#[test]
fn span_nodes_summarize_key_ranges() {
    let mut a = VersionedStore::new();
    let mut c = VersionedStore::new();
    for (k, v) in [("ant", "1"), ("bee", "2"), ("cat", "3"), ("dog", "4")] {
        a.put(b(k), b(v), 1);
        c.put(b(k), b(v), 9);
    }
    c.put(b("dog"), b("changed"), 10);
    // the replicas agree on [ant, dog) and diverge above it
    let low_a = summarize_span(&a, &b("ant"), Some(&b("dog")));
    let low_c = summarize_span(&c, &b("ant"), Some(&b("dog")));
    assert_eq!(low_a.hash, low_c.hash);
    assert_eq!(low_a.leaf_count, 3);
    assert_eq!(low_a.range_start, b("ant"));
    assert_eq!(low_a.range_end, Some(b("dog")));
    let top_a = summarize_span(&a, &b("dog"), None);
    let top_c = summarize_span(&c, &b("dog"), None);
    assert_ne!(top_a.hash, top_c.hash);
    assert_eq!(top_a.leaf_count, 1);
    assert_eq!(top_a.range_end, None);
    // the unbounded span from the empty key is the whole tree
    assert_eq!(summarize_span(&a, &b(""), None).hash, root_hash(&a));
}

#[test]
fn tree_stats_report_shape() {
    let mut store = VersionedStore::new();
    let empty = tree_stats(&store);
    assert_eq!(empty.total_leaves, 0);
    assert_eq!(empty.max_depth, 0);
    assert_eq!(empty.tree_hash, 0);
    store.put(b("a"), b("1"), 1);
    let one = tree_stats(&store);
    assert_eq!(one.total_leaves, 1);
    assert_eq!(one.max_depth, 1);
    store.put(b("b"), b("2"), 2);
    let two = tree_stats(&store);
    assert_eq!(two.total_leaves, 2);
    assert_eq!(two.max_depth, 2);
}
