use lsm_tree::tree::{Config, KeyBound, Tree};

fn k(s: &str) -> Vec<u8> {
    s.as_bytes().to_vec()
}

#[test]
fn scenario_mvcc_collapse() {
    // Three versions of one key: reads see only the newest.
    let mut tree = Tree::new(0, Config::new());
    tree.insert(k("a"), k("alpha"), 0);
    tree.insert(k("a"), k("beta"), 1);
    tree.insert(k("a"), k("gamma"), 2);

    assert_eq!(tree.get(&k("a")), Some(k("gamma")));
    let items = tree.iter();
    assert_eq!(items.len(), 1);
    assert_eq!(items[0], (k("a"), k("gamma")));
}

#[test]
fn scenario_tombstone_shadowing() {
    // A tombstone hides the key; compacting to the last level evicts it
    // entirely, leaving no segment behind.
    let mut tree = Tree::new(0, Config::new());
    tree.insert(k("a"), k("alpha"), 0);
    tree.remove(k("a"), 1);

    assert_eq!(tree.get(&k("a")), None);
    assert_eq!(tree.iter().len(), 0);

    tree.flush_active_memtable();
    let outcome = tree.major_compact(64 * 1024).unwrap();
    assert!(outcome.evicted_tombstones);
    assert_eq!(outcome.created_segment_ids.len(), 0);
    assert_eq!(tree.get(&k("a")), None);
    assert_eq!(tree.len(), 0);
}

#[test]
fn scenario_weak_tombstone_single_delete() {
    // The weak tombstone cancels exactly one newer value.
    let mut tree = Tree::new(0, Config::new());
    tree.insert(k("a"), k("alpha"), 0);
    tree.insert(k("a"), k("beta"), 1);
    tree.remove_weak(k("a"), 2);

    assert_eq!(tree.get(&k("a")), Some(k("alpha")));
}

#[test]
fn scenario_weak_tombstone_over_single_value() {
    // A weak tombstone over the only value makes the key disappear.
    let mut tree = Tree::new(0, Config::new());
    tree.insert(k("a"), k("alpha"), 0);
    tree.remove_weak(k("a"), 1);

    assert_eq!(tree.get(&k("a")), None);
    assert_eq!(tree.iter().len(), 0);
}

#[test]
fn scenario_disjoint_level_scan() {
    // Four flushed runs compacted into one disjoint level scan in order.
    let mut tree = Tree::new(0, Config::new());
    let batches = [
        ["a", "b", "c"],
        ["d", "e", "f"],
        ["g", "h", "i"],
        ["j", "k", "l"],
    ];
    let mut seqno = 0;
    for batch in batches {
        for key in batch {
            tree.insert(k(key), k("v"), seqno);
            seqno += 1;
        }
        tree.flush_active_memtable();
    }
    let outcome = tree.major_compact(64 * 1024).unwrap();
    assert_eq!(outcome.dest_level, 6);
    assert!(outcome.evicted_tombstones);
    assert_eq!(outcome.obsolete_segment_ids.len(), 4);
    assert_eq!(outcome.created_segment_ids.len(), 1);

    let items = tree.iter();
    let keys: Vec<Vec<u8>> = items.into_iter().map(|p| p.0).collect();
    let expected: Vec<Vec<u8>> = [
        "a", "b", "c", "d", "e", "f", "g", "h", "i", "j", "k", "l",
    ]
    .iter()
    .map(|s| k(s))
    .collect();
    assert_eq!(keys, expected);

    // Every key is found by a point read, the segment boundaries too.
    for key in expected.iter() {
        assert_eq!(tree.get(key), Some(k("v")));
    }

    // A range scan over the compacted disjoint level.
    let slice = tree.range(&KeyBound::Included(k("e")), &KeyBound::Excluded(k("i")));
    let got: Vec<Vec<u8>> = slice.iter().map(|p| p.0.clone()).collect();
    assert_eq!(got, vec![k("e"), k("f"), k("g"), k("h")]);
    let reversed: Vec<Vec<u8>> = slice.iter().rev().map(|p| p.0.clone()).collect();
    assert_eq!(reversed, vec![k("h"), k("g"), k("f"), k("e")]);
}

#[test]
fn scenario_compaction_under_snapshot() {
    // With a snapshot open the compaction keeps old versions; reads
    // through the snapshot still see the pre-snapshot values.
    let mut tree = Tree::new(0, Config::new());
    for x in 0..20u64 {
        tree.insert(x.to_be_bytes().to_vec(), k("old"), x);
    }
    tree.flush_active_memtable();

    let barrier = tree.snapshot();
    for x in 0..20u64 {
        tree.insert(x.to_be_bytes().to_vec(), k("new"), 100 + x);
    }
    tree.flush_active_memtable();

    let outcome = tree.major_compact(64 * 1024).unwrap();
    assert!(!outcome.evicted_old_versions);

    for x in 0..20u64 {
        let key = x.to_be_bytes().to_vec();
        assert_eq!(tree.get_at(&key, barrier), Some(k("old")));
        assert_eq!(tree.get(&key), Some(k("new")));
    }
    tree.release_snapshot();
}

#[test]
fn flush_preserves_reads() {
    // Flushing the active buffer changes no observable read.
    let mut tree = Tree::new(0, Config::new());
    tree.insert(k("a"), k("1"), 0);
    tree.insert(k("b"), k("2"), 1);
    tree.remove(k("a"), 2);
    tree.insert(k("c"), k("3"), 3);

    let before_get: Vec<Option<Vec<u8>>> =
        ["a", "b", "c", "d"].iter().map(|s| tree.get(&k(s))).collect();
    let before_items = tree.iter();

    tree.flush_active_memtable();

    let after_get: Vec<Option<Vec<u8>>> =
        ["a", "b", "c", "d"].iter().map(|s| tree.get(&k(s))).collect();
    assert_eq!(before_get, after_get);
    assert_eq!(before_items, tree.iter());
}

#[test]
fn compaction_preserves_current_reads() {
    // A compaction that keeps every version (snapshot open) changes no
    // observable read at any bound.
    let mut tree = Tree::new(0, Config::new());
    for x in 0..50u64 {
        tree.insert(x.to_be_bytes().to_vec(), k("v1"), x);
    }
    tree.flush_active_memtable();
    for x in 0..50u64 {
        tree.insert(x.to_be_bytes().to_vec(), k("v2"), 100 + x);
    }
    tree.flush_active_memtable();

    let _guard = tree.snapshot();
    let before = tree.iter();
    tree.major_compact(1024).unwrap();
    assert_eq!(before, tree.iter());
    tree.release_snapshot();
}

#[test]
fn tree_first_and_last() {
    let mut tree = Tree::new(0, Config::new());
    assert_eq!(tree.first_key_value(), None);
    assert_eq!(tree.last_key_value(), None);
    tree.insert(k("mango"), k("1"), 0);
    tree.insert(k("apple"), k("2"), 1);
    tree.insert(k("zebra"), k("3"), 2);
    assert_eq!(tree.first_key_value(), Some((k("apple"), k("2"))));
    assert_eq!(tree.last_key_value(), Some((k("zebra"), k("3"))));
    assert!(tree.contains_key(&k("mango")));
    assert!(!tree.contains_key(&k("plum")));
    assert!(!tree.is_empty());
}

#[test]
fn insert_same_version_is_idempotent() {
    // Re-inserting the same (key, seqno) replaces the entry instead of
    // duplicating it.
    let mut tree = Tree::new(0, Config::new());
    tree.insert(k("a"), k("one"), 0);
    tree.insert(k("a"), k("two"), 0);
    assert_eq!(tree.len(), 1);
    assert_eq!(tree.get(&k("a")), Some(k("two")));
}

#[test]
fn stop_signal_aborts_compaction() {
    let mut tree = Tree::new(0, Config::new());
    tree.insert(k("a"), k("1"), 0);
    tree.flush_active_memtable();
    tree.stop_signal = true;
    let outcome = tree.major_compact(1024).unwrap();
    assert!(outcome.created_segment_ids.is_empty());
    assert!(outcome.obsolete_segment_ids.is_empty());
    assert_eq!(tree.get(&k("a")), Some(k("1")));
}

#[test]
fn prefix_scan() {
    let mut tree = Tree::new(0, Config::new());
    tree.insert(k("apple"), k("1"), 0);
    tree.insert(k("apricot"), k("2"), 1);
    tree.insert(k("banana"), k("3"), 2);
    tree.insert(k("ap"), k("4"), 3);

    let hits = tree.prefix(&k("ap"));
    let keys: Vec<Vec<u8>> = hits.into_iter().map(|p| p.0).collect();
    assert_eq!(keys, vec![k("ap"), k("apple"), k("apricot")]);
    assert_eq!(tree.prefix(&k("zz")).len(), 0);
}

#[test]
fn compaction_keeps_tombstones_for_snapshots() {
    // A tombstone shadowing an older value must survive a major compaction
    // while a snapshot is open: dropping it alone would resurrect the
    // value for the snapshot reader.
    let mut tree = Tree::new(0, Config::new());
    tree.insert(k("a"), k("old"), 0);
    tree.remove(k("a"), 1);
    tree.flush_active_memtable();

    let barrier = tree.snapshot();
    assert_eq!(tree.get_at(&k("a"), barrier), None);

    let outcome = tree.major_compact(1024).unwrap();
    assert!(!outcome.evicted_tombstones);
    assert!(!outcome.evicted_old_versions);
    assert_eq!(tree.get_at(&k("a"), barrier), None);
    assert_eq!(tree.get(&k("a")), None);
    tree.release_snapshot();

    // With the snapshot released, the next major compaction may drop the
    // tombstone together with everything it shadows.
    let outcome = tree.major_compact(1024).unwrap();
    assert!(outcome.evicted_tombstones);
    assert_eq!(tree.get(&k("a")), None);
    assert_eq!(tree.len(), 0);
}
