use lsm_tree::levels::{LevelManifest, Segment};
use lsm_tree::memtable::Memtable;
use lsm_tree::merge::{merge_runs, merge_two};
use lsm_tree::mvcc_stream::seqno_filter;
use lsm_tree::value::{bytes_cmp, entry_le_exec, InternalValue, ValueType};

fn val(key: &str, value: &str, seqno: u64) -> InternalValue {
    InternalValue::from_components(
        key.as_bytes().to_vec(),
        value.as_bytes().to_vec(),
        seqno,
        ValueType::Value,
    )
}

#[test]
fn seqno_filter_is_strict() {
    assert!(seqno_filter(4, 5));
    assert!(!seqno_filter(5, 5));
    assert!(!seqno_filter(6, 5));
}

#[test]
fn byte_order_is_lexicographic() {
    assert_eq!(bytes_cmp(&b"abc".to_vec(), &b"abd".to_vec()), -1);
    assert_eq!(bytes_cmp(&b"abc".to_vec(), &b"abc".to_vec()), 0);
    assert_eq!(bytes_cmp(&b"abc".to_vec(), &b"ab".to_vec()), 1);
    assert_eq!(bytes_cmp(&b"".to_vec(), &b"a".to_vec()), -1);
}

#[test]
fn entry_order_newest_first() {
    // Same key: the higher seqno sorts first.
    let newer = val("k", "n", 7);
    let older = val("k", "o", 3);
    assert!(entry_le_exec(&newer, &older));
    assert!(!entry_le_exec(&older, &newer));
    // Different keys: ascending key order.
    let a = val("a", "x", 1);
    let b = val("b", "x", 9);
    assert!(entry_le_exec(&a, &b));
}

#[test]
fn memtable_get_newest_below_bound() {
    let mut mt = Memtable::new();
    mt.insert(val("k", "v1", 1));
    mt.insert(val("k", "v2", 2));
    mt.insert(val("k", "v3", 3));

    let got = mt.get(&b"k".to_vec(), 3).unwrap();
    assert_eq!(got.key.seqno, 2);
    assert_eq!(got.value, b"v2".to_vec());
    assert!(mt.get(&b"k".to_vec(), 1).is_none());
    assert!(mt.get(&b"other".to_vec(), 10).is_none());
}

#[test]
fn memtable_insert_replaces_same_version() {
    let mut mt = Memtable::new();
    mt.insert(val("k", "first", 5));
    mt.insert(val("k", "second", 5));
    assert_eq!(mt.len(), 1);
    assert_eq!(mt.get(&b"k".to_vec(), 6).unwrap().value, b"second".to_vec());
}

#[test]
fn merge_two_interleaves_sorted_runs() {
    let a = vec![val("a", "1", 0), val("c", "3", 0)];
    let b = vec![val("b", "2", 0), val("d", "4", 0)];
    let out = merge_two(&a, &b);
    let keys: Vec<Vec<u8>> = out.into_iter().map(|e| e.key.user_key).collect();
    assert_eq!(
        keys,
        vec![b"a".to_vec(), b"b".to_vec(), b"c".to_vec(), b"d".to_vec()]
    );
}

#[test]
fn merge_runs_orders_versions_newest_first() {
    let newer = vec![val("k", "new", 9)];
    let older = vec![val("k", "old", 1)];
    let out = merge_runs(&vec![newer, older]);
    assert_eq!(out.len(), 2);
    assert_eq!(out[0].value, b"new".to_vec());
    assert_eq!(out[1].value, b"old".to_vec());
}

#[test]
fn manifest_refuses_overlap_in_deep_level() {
    let mut man = LevelManifest::new(3);
    let s1 = Segment::new(1, vec![val("a", "", 0), val("f", "", 1)]);
    let s2 = Segment::new(2, vec![val("g", "", 2), val("m", "", 3)]);
    // Overlaps s1's range.
    let s3 = Segment::new(3, vec![val("e", "", 4), val("h", "", 5)]);
    // Past both.
    let s4 = Segment::new(4, vec![val("n", "", 6), val("p", "", 7)]);

    assert!(man.insert_into_level(1, s1));
    assert!(man.insert_into_level(1, s2));
    assert!(!man.insert_into_level(1, s3));
    assert!(man.insert_into_level(1, s4));

    assert_eq!(man.segment_count_at(1), 3);
    let (first_id, lo, hi) = man.segment_bounds_at(1, 0);
    assert_eq!(first_id, 1);
    assert_eq!(lo, b"a".to_vec());
    assert_eq!(hi, b"f".to_vec());

    assert!(man.remove(2));
    assert!(!man.remove(2));
    assert_eq!(man.segment_count_at(1), 2);
}

#[test]
fn manifest_hide_and_show() {
    let mut man = LevelManifest::new(2);
    let s1 = Segment::new(1, vec![val("a", "", 0)]);
    assert!(man.insert_into_level(0, s1));
    man.hide_segments(&vec![1]);
    assert_eq!(man.hidden_count(), 1);
    man.show_segments(&vec![1]);
    assert_eq!(man.hidden_count(), 0);
}
