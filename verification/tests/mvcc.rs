use lsm_tree::mvcc_stream::MvccStream;
use lsm_tree::value::{InternalValue, ValueType};

fn iv(key: &str, value: &str, seqno: u64, vt: &str) -> InternalValue {
    let t = match vt {
        "V" => ValueType::Value,
        "T" => ValueType::Tombstone,
        "W" => ValueType::WeakTombstone,
        _ => unreachable!(),
    };
    InternalValue::from_components(key.as_bytes().to_vec(), value.as_bytes().to_vec(), seqno, t)
}

fn collect_forward(items: &[InternalValue]) -> Vec<InternalValue> {
    let mut s = MvccStream::new(items.to_vec());
    let mut out = Vec::new();
    while let Some(x) = s.next() {
        out.push(x);
    }
    out
}

fn collect_backward(items: &[InternalValue]) -> Vec<InternalValue> {
    let mut s = MvccStream::new(items.to_vec());
    let mut out = Vec::new();
    while let Some(x) = s.next_back() {
        out.push(x);
    }
    out
}

fn assert_closed(s: &mut MvccStream) {
    assert!(s.next().is_none(), "iterator should be closed (done)");
    assert!(s.next_back().is_none(), "iterator should be closed (done)");
}

fn assert_reverse_agrees(items: &[InternalValue]) {
    let mut forwards = collect_forward(items);
    forwards.reverse();
    let backwards = collect_backward(items);
    assert_eq!(forwards, backwards);
}

#[test]
fn mvcc_queue_almost_gone() {
    let vec = [
        iv("a", "a", 0, "V"),
        iv("b", "", 1, "W"),
        iv("b", "b", 0, "V"),
        iv("c", "", 1, "W"),
        iv("c", "c", 0, "V"),
        iv("d", "", 1, "W"),
        iv("d", "d", 0, "V"),
        iv("e", "", 1, "W"),
        iv("e", "e", 0, "V"),
    ];
    let mut it = MvccStream::new(vec.to_vec());
    assert_eq!(iv("a", "a", 0, "V"), it.next_back().unwrap());
    assert_closed(&mut it);
    assert_reverse_agrees(&vec);
}

#[test]
fn mvcc_queue() {
    let vec = [
        iv("a", "a", 0, "V"),
        iv("b", "b", 0, "V"),
        iv("c", "c", 0, "V"),
        iv("d", "d", 0, "V"),
        iv("e", "", 1, "W"),
        iv("e", "e", 0, "V"),
    ];
    let mut it = MvccStream::new(vec.to_vec());
    assert_eq!(iv("d", "d", 0, "V"), it.next_back().unwrap());
    assert_eq!(iv("c", "c", 0, "V"), it.next_back().unwrap());
    assert_eq!(iv("b", "b", 0, "V"), it.next_back().unwrap());
    assert_eq!(iv("a", "a", 0, "V"), it.next_back().unwrap());
    assert_closed(&mut it);
    assert_reverse_agrees(&vec);
}

#[test]
fn mvcc_stream_simple() {
    let vec = [iv("a", "new", 999, "V"), iv("a", "old", 998, "V")];
    let mut it = MvccStream::new(vec.to_vec());
    assert_eq!(iv("a", "new", 999, "V"), it.next().unwrap());
    assert_closed(&mut it);
    assert_reverse_agrees(&vec);
}

#[test]
fn mvcc_stream_simple_multi_keys() {
    let vec = [
        iv("a", "new", 999, "V"),
        iv("a", "old", 998, "V"),
        iv("b", "new", 999, "V"),
        iv("b", "old", 998, "V"),
        iv("c", "newnew", 999, "V"),
        iv("c", "new", 998, "V"),
        iv("c", "old", 997, "V"),
    ];
    let mut it = MvccStream::new(vec.to_vec());
    assert_eq!(iv("a", "new", 999, "V"), it.next().unwrap());
    assert_eq!(iv("b", "new", 999, "V"), it.next().unwrap());
    assert_eq!(iv("c", "newnew", 999, "V"), it.next().unwrap());
    assert_closed(&mut it);
    assert_reverse_agrees(&vec);
}

#[test]
fn mvcc_stream_tombstone() {
    let vec = [iv("a", "", 999, "T"), iv("a", "old", 998, "V")];
    let mut it = MvccStream::new(vec.to_vec());
    assert_eq!(iv("a", "", 999, "T"), it.next().unwrap());
    assert_closed(&mut it);
    assert_reverse_agrees(&vec);
}

#[test]
fn mvcc_stream_tombstone_multi_keys() {
    let vec = [
        iv("a", "", 999, "T"),
        iv("a", "old", 998, "V"),
        iv("b", "", 999, "T"),
        iv("b", "old", 998, "V"),
        iv("c", "", 999, "T"),
        iv("c", "", 998, "T"),
        iv("c", "old", 997, "V"),
    ];
    let mut it = MvccStream::new(vec.to_vec());
    assert_eq!(iv("a", "", 999, "T"), it.next().unwrap());
    assert_eq!(iv("b", "", 999, "T"), it.next().unwrap());
    assert_eq!(iv("c", "", 999, "T"), it.next().unwrap());
    assert_closed(&mut it);
    assert_reverse_agrees(&vec);
}

#[test]
fn mvcc_stream_weak_tombstone_simple() {
    let vec = [iv("a", "", 999, "W"), iv("a", "old", 998, "V")];
    let mut it = MvccStream::new(vec.to_vec());
    assert_closed(&mut it);
    assert_reverse_agrees(&vec);
}

#[test]
fn mvcc_stream_weak_tombstone_resurrection() {
    let vec = [
        iv("a", "", 999, "W"),
        iv("a", "new", 998, "V"),
        iv("a", "old", 997, "V"),
    ];
    let mut it = MvccStream::new(vec.to_vec());
    assert_eq!(iv("a", "old", 997, "V"), it.next().unwrap());
    assert_closed(&mut it);
    assert_reverse_agrees(&vec);
}

#[test]
fn mvcc_stream_weak_tombstone_priority() {
    let vec = [
        iv("a", "", 999, "T"),
        iv("a", "", 998, "W"),
        iv("a", "new", 997, "V"),
        iv("a", "old", 996, "V"),
    ];
    let mut it = MvccStream::new(vec.to_vec());
    assert_eq!(iv("a", "", 999, "T"), it.next().unwrap());
    assert_closed(&mut it);
    assert_reverse_agrees(&vec);
}

#[test]
fn mvcc_stream_weak_tombstone_multi_keys() {
    let vec = [
        iv("a", "", 999, "W"),
        iv("a", "old", 998, "V"),
        iv("b", "", 999, "W"),
        iv("b", "old", 998, "V"),
        iv("c", "", 999, "W"),
        iv("c", "old", 998, "V"),
    ];
    let mut it = MvccStream::new(vec.to_vec());
    assert_closed(&mut it);
    assert_reverse_agrees(&vec);
}

#[test]
fn mvcc_stream_both_ends_meet() {
    // Interleaving the two directions terminates without duplication.
    let vec = [
        iv("a", "1", 9, "V"),
        iv("b", "2", 9, "V"),
        iv("c", "3", 9, "V"),
        iv("d", "4", 9, "V"),
    ];
    let mut it = MvccStream::new(vec.to_vec());
    assert_eq!(iv("a", "1", 9, "V"), it.next().unwrap());
    assert_eq!(iv("d", "4", 9, "V"), it.next_back().unwrap());
    assert_eq!(iv("b", "2", 9, "V"), it.next().unwrap());
    assert_eq!(iv("c", "3", 9, "V"), it.next_back().unwrap());
    assert_closed(&mut it);
}

#[test]
fn mvcc_stream_weak_tombstone_then_plain() {
    // A weak tombstone above a plain tombstone is dropped alone; the plain
    // tombstone survives in both directions.
    let vec = [iv("a", "", 999, "W"), iv("a", "", 998, "T")];
    let mut it = MvccStream::new(vec.to_vec());
    assert_eq!(iv("a", "", 998, "T"), it.next().unwrap());
    assert_closed(&mut it);
    assert_reverse_agrees(&vec);
}

#[test]
fn mvcc_stream_trailing_weak_tombstone() {
    // A weak tombstone with nothing below it is dropped in both
    // directions, so the two directions agree.
    let vec = [iv("a", "1", 9, "V"), iv("b", "", 9, "W")];
    let mut it = MvccStream::new(vec.to_vec());
    assert_eq!(iv("a", "1", 9, "V"), it.next().unwrap());
    assert_closed(&mut it);
    assert_reverse_agrees(&vec);

    let only = [iv("a", "", 9, "W")];
    let mut it = MvccStream::new(only.to_vec());
    assert_closed(&mut it);
    assert_reverse_agrees(&only);
}
