use lsm_tree::tree::{Config, KeyBound, Tree};

const ITEM_COUNT: usize = 1_000;

#[test]
fn tree_memtable_count() {
    let mut tree = Tree::new(0, Config::new());

    for x in 0..ITEM_COUNT as u64 {
        let key = x.to_be_bytes().to_vec();
        let value = format!("{:04}", x).into_bytes();
        tree.insert(key, value, 0);
    }

    assert_eq!(tree.len(), ITEM_COUNT);
    assert_eq!(tree.iter().len(), ITEM_COUNT);
    assert_eq!(tree.iter().iter().rev().count(), ITEM_COUNT);
}

#[test]
fn tree_flushed_count() {
    let mut tree = Tree::new(0, Config::new());

    for x in 0..ITEM_COUNT as u64 {
        let key = x.to_be_bytes().to_vec();
        let value = format!("{:04}", x).into_bytes();
        tree.insert(key, value, 0);
    }

    tree.flush_active_memtable();

    assert_eq!(tree.len(), ITEM_COUNT);
    assert_eq!(tree.iter().len(), ITEM_COUNT);
    assert_eq!(tree.iter().iter().rev().count(), ITEM_COUNT);
}

#[test]
fn tree_non_locking_count() {
    let mut tree = Tree::new(0, Config::new());

    for x in 0..ITEM_COUNT as u64 {
        let key = x.to_be_bytes().to_vec();
        let value = b"a".to_vec();
        tree.insert(key, value, x);
    }

    tree.flush_active_memtable();

    let mut lower = KeyBound::Unbounded;
    let mut count = 0;

    loop {
        let chunk: Vec<(Vec<u8>, Vec<u8>)> = tree
            .range(&lower, &KeyBound::Unbounded)
            .into_iter()
            .take(10)
            .collect();

        if chunk.is_empty() {
            break;
        }

        count += chunk.len();

        let (key, _) = chunk.last().unwrap();
        lower = KeyBound::Excluded(key.clone());
    }

    assert_eq!(count, ITEM_COUNT);
}
