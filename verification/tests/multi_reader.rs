use lsm_tree::multi_reader::{MultiReader, SegmentReader};
use lsm_tree::tree::{Config, Tree};
use std::collections::VecDeque;

#[test]
fn segment_multi_reader_basic() {
    let mut tree = Tree::new(0, Config::new());

    let ids = [
        ["a", "b", "c"],
        ["d", "e", "f"],
        ["g", "h", "i"],
        ["j", "k", "l"],
    ];

    for batch in ids {
        for id in batch {
            tree.insert(id.as_bytes().to_vec(), Vec::new(), 0);
        }
        tree.flush_active_memtable();
    }

    // Level zero holds the youngest segment first; chain the runs oldest
    // first so the concatenation is ordered.
    let runs = || {
        let mut rs = tree.levels.all_runs();
        rs.reverse();
        rs
    };

    {
        let mut readers: VecDeque<SegmentReader> = VecDeque::new();
        for run in runs() {
            readers.push_back(SegmentReader::new(run));
        }
        let mut multi_reader = MultiReader::new(readers);

        for expected in [
            "a", "b", "c", "d", "e", "f", "g", "h", "i", "j", "k", "l",
        ] {
            let item = multi_reader.next().unwrap();
            assert_eq!(expected.as_bytes().to_vec(), item.key.user_key);
        }
        assert!(multi_reader.next().is_none());
    }

    {
        let mut readers: VecDeque<SegmentReader> = VecDeque::new();
        for run in runs() {
            readers.push_back(SegmentReader::new(run));
        }
        let mut multi_reader = MultiReader::new(readers);

        for expected in [
            "l", "k", "j", "i", "h", "g", "f", "e", "d", "c", "b", "a",
        ] {
            let item = multi_reader.next_back().unwrap();
            assert_eq!(expected.as_bytes().to_vec(), item.key.user_key);
        }
        assert!(multi_reader.next_back().is_none());
    }

    {
        let mut readers: VecDeque<SegmentReader> = VecDeque::new();
        for run in runs() {
            readers.push_back(SegmentReader::new(run));
        }
        let mut multi_reader = MultiReader::new(readers);

        assert_eq!(b"a".to_vec(), multi_reader.next().unwrap().key.user_key);
        assert_eq!(b"l".to_vec(), multi_reader.next_back().unwrap().key.user_key);
        assert_eq!(b"b".to_vec(), multi_reader.next().unwrap().key.user_key);
        assert_eq!(b"k".to_vec(), multi_reader.next_back().unwrap().key.user_key);
        assert_eq!(b"c".to_vec(), multi_reader.next().unwrap().key.user_key);
        assert_eq!(b"j".to_vec(), multi_reader.next_back().unwrap().key.user_key);
        assert_eq!(b"d".to_vec(), multi_reader.next().unwrap().key.user_key);
        assert_eq!(b"i".to_vec(), multi_reader.next_back().unwrap().key.user_key);
        assert_eq!(b"e".to_vec(), multi_reader.next().unwrap().key.user_key);
        assert_eq!(b"h".to_vec(), multi_reader.next_back().unwrap().key.user_key);
        assert_eq!(b"f".to_vec(), multi_reader.next().unwrap().key.user_key);
        assert_eq!(b"g".to_vec(), multi_reader.next_back().unwrap().key.user_key);
        assert!(multi_reader.next().is_none());
    }
}
