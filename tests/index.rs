use bitcask::index::{BTree, IndexIterator, Indexer};
use bitcask::log_record::LogRecordPos;
use bitcask::options::IteratorOptions;
use bitcask::skiplist::SkipList;

#[test]
fn test_btree_put() {
    let mut bt = BTree::new();
    assert!(bt.put("".as_bytes().into(), LogRecordPos { file_id: 1, offset: 10 }));
    assert!(bt.put("bbc".as_bytes().into(), LogRecordPos { file_id: 11, offset: 11 }));
}

#[test]
fn test_btree_get() {
    let mut bt = BTree::new();
    bt.put("".as_bytes().into(), LogRecordPos { file_id: 1, offset: 10 });
    bt.put("bbc".as_bytes().into(), LogRecordPos { file_id: 11, offset: 11 });
    assert_eq!(bt.get("".as_bytes().into()), Some(LogRecordPos { file_id: 1, offset: 10 }));
    assert_eq!(bt.get("bbc".as_bytes().into()), Some(LogRecordPos { file_id: 11, offset: 11 }));
}

#[test]
fn test_btree_delete() {
    let mut bt = BTree::new();
    bt.put("".as_bytes().into(), LogRecordPos { file_id: 1, offset: 10 });
    bt.put("bbc".as_bytes().into(), LogRecordPos { file_id: 11, offset: 11 });
    assert!(bt.delete("".as_bytes().into()));
    assert_eq!(bt.get("".as_bytes().into()), None);
    assert_eq!(bt.get("bbc".as_bytes().into()), Some(LogRecordPos { file_id: 11, offset: 11 }));
}

#[test]
fn test_btree_iterator() {
    let mut bt = BTree::new();

    let mut iter = bt.iterator(IteratorOptions::default());
    iter.seek("a".into());
    assert!(iter.next().is_none());

    bt.put("a".into(), LogRecordPos { file_id: 1, offset: 10 });
    let mut iter = bt.iterator(IteratorOptions::default());
    iter.seek("a".into());
    assert_eq!(iter.next(), Some(("a".into(), LogRecordPos { file_id: 1, offset: 10 })));

    for k in ["aa", "ab", "ac", "aaa", "aac", "b", "by"] {
        bt.put(k.into(), LogRecordPos { file_id: 1, offset: 10 });
    }

    let mut iter = bt.iterator(IteratorOptions::default());
    while let Some((k, _)) = iter.next() {
        assert!(!k.is_empty());
    }
    iter.rewind();
    iter.seek("aac".into());
    while let Some((k, _)) = iter.next() {
        assert!(!k.is_empty());
    }

    let mut iter = bt.iterator(IteratorOptions { reverse: true, ..Default::default() });
    while let Some((k, _)) = iter.next() {
        assert!(!k.is_empty());
    }
    let mut iter = bt.iterator(IteratorOptions { prefix: "b".into(), ..Default::default() });
    while let Some((k, _)) = iter.next() {
        assert!(k.starts_with(b"b"));
    }
}

#[test]
fn test_skiplist_iterator() {
    let mut skl = SkipList::new();

    let mut iter = skl.iterator(IteratorOptions::default());
    iter.seek("a".into());
    assert!(iter.next().is_none());

    skl.put("a".into(), LogRecordPos { file_id: 1, offset: 10 });
    let mut iter = skl.iterator(IteratorOptions::default());
    iter.seek("a".into());
    assert_eq!(iter.next(), Some(("a".into(), LogRecordPos { file_id: 1, offset: 10 })));

    for k in ["aa", "ab", "ac", "aaa", "aac", "b", "by"] {
        skl.put(k.into(), LogRecordPos { file_id: 1, offset: 10 });
    }

    let mut iter = skl.iterator(IteratorOptions::default());
    while let Some((k, _)) = iter.next() {
        assert!(!k.is_empty());
    }
    iter.rewind();
    iter.seek("aac".into());
    while let Some((k, _)) = iter.next() {
        assert!(!k.is_empty());
    }

    skl.delete("aaa".into());
    let mut iter = skl.iterator(IteratorOptions { reverse: true, ..Default::default() });
    while let Some((k, _)) = iter.next() {
        assert!(!k.is_empty());
    }
    let mut iter = skl.iterator(IteratorOptions { prefix: "b".into(), ..Default::default() });
    while let Some((k, _)) = iter.next() {
        assert!(k.starts_with(b"b"));
    }
}

fn keys_of<I: IndexIterator>(iter: &mut I) -> Vec<Vec<u8>> {
    let mut out = Vec::new();
    while let Some((k, _)) = iter.next() {
        out.push(k);
    }
    out
}

fn filled_btree(keys: &[&str]) -> BTree {
    let mut bt = BTree::new();
    for (i, k) in keys.iter().enumerate() {
        bt.put(k.as_bytes().to_vec(), LogRecordPos { file_id: 0, offset: i as u64 });
    }
    bt
}

#[test]
fn iterator_prefix_yields_matching_keys_in_order() {
    let bt = filled_btree(&["aaa", "aab", "abc", "bcd"]);
    let mut iter = bt.iterator(IteratorOptions { reverse: false, prefix: b"aa".to_vec() });
    assert_eq!(keys_of(&mut iter), vec![b"aaa".to_vec(), b"aab".to_vec()]);
}

#[test]
fn iterator_reverse_descends() {
    let bt = filled_btree(&["b", "a", "c", "ab"]);
    let mut iter = bt.iterator(IteratorOptions { reverse: true, prefix: Vec::new() });
    assert_eq!(keys_of(&mut iter), vec![b"c".to_vec(), b"b".to_vec(), b"ab".to_vec(), b"a".to_vec()]);
}

#[test]
fn iterator_seek_lands_on_lower_bound() {
    let bt = filled_btree(&["aaa", "aaab", "aaac", "bbb", "ccc"]);
    let mut iter = bt.iterator(IteratorOptions::default());
    iter.seek(b"aaab".to_vec());
    assert_eq!(iter.next().unwrap().0, b"aaab".to_vec());
    iter.seek(b"b".to_vec());
    assert_eq!(iter.next().unwrap().0, b"bbb".to_vec());
    iter.seek(b"zzz".to_vec());
    assert!(iter.next().is_none());
    let mut rev = bt.iterator(IteratorOptions { reverse: true, prefix: Vec::new() });
    rev.seek(b"bz".to_vec());
    assert_eq!(rev.next().unwrap().0, b"bbb".to_vec());
    assert_eq!(rev.next().unwrap().0, b"aaac".to_vec());
}

#[test]
fn index_put_replaces_and_lists_sorted_keys() {
    let mut bt = BTree::new();
    let mut skl = SkipList::new();
    for (k, off) in [("b", 1u64), ("a", 2), ("c", 3), ("a", 4)] {
        bt.put(k.into(), LogRecordPos { file_id: 0, offset: off });
        skl.put(k.into(), LogRecordPos { file_id: 0, offset: off });
    }
    let expected = vec![b"a".to_vec(), b"b".to_vec(), b"c".to_vec()];
    assert_eq!(bt.list_keys(), expected);
    assert_eq!(skl.list_keys(), expected);
    assert_eq!(bt.get(b"a".to_vec()), Some(LogRecordPos { file_id: 0, offset: 4 }));
    assert_eq!(skl.get(b"a".to_vec()), Some(LogRecordPos { file_id: 0, offset: 4 }));
    assert!(!bt.delete(b"zz".to_vec()));
    assert!(!skl.delete(b"zz".to_vec()));
    assert!(skl.delete(b"b".to_vec()));
    assert_eq!(skl.get(b"b".to_vec()), None);
}
