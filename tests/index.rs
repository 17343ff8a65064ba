use bitcask_kv::index::{BTree, IndexIterator, Indexer};
use bitcask_kv::log_record::LogRecordPos;
use bitcask_kv::options::IteratorOptions;
use bitcask_kv::skiplist::SkipList;

#[test]
fn test_btree_put() {
    let mut bt = BTree::new();

    let res1 = bt.put("".as_bytes().to_vec(), LogRecordPos { file_id: 1, offset: 10, size: 0 });
    assert!(res1.is_none());
    let res2 = bt.put("aa".as_bytes().to_vec(), LogRecordPos { file_id: 1, offset: 10, size: 0 });
    assert!(res2.is_none());
}

#[test]
fn test_btree_get() {
    let mut bt = BTree::new();

    let res1 = bt.put("".as_bytes().to_vec(), LogRecordPos { file_id: 1, offset: 10, size: 0 });
    assert!(res1.is_none());
    let res2 = bt.put("aa".as_bytes().to_vec(), LogRecordPos { file_id: 11, offset: 22, size: 0 });
    assert!(res2.is_none());

    let pos1 = bt.get("".as_bytes().to_vec());
    assert!(pos1.is_some());
    assert_eq!(pos1.unwrap().file_id, 1);
    assert_eq!(pos1.unwrap().offset, 10);
    let pos2 = bt.get("aa".as_bytes().to_vec());
    assert!(pos2.is_some());
    assert_eq!(pos2.unwrap().file_id, 11);
    assert_eq!(pos2.unwrap().offset, 22);
}

#[test]
fn test_btree_delete() {
    let mut bt = BTree::new();

    let res1 = bt.put("".as_bytes().to_vec(), LogRecordPos { file_id: 1, offset: 10, size: 0 });
    assert!(res1.is_none());
    let res2 = bt.put("aa".as_bytes().to_vec(), LogRecordPos { file_id: 11, offset: 22, size: 0 });
    assert!(res2.is_none());

    let del1 = bt.delete("".as_bytes().to_vec());
    assert!(del1.is_some());
    let del2 = bt.delete("aa".as_bytes().to_vec());
    assert!(del2.is_some());
    let del3 = bt.delete("not_exist".as_bytes().to_vec());
    assert!(del3.is_none());
}

#[test]
fn test_btree_iterator_seek() {
    let mut bt = BTree::new();

    let mut iter1 = bt.iterator(IteratorOptions::default());
    iter1.seek("as".as_bytes().to_vec());
    let res1 = iter1.next();
    assert!(res1.is_none());

    bt.put("ccde".as_bytes().to_vec(), LogRecordPos { file_id: 1, offset: 10, size: 0 });
    let mut iter2 = bt.iterator(IteratorOptions::default());
    iter2.seek("aa".as_bytes().to_vec());
    let res2 = iter2.next();
    assert!(res2.is_some());

    let mut iter3 = bt.iterator(IteratorOptions::default());
    iter3.seek("zz".as_bytes().to_vec());
    let res3 = iter3.next();
    assert!(res3.is_none());

    bt.put("bbde".as_bytes().to_vec(), LogRecordPos { file_id: 1, offset: 10, size: 0 });
    bt.put("aaed".as_bytes().to_vec(), LogRecordPos { file_id: 1, offset: 10, size: 0 });
    bt.put("cadd".as_bytes().to_vec(), LogRecordPos { file_id: 1, offset: 10, size: 0 });
    let mut iter4 = bt.iterator(IteratorOptions::default());
    iter4.seek("b".as_bytes().to_vec());
    while let Some(item) = iter4.next() {
        assert!(item.0.len() > 0);
    }

    let mut iter5 = bt.iterator(IteratorOptions::default());
    iter5.seek("cadd".as_bytes().to_vec());
    while let Some(item) = iter5.next() {
        assert!(item.0.len() > 0);
    }

    let mut iter_opts = IteratorOptions::default();
    iter_opts.reverse = true;
    let mut iter6 = bt.iterator(iter_opts);
    iter6.seek("bb".as_bytes().to_vec());
    while let Some(item) = iter6.next() {
        assert!(item.0.len() > 0);
    }
}

#[test]
fn test_btree_iterator_next() {
    let mut bt = BTree::new();

    let mut iter1 = bt.iterator(IteratorOptions::default());
    iter1.seek("as".as_bytes().to_vec());
    let res1 = iter1.next();
    assert!(res1.is_none());

    bt.put("ccde".as_bytes().to_vec(), LogRecordPos { file_id: 1, offset: 10, size: 0 });
    let mut iter2 = bt.iterator(IteratorOptions::default());
    iter2.seek("aa".as_bytes().to_vec());
    let res2: Option<(Vec<u8>, LogRecordPos)> = iter2.next();
    assert!(res2.is_some());

    bt.put("bbde".as_bytes().to_vec(), LogRecordPos { file_id: 1, offset: 10, size: 0 });
    bt.put("aaed".as_bytes().to_vec(), LogRecordPos { file_id: 1, offset: 10, size: 0 });
    bt.put("cadd".as_bytes().to_vec(), LogRecordPos { file_id: 1, offset: 10, size: 0 });
    let mut iter3 = bt.iterator(IteratorOptions::default());
    iter3.seek("b".as_bytes().to_vec());
    while let Some(item) = iter3.next() {
        assert!(item.0.len() > 0);
    }

    let mut iter_opts1 = IteratorOptions::default();
    iter_opts1.reverse = true;
    let mut iter4 = bt.iterator(iter_opts1);
    iter4.seek("dd".as_bytes().to_vec());
    let res4: Option<(Vec<u8>, LogRecordPos)> = iter4.next();
    assert!(res4.is_some());
    while let Some(item) = iter4.next() {
        assert!(item.0.len() > 0);
        println!("{:?}", String::from_utf8(item.0.to_vec()));
    }

    let mut iter_opts2 = IteratorOptions::default();
    iter_opts2.prefix = "c".as_bytes().to_vec();
    let mut iter5 = bt.iterator(iter_opts2);
    while let Some(item) = iter5.next() {
        assert!(item.0.len() > 0);
    }

    let mut iter_opts3 = IteratorOptions::default();
    iter_opts3.prefix = "csss".as_bytes().to_vec();
    let mut iter6 = bt.iterator(iter_opts3);
    let res6 = iter6.next();
    assert!(res6.is_none());

    let mut iter_opts4 = IteratorOptions::default();
    iter_opts4.prefix = "cadd".as_bytes().to_vec();
    let mut iter6 = bt.iterator(iter_opts4);
    while let Some(item) = iter6.next() {
        assert!(item.0.len() > 0);
    }
}

#[test]
fn test_skiplist_put() {
    let mut bt = SkipList::new();

    let res1 = bt.put("".as_bytes().to_vec(), LogRecordPos { file_id: 1, offset: 10, size: 0 });
    assert!(res1.is_none());
    let res2 = bt.put("aa".as_bytes().to_vec(), LogRecordPos { file_id: 1, offset: 10, size: 0 });
    assert!(res2.is_none());
}

#[test]
fn test_skiplist_get() {
    let mut bt = SkipList::new();

    let res1 = bt.put("".as_bytes().to_vec(), LogRecordPos { file_id: 1, offset: 10, size: 0 });
    assert!(res1.is_none());
    let res2 = bt.put("aa".as_bytes().to_vec(), LogRecordPos { file_id: 11, offset: 22, size: 0 });
    assert!(res2.is_none());

    let pos1 = bt.get("".as_bytes().to_vec());
    assert!(pos1.is_some());
    assert_eq!(pos1.unwrap().file_id, 1);
    assert_eq!(pos1.unwrap().offset, 10);
    let pos2 = bt.get("aa".as_bytes().to_vec());
    assert!(pos2.is_some());
    assert_eq!(pos2.unwrap().file_id, 11);
    assert_eq!(pos2.unwrap().offset, 22);
}

#[test]
fn test_skiplist_delete() {
    let mut bt = SkipList::new();

    let res1 = bt.put("".as_bytes().to_vec(), LogRecordPos { file_id: 1, offset: 10, size: 0 });
    assert!(res1.is_none());
    let res2 = bt.put("aa".as_bytes().to_vec(), LogRecordPos { file_id: 11, offset: 22, size: 0 });
    assert!(res2.is_none());

    let del1 = bt.delete("".as_bytes().to_vec());
    assert!(del1.is_some());
    let del2 = bt.delete("aa".as_bytes().to_vec());
    assert!(del2.is_some());
    let del3 = bt.delete("not_exist".as_bytes().to_vec());
    assert!(del3.is_none());
}

#[test]
fn test_skiplist_iterator_seek() {
    let mut bt = SkipList::new();

    let mut iter1 = bt.iterator(IteratorOptions::default());
    iter1.seek("as".as_bytes().to_vec());
    let res1 = iter1.next();
    assert!(res1.is_none());

    bt.put("ccde".as_bytes().to_vec(), LogRecordPos { file_id: 1, offset: 10, size: 0 });
    let mut iter2 = bt.iterator(IteratorOptions::default());
    iter2.seek("aa".as_bytes().to_vec());
    let res2 = iter2.next();
    assert!(res2.is_some());

    let mut iter3 = bt.iterator(IteratorOptions::default());
    iter3.seek("zz".as_bytes().to_vec());
    let res3 = iter3.next();
    assert!(res3.is_none());

    bt.put("bbde".as_bytes().to_vec(), LogRecordPos { file_id: 1, offset: 10, size: 0 });
    bt.put("aaed".as_bytes().to_vec(), LogRecordPos { file_id: 1, offset: 10, size: 0 });
    bt.put("cadd".as_bytes().to_vec(), LogRecordPos { file_id: 1, offset: 10, size: 0 });
    let mut iter4 = bt.iterator(IteratorOptions::default());
    iter4.seek("b".as_bytes().to_vec());
    while let Some(item) = iter4.next() {
        assert!(item.0.len() > 0);
    }

    let mut iter5 = bt.iterator(IteratorOptions::default());
    iter5.seek("cadd".as_bytes().to_vec());
    while let Some(item) = iter5.next() {
        assert!(item.0.len() > 0);
    }

    let mut iter_opts = IteratorOptions::default();
    iter_opts.reverse = true;
    let mut iter6 = bt.iterator(iter_opts);
    iter6.seek("bb".as_bytes().to_vec());
    while let Some(item) = iter6.next() {
        assert!(item.0.len() > 0);
    }
}

#[test]
fn test_skiplist_iterator_next() {
    let mut bt = SkipList::new();

    let mut iter1 = bt.iterator(IteratorOptions::default());
    iter1.seek("as".as_bytes().to_vec());
    let res1 = iter1.next();
    assert!(res1.is_none());

    bt.put("ccde".as_bytes().to_vec(), LogRecordPos { file_id: 1, offset: 10, size: 0 });
    let mut iter2 = bt.iterator(IteratorOptions::default());
    iter2.seek("aa".as_bytes().to_vec());
    let res2: Option<(Vec<u8>, LogRecordPos)> = iter2.next();
    assert!(res2.is_some());

    bt.put("bbde".as_bytes().to_vec(), LogRecordPos { file_id: 1, offset: 10, size: 0 });
    bt.put("aaed".as_bytes().to_vec(), LogRecordPos { file_id: 1, offset: 10, size: 0 });
    bt.put("cadd".as_bytes().to_vec(), LogRecordPos { file_id: 1, offset: 10, size: 0 });
    let mut iter3 = bt.iterator(IteratorOptions::default());
    iter3.seek("b".as_bytes().to_vec());
    while let Some(item) = iter3.next() {
        assert!(item.0.len() > 0);
    }

    let mut iter_opts1 = IteratorOptions::default();
    iter_opts1.reverse = true;
    let mut iter4 = bt.iterator(iter_opts1);
    iter4.seek("dd".as_bytes().to_vec());
    let res4: Option<(Vec<u8>, LogRecordPos)> = iter4.next();
    assert!(res4.is_some());
    while let Some(item) = iter4.next() {
        assert!(item.0.len() > 0);
        println!("{:?}", String::from_utf8(item.0.to_vec()));
    }

    let mut iter_opts2 = IteratorOptions::default();
    iter_opts2.prefix = "c".as_bytes().to_vec();
    let mut iter5 = bt.iterator(iter_opts2);
    while let Some(item) = iter5.next() {
        assert!(item.0.len() > 0);
    }

    let mut iter_opts3 = IteratorOptions::default();
    iter_opts3.prefix = "csss".as_bytes().to_vec();
    let mut iter6 = bt.iterator(iter_opts3);
    let res6 = iter6.next();
    assert!(res6.is_none());

    let mut iter_opts4 = IteratorOptions::default();
    iter_opts4.prefix = "cadd".as_bytes().to_vec();
    let mut iter6 = bt.iterator(iter_opts4);
    while let Some(item) = iter6.next() {
        assert!(item.0.len() > 0);
    }
}

fn pos(n: u32) -> LogRecordPos {
    LogRecordPos { file_id: n, offset: n as u64 * 10, size: n }
}

fn collect(mut it: IndexIterator) -> Vec<Vec<u8>> {
    let mut out = Vec::new();
    while let Some((k, _)) = it.next() {
        out.push(k);
    }
    out
}

fn check_backend<I: Indexer>(mut ix: I) {
    for k in ["eecc", "bbac", "ccde", "aacc", "cadd", "c"] {
        assert!(ix.put(k.as_bytes().to_vec(), pos(k.len() as u32)).is_none());
    }
    // Replacing returns the displaced position.
    assert_eq!(ix.put(b"ccde".to_vec(), pos(9)), Some(pos(4)));
    assert_eq!(ix.get(b"ccde".to_vec()), Some(pos(9)));
    assert_eq!(ix.delete(b"ccde".to_vec()), Some(pos(9)));
    assert_eq!(ix.get(b"ccde".to_vec()), None);
    assert!(ix.put(b"ccde".to_vec(), pos(4)).is_none());

    let want: Vec<Vec<u8>> = ["aacc", "bbac", "c", "cadd", "ccde", "eecc"].iter().map(|s| s.as_bytes().to_vec()).collect();
    assert_eq!(ix.list_keys(), want);
    assert_eq!(collect(ix.iterator(IteratorOptions::default())), want);

    let mut rev = want.clone();
    rev.reverse();
    assert_eq!(collect(ix.iterator(IteratorOptions { prefix: Vec::new(), reverse: true })), rev);

    let pre = collect(ix.iterator(IteratorOptions { prefix: b"c".to_vec(), reverse: false }));
    assert_eq!(pre, vec![b"c".to_vec(), b"cadd".to_vec(), b"ccde".to_vec()]);

    // Seek lands on the key, or the next one in iteration order.
    let mut it = ix.iterator(IteratorOptions::default());
    it.seek(b"bz".to_vec());
    assert_eq!(it.next().unwrap().0, b"c".to_vec());
    it.seek(b"cadd".to_vec());
    assert_eq!(it.next().unwrap().0, b"cadd".to_vec());
    it.rewind();
    assert_eq!(it.next().unwrap().0, b"aacc".to_vec());
    let mut rit = ix.iterator(IteratorOptions { prefix: Vec::new(), reverse: true });
    rit.seek(b"bz".to_vec());
    assert_eq!(rit.next().unwrap().0, b"bbac".to_vec());

    ix.clear();
    assert!(ix.list_keys().is_empty());
    assert_eq!(ix.get(b"aacc".to_vec()), None);
}

#[test]
fn btree_backend_contract() {
    check_backend(BTree::new());
}

#[test]
fn skiplist_backend_contract() {
    check_backend(SkipList::new());
}

#[test]
fn ascending_iteration_is_strictly_increasing_and_prefix_filtered() {
    let mut bt = BTree::new();
    let keys = ["b", "a", "ab", "abc", "ba", "", "zz", "aa"];
    for (i, k) in keys.iter().enumerate() {
        bt.put(k.as_bytes().to_vec(), pos(i as u32));
    }
    let all = collect(bt.iterator(IteratorOptions::default()));
    for w in all.windows(2) {
        assert!(w[0] < w[1]);
    }
    assert_eq!(all.len(), keys.len());
    let with_a = collect(bt.iterator(IteratorOptions { prefix: b"a".to_vec(), reverse: false }));
    assert_eq!(with_a, vec![b"a".to_vec(), b"aa".to_vec(), b"ab".to_vec(), b"abc".to_vec()]);
}

#[test]
fn empty_key_is_a_key_for_the_index() {
    let mut bt = BTree::new();
    assert!(bt.put(Vec::new(), pos(1)).is_none());
    assert_eq!(bt.len(), 1);
    assert_eq!(bt.get(Vec::new()), Some(pos(1)));
}
