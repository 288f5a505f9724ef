use redb::{
    Drain, KeyBound, KeyOrder, KeyRange, Page, PageStore, ReadOnlyTable, ReadableTable, RangeIter,
    Table, TableError, WriteTransaction,
};

fn open(txn: &mut WriteTransaction, order: KeyOrder) -> Table {
    txn.open_table(b"x", order, None).unwrap()
}

fn keys(mut iter: RangeIter) -> Vec<Vec<u8>> {
    let mut out = Vec::new();
    while let Some((k, _)) = iter.next() {
        out.push(k);
    }
    out
}

#[test]
fn custom_ordering() {
    let mut store = PageStore::new();
    let mut write_txn = WriteTransaction::new();
    {
        let mut table = open(&mut write_txn, KeyOrder::Reversed);
        for i in 0..10u8 {
            let key = vec![i];
            table.insert(&mut store, &key, b"value");
        }
        let (root, _freed) = write_txn.close_table(table);
        let table = ReadOnlyTable::new(KeyOrder::Reversed, root);
        // Reversed order, so 7 comes before 3.
        let range = KeyRange { start: KeyBound::Included(vec![7u8]), end: KeyBound::Included(vec![3u8]) };
        let mut iter = table.range(&store, &range);
        for i in (3..=7u8).rev() {
            let (key, value) = iter.next().unwrap();
            assert_eq!(&[i], key.as_slice());
            assert_eq!("value".as_bytes(), value.as_slice());
        }
        assert!(iter.next().is_none());
    }
}

#[test]
fn pop_first_and_pop_last() {
    let mut store = PageStore::new();
    let mut txn = WriteTransaction::new();
    let mut table = open(&mut txn, KeyOrder::Lexicographic);
    for k in [1u8, 2, 3] {
        table.insert(&mut store, &[k], &[k * 10]);
    }
    let (k, v) = table.pop_first(&mut store).unwrap();
    assert_eq!(k, vec![1u8]);
    assert_eq!(v, vec![10u8]);
    assert_eq!(keys(table.iter(&store)), vec![vec![2u8], vec![3u8]]);

    table.insert(&mut store, &[1], &[10]);
    let (k, v) = table.pop_last(&mut store).unwrap();
    assert_eq!(k, vec![3u8]);
    assert_eq!(v, vec![30u8]);
    assert_eq!(keys(table.iter(&store)), vec![vec![1u8], vec![2u8]]);
}

#[test]
fn pop_on_empty_table() {
    let mut store = PageStore::new();
    let mut txn = WriteTransaction::new();
    let mut table = open(&mut txn, KeyOrder::Lexicographic);
    assert!(table.pop_first(&mut store).is_none());
    assert!(table.pop_last(&mut store).is_none());
    assert_eq!(store.page_count(), 0);
}

#[test]
fn insert_then_get() {
    let mut store = PageStore::new();
    let mut txn = WriteTransaction::new();
    let mut table = open(&mut txn, KeyOrder::Lexicographic);
    assert_eq!(table.insert(&mut store, b"hello", b"world"), None);
    assert_eq!(table.get(&store, b"hello"), Some(b"world".to_vec()));
    assert_eq!(table.get(&store, b"hell"), None);
    assert_eq!(table.insert(&mut store, b"hello", b"there"), Some(b"world".to_vec()));
    assert_eq!(table.get(&store, b"hello"), Some(b"there".to_vec()));
    assert_eq!(table.len(&store), 1);
}

#[test]
fn remove_present_and_absent() {
    let mut store = PageStore::new();
    let mut txn = WriteTransaction::new();
    let mut table = open(&mut txn, KeyOrder::Lexicographic);
    table.insert(&mut store, b"a", b"1");
    table.insert(&mut store, b"b", b"2");
    assert_eq!(table.remove(&mut store, b"c"), None);
    assert_eq!(table.remove(&mut store, b"a"), Some(b"1".to_vec()));
    assert_eq!(table.get(&store, b"a"), None);
    assert_eq!(table.len(&store), 1);
    assert!(!table.is_empty(&store));
    assert_eq!(table.remove(&mut store, b"b"), Some(b"2".to_vec()));
    assert!(table.is_empty(&store));
    assert_eq!(table.root(), None);
}

#[test]
fn lexicographic_traversal_is_ordered() {
    let mut store = PageStore::new();
    let mut txn = WriteTransaction::new();
    let mut table = open(&mut txn, KeyOrder::Lexicographic);
    for k in [b"pear".to_vec(), b"apple".to_vec(), b"ap".to_vec(), b"zoo".to_vec(), b"b".to_vec()] {
        table.insert(&mut store, &k, b"");
    }
    table.remove(&mut store, b"zoo");
    let expected: Vec<Vec<u8>> = vec![b"ap".to_vec(), b"apple".to_vec(), b"b".to_vec(), b"pear".to_vec()];
    assert_eq!(keys(table.iter(&store)), expected);
}

#[test]
fn range_bounds_and_reverse_iteration() {
    let mut store = PageStore::new();
    let mut txn = WriteTransaction::new();
    let mut table = open(&mut txn, KeyOrder::Lexicographic);
    for k in 0..10u8 {
        table.insert(&mut store, &[k], &[k]);
    }
    let range = KeyRange { start: KeyBound::Excluded(vec![2]), end: KeyBound::Excluded(vec![6]) };
    assert_eq!(keys(table.range(&store, &range)), vec![vec![3u8], vec![4u8], vec![5u8]]);
    let range = KeyRange { start: KeyBound::Unbounded, end: KeyBound::Included(vec![1]) };
    assert_eq!(keys(table.range(&store, &range)), vec![vec![0u8], vec![1u8]]);
    let mut iter = table.iter(&store);
    assert_eq!(iter.next_back().unwrap().0, vec![9u8]);
    assert_eq!(iter.next().unwrap().0, vec![0u8]);
    assert_eq!(iter.next_back().unwrap().0, vec![8u8]);
}

#[test]
fn reader_keeps_its_snapshot() {
    let mut store = PageStore::new();
    let mut txn = WriteTransaction::new();
    let mut table = open(&mut txn, KeyOrder::Lexicographic);
    table.insert(&mut store, b"a", b"1");
    table.insert(&mut store, b"b", b"2");
    let reader = ReadOnlyTable::new(KeyOrder::Lexicographic, table.root());
    table.insert(&mut store, b"a", b"changed");
    table.insert(&mut store, b"c", b"3");
    table.remove(&mut store, b"b");
    assert_eq!(reader.get(&store, b"a"), Some(b"1".to_vec()));
    assert_eq!(reader.get(&store, b"b"), Some(b"2".to_vec()));
    assert_eq!(reader.get(&store, b"c"), None);
    assert_eq!(reader.len(&store), 2);
    assert_eq!(table.get(&store, b"a"), Some(b"changed".to_vec()));
    assert_eq!(table.len(&store), 2);
}

#[test]
fn second_writer_is_refused_until_close() {
    let mut txn = WriteTransaction::new();
    let first = txn.open_table(b"t", KeyOrder::Lexicographic, None).unwrap();
    assert!(txn.is_open(b"t"));
    assert!(matches!(txn.open_table(b"t", KeyOrder::Lexicographic, None), Err(TableError::TableAlreadyOpen)));
    let other = txn.open_table(b"u", KeyOrder::Lexicographic, None).unwrap();
    txn.close_table(first);
    assert!(!txn.is_open(b"t"));
    assert!(txn.is_open(b"u"));
    assert!(txn.open_table(b"t", KeyOrder::Lexicographic, None).is_ok());
    txn.close_table(other);
}

#[test]
fn drain_stops_after_partial_consumption() {
    let mut store = PageStore::new();
    let mut txn = WriteTransaction::new();
    let mut table = open(&mut txn, KeyOrder::Lexicographic);
    for k in 1..=6u8 {
        table.insert(&mut store, &[k], &[k]);
    }
    let range = KeyRange { start: KeyBound::Included(vec![2]), end: KeyBound::Included(vec![4]) };
    let mut drain: Drain = table.drain(range);
    assert_eq!(drain.next(&mut table, &mut store), Some((vec![2u8], vec![2u8])));
    assert_eq!(drain.next(&mut table, &mut store), Some((vec![3u8], vec![3u8])));
    assert_eq!(keys(table.iter(&store)), vec![vec![1u8], vec![4u8], vec![5u8], vec![6u8]]);
}

#[test]
fn drain_from_the_back_until_done() {
    let mut store = PageStore::new();
    let mut txn = WriteTransaction::new();
    let mut table = open(&mut txn, KeyOrder::Lexicographic);
    for k in 1..=6u8 {
        table.insert(&mut store, &[k], &[k]);
    }
    let range = KeyRange { start: KeyBound::Excluded(vec![4]), end: KeyBound::Unbounded };
    let mut drain = table.drain(range);
    assert_eq!(drain.next_back(&mut table, &mut store), Some((vec![6u8], vec![6u8])));
    assert_eq!(drain.next_back(&mut table, &mut store), Some((vec![5u8], vec![5u8])));
    assert_eq!(drain.next_back(&mut table, &mut store), None);
    assert_eq!(keys(table.iter(&store)), vec![vec![1u8], vec![2u8], vec![3u8], vec![4u8]]);
}

#[test]
fn fill_then_empty_in_reverse_accounts_for_every_page() {
    let mut store = PageStore::new();
    let mut txn = WriteTransaction::new();
    let mut table = open(&mut txn, KeyOrder::Lexicographic);
    for k in 0..100u8 {
        table.insert(&mut store, &[k], &[k, k]);
    }
    // Enough entries that leaves have split under a branch.
    assert!(matches!(store.read(table.root().unwrap()), Page::Branch(_)));
    for k in (0..100u8).rev() {
        assert_eq!(table.remove(&mut store, &[k]), Some(vec![k, k]));
    }
    assert!(table.is_empty(&store));
    let (root, freed) = txn.close_table(table);
    assert_eq!(root, None);
    let mut seen = freed.clone();
    seen.sort();
    seen.dedup();
    assert_eq!(seen.len(), freed.len());
    assert_eq!(seen, (0..store.page_count()).collect::<Vec<_>>());
}

fn perm(i: u8) -> u8 {
    ((i as u32 * 37) % 61) as u8
}

#[test]
fn many_entries_split_and_stay_ordered() {
    let mut store = PageStore::new();
    let mut txn = WriteTransaction::new();
    let mut table = open(&mut txn, KeyOrder::Lexicographic);
    for i in 0..60u8 {
        let k = perm(i);
        table.insert(&mut store, &[k], &[i]);
    }
    assert_eq!(table.len(&store), 60);
    let listed = keys(table.iter(&store));
    let mut expected: Vec<Vec<u8>> = (0..60u8).map(|i| vec![perm(i)]).collect();
    expected.sort();
    assert_eq!(listed, expected);
    for i in 0..60u8 {
        assert_eq!(table.get(&store, &[perm(i)]), Some(vec![i]));
    }
    for i in 0..30u8 {
        assert_eq!(table.remove(&mut store, &[perm(i)]), Some(vec![i]));
    }
    assert_eq!(table.len(&store), 30);
    assert_eq!(keys(table.iter(&store)), expected.iter().filter(|k| !(0..30u8).any(|i| vec![perm(i)] == **k)).cloned().collect::<Vec<_>>());
}

#[test]
fn insert_reserve_makes_zeroed_value_present() {
    let mut store = PageStore::new();
    let mut txn = WriteTransaction::new();
    let mut table = open(&mut txn, KeyOrder::Lexicographic);
    assert_eq!(table.insert_reserve(&mut store, b"k", 3), None);
    assert_eq!(table.get(&store, b"k"), Some(vec![0u8, 0, 0]));
    assert_eq!(table.insert(&mut store, b"k", b"abc"), Some(vec![0u8, 0, 0]));
}

#[test]
fn removals_merge_leaves_and_collapse_the_root() {
    let mut store = PageStore::new();
    let mut txn = WriteTransaction::new();
    let mut table = open(&mut txn, KeyOrder::Lexicographic);
    for k in 0..20u8 {
        table.insert(&mut store, &[k], &[k]);
    }
    assert!(matches!(store.read(table.root().unwrap()), Page::Branch(_)));
    for k in 0..17u8 {
        assert_eq!(table.remove(&mut store, &[k]), Some(vec![k]));
        let expected: Vec<Vec<u8>> = (k + 1..20u8).map(|j| vec![j]).collect();
        assert_eq!(keys(table.iter(&store)), expected);
    }
    // Three entries left: they fit in one leaf, which is the root again.
    assert!(matches!(store.read(table.root().unwrap()), Page::Leaf(_)));
    assert_eq!(table.get(&store, &[18]), Some(vec![18u8]));
}

#[test]
fn reader_snapshot_survives_splits_and_merges() {
    let mut store = PageStore::new();
    let mut txn = WriteTransaction::new();
    let mut table = open(&mut txn, KeyOrder::Lexicographic);
    for k in 0..30u8 {
        table.insert(&mut store, &[k], &[k]);
    }
    let reader = ReadOnlyTable::new(KeyOrder::Lexicographic, table.root());
    let before = keys(reader.iter(&store));
    for k in 30..60u8 {
        table.insert(&mut store, &[k], &[k]);
    }
    for k in 0..25u8 {
        table.remove(&mut store, &[k]);
    }
    assert_eq!(keys(reader.iter(&store)), before);
    assert_eq!(reader.len(&store), 30);
    assert_eq!(reader.get(&store, &[3]), Some(vec![3u8]));
    assert_eq!(table.get(&store, &[3]), None);
    assert_eq!(table.len(&store), 35);
}
