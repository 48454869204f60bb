//! B+ trees and the catalog.
use sakuradb::storage::store::{BPlusTree, EntryError};

#[test]
fn test_put_and_get() {
    let file = {
        let (mut store, mut tree) = BPlusTree::open(None).unwrap();
        tree.put(&mut store, b"hello", b"world").unwrap();
        tree.put(&mut store, b"foo", b"bar").unwrap();
        store.flush().unwrap();
        store.into_file()
    };
    {
        let (mut store, tree) = BPlusTree::open(Some(file)).unwrap();
        assert_eq!(tree.get(&mut store, b"hello").unwrap(), Some(b"world".to_vec()));
        assert_eq!(tree.get(&mut store, b"foo").unwrap(), Some(b"bar".to_vec()));
        assert_eq!(tree.get(&mut store, b"nope").unwrap(), None);
    }
}

#[test]
fn btree_test_update() {
    let (mut store, mut tree) = BPlusTree::open(None).unwrap();
    tree.put(&mut store, b"key", b"val1").unwrap();
    tree.put(&mut store, b"key", b"val2").unwrap();
    assert_eq!(tree.get(&mut store, b"key").unwrap(), Some(b"val2".to_vec()));
}

#[test]
fn btree_test_delete() {
    let (mut store, mut tree) = BPlusTree::open(None).unwrap();
    tree.put(&mut store, b"k1", b"v1").unwrap();
    tree.put(&mut store, b"k2", b"v2").unwrap();
    tree.put(&mut store, b"k3", b"v3").unwrap();
    tree.delete(&mut store, b"k2").unwrap();
    assert_eq!(tree.get(&mut store, b"k1").unwrap(), Some(b"v1".to_vec()));
    assert_eq!(tree.get(&mut store, b"k2").unwrap(), None);
    assert_eq!(tree.get(&mut store, b"k3").unwrap(), Some(b"v3".to_vec()));
}

#[test]
fn test_scan() {
    let (mut store, mut tree) = BPlusTree::open(None).unwrap();
    tree.put(&mut store, b"c", b"3").unwrap();
    tree.put(&mut store, b"a", b"1").unwrap();
    tree.put(&mut store, b"b", b"2").unwrap();
    let result = tree.scan(&mut store).unwrap();
    assert_eq!(result.len(), 3);
    assert_eq!(result[0].0, b"a".to_vec());
    assert_eq!(result[1].0, b"b".to_vec());
    assert_eq!(result[2].0, b"c".to_vec());
}

#[test]
fn test_large_insert() {
    let (mut store, mut tree) = BPlusTree::open(None).unwrap();
    for i in 0..500u32 {
        let key = i.to_be_bytes().to_vec();
        let val = (i * 2).to_be_bytes().to_vec();
        tree.put(&mut store, &key, &val).unwrap();
    }
    for i in 0..500u32 {
        let key = i.to_be_bytes().to_vec();
        let val = tree.get(&mut store, &key).unwrap();
        assert_eq!(val, Some((i * 2).to_be_bytes().to_vec()));
    }
}

#[test]
fn test_catalog_create_and_get_entry() {
    let (mut store, mut cat) = BPlusTree::open(None).unwrap();
    cat.create_entry(&mut store, b"users", &1u64.to_le_bytes()).unwrap();

    let (mut users, _) = cat.get_entry(&mut store, b"users").unwrap().unwrap();
    users.put(&mut store, b"k1", b"v1").unwrap();
    users.put(&mut store, b"k2", b"v2").unwrap();
    assert_eq!(users.get(&mut store, b"k1").unwrap(), Some(b"v1".to_vec()));
    assert_eq!(users.get(&mut store, b"k2").unwrap(), Some(b"v2".to_vec()));

}

#[test]
fn test_catalog_drop_entry() {

    let (mut store, mut cat) = BPlusTree::open(None).unwrap();
    cat.create_entry(&mut store, b"users", &1u64.to_le_bytes()).unwrap();
    assert!(cat.get_entry(&mut store, b"users").unwrap().is_some());
    cat.drop_entry(&mut store, b"users").unwrap();
    assert!(cat.get_entry(&mut store, b"users").unwrap().is_none());

}

#[test]
fn test_catalog_multi_table() {
    let (mut store, mut cat) = BPlusTree::open(None).unwrap();
    cat.create_entry(&mut store, b"t1", &1u64.to_le_bytes()).unwrap();
    cat.create_entry(&mut store, b"t2", &1u64.to_le_bytes()).unwrap();

    let (mut t1, _) = cat.get_entry(&mut store, b"t1").unwrap().unwrap();
    t1.put(&mut store, b"a", b"1").unwrap();
    let (mut t2, _) = cat.get_entry(&mut store, b"t2").unwrap().unwrap();
    t2.put(&mut store, b"b", b"2").unwrap();

    assert_eq!(t1.get(&mut store, b"a").unwrap(), Some(b"1".to_vec()));
    assert_eq!(t2.get(&mut store, b"b").unwrap(), Some(b"2".to_vec()));
    assert_eq!(t1.get(&mut store, b"b").unwrap(), None);

}

#[test]
fn entries_are_kept_in_order_through_splits_and_merges() {
    let (mut store, mut tree) = BPlusTree::open(None).unwrap();
    let key = |i: u32| ((i * 7919) % 3000).to_be_bytes().to_vec();
    for i in 0..3000u32 {
        tree.put(&mut store, &key(i), &i.to_le_bytes()).unwrap();
    }
    let all = tree.scan(&mut store).unwrap();
    assert_eq!(all.len(), 3000);
    assert!(all.windows(2).all(|w| w[0].0 < w[1].0));
    for i in 0..3000u32 {
        if i % 10 != 0 {
            tree.delete(&mut store, &i.to_be_bytes()).unwrap();
        }
    }
    let left = tree.scan(&mut store).unwrap();
    assert_eq!(left.len(), 300);
    for (i, (k, _)) in left.iter().enumerate() {
        assert_eq!(*k, (i as u32 * 10).to_be_bytes().to_vec());
    }
    tree.delete(&mut store, b"not there").unwrap();
    for i in 0..300u32 {
        tree.delete(&mut store, &(i * 10).to_be_bytes()).unwrap();
    }
    assert!(tree.scan(&mut store).unwrap().is_empty());
}

#[test]
fn ranges_begin_and_end_where_they_should() {
    let (mut store, mut tree) = BPlusTree::open(None).unwrap();
    for i in 0..500u32 {
        tree.put(&mut store, &(i * 2).to_be_bytes(), b"v").unwrap();
    }
    let keys = |v: Vec<(Vec<u8>, Vec<u8>)>| v.into_iter().map(|e| e.0).collect::<Vec<_>>();
    let lo = 101u32.to_be_bytes();
    let hi = 108u32.to_be_bytes();
    let expected: Vec<Vec<u8>> = [102u32, 104, 106].iter().map(|i| i.to_be_bytes().to_vec()).collect();
    assert_eq!(keys(tree.range_scan(&mut store, &lo, Some(&hi)).unwrap()), expected);
    assert_eq!(tree.range_scan(&mut store, &lo, None).unwrap().len(), 449);
    assert_eq!(tree.range_scan(&mut store, &hi, Some(&lo)).unwrap().len(), 0);
    let mut joined = tree.range_scan(&mut store, b"", Some(&lo)).unwrap();
    joined.extend(tree.range_scan(&mut store, &lo, None).unwrap());
    assert_eq!(joined, tree.scan(&mut store).unwrap());
}

#[test]
fn a_missing_catalog_entry_cannot_be_dropped() {
    let (mut store, mut cat) = BPlusTree::open(None).unwrap();
    assert_eq!(cat.drop_entry(&mut store, b"users"), Err(EntryError::NotFound));
    cat.create_entry(&mut store, b"users", b"meta").unwrap();
    let (_, meta) = cat.get_entry(&mut store, b"users").unwrap().unwrap();
    assert_eq!(meta, b"meta".to_vec());
}

#[test]
fn the_pages_of_dropped_trees_are_used_again() {
    let (mut store, mut cat) = BPlusTree::open(None).unwrap();
    let mut counts = Vec::new();
    for _ in 0..3 {
        cat.create_entry(&mut store, b"t", b"").unwrap();
        let (mut tree, _) = cat.get_entry(&mut store, b"t").unwrap().unwrap();
        for i in 0..2000u32 {
            tree.put(&mut store, &i.to_be_bytes(), b"v").unwrap();
        }
        for i in 0..1500u32 {
            tree.delete(&mut store, &i.to_be_bytes()).unwrap();
        }
        assert_eq!(tree.scan(&mut store).unwrap().len(), 500);
        store.drop_tree(tree).unwrap();
        cat.delete(&mut store, b"t").unwrap();
        store.flush().unwrap();
        let file = store.into_file();
        let pages = (0..).take_while(|id| file.read(*id).is_some()).count();
        counts.push(pages);
        let opened = BPlusTree::open(Some(file)).unwrap();
        store = opened.0;
        cat = opened.1;
    }
    assert_eq!(counts[0], counts[1]);
    assert_eq!(counts[1], counts[2]);
}
