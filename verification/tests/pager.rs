//! The pager.
use sakuradb::storage::page::{LeafPage, Page};
use sakuradb::storage::pager::{PageFile, Pager, StorageError, MAX_CACHE};

#[test]
fn test_open_new_file() {
    let pager = Pager::open(None).unwrap();
    assert_eq!(pager.num_pages(), 2);
    assert_eq!(pager.free_list(), 0);
}

#[test]
fn test_get_and_new_page() {
    let mut pager = Pager::open(None).unwrap();

    let leaf = LeafPage {
        keys: vec![b"k1".to_vec()],
        values: vec![b"v1".to_vec()],
        next: 0,
    };
    let id = pager.new_page(Page::Leaf(leaf)).unwrap();
    assert_eq!(id, 2);

    let page = pager.get_page(id).unwrap();
    match page {
        Page::Leaf(p) => {
            assert_eq!(p.keys, vec![b"k1".to_vec()]);
            assert_eq!(p.values, vec![b"v1".to_vec()]);
        }
        _ => panic!("expected leaf"),
    }
}

#[test]
fn test_free_and_reuse_page() {
    let mut pager = Pager::open(None).unwrap();

    let leaf = LeafPage {
        keys: vec![b"k1".to_vec()],
        values: vec![b"v1".to_vec()],
        next: 0,
    };
    let id = pager.new_page(Page::Leaf(leaf)).unwrap();
    pager.free_page(id);
    assert_eq!(pager.free_list(), id);

    let leaf2 = LeafPage {
        keys: vec![b"k2".to_vec()],
        values: vec![b"v2".to_vec()],
        next: 0,
    };
    let reused_id = pager.new_page(Page::Leaf(leaf2)).unwrap();
    assert_eq!(reused_id, id);
}

#[test]
fn test_cache_eviction() {
    let mut pager = Pager::open(None).unwrap();

    for i in 0..MAX_CACHE + 10 {
        let leaf = LeafPage {
            keys: vec![b"k".to_vec()],
            values: vec![vec![i as u8]],
            next: 0,
        };
        pager.new_page(Page::Leaf(leaf)).unwrap();
    }

    assert!(pager.cached() <= MAX_CACHE);
}

#[test]
fn test_flush_persistence() {
    let file = {
        let mut pager = Pager::open(None).unwrap();
        let leaf = LeafPage {
            keys: vec![b"k".to_vec()],
            values: vec![b"v".to_vec()],
            next: 0,
        };
        pager.new_page(Page::Leaf(leaf)).unwrap();
        pager.flush().unwrap();
        pager.into_file()
    };

    {
        let pager = Pager::open(Some(file)).unwrap();
        assert_eq!(pager.num_pages(), 3);
    }
}

#[test]
fn evicted_pages_are_read_back() {
    let mut pager = Pager::open(None).unwrap();
    let mut ids = Vec::new();
    for i in 0..200u8 {
        let leaf = LeafPage {
            keys: vec![vec![i]],
            values: vec![vec![i, i]],
            next: 0,
        };
        ids.push(pager.new_page(Page::Leaf(leaf)).unwrap());
    }
    for (i, id) in ids.iter().enumerate() {
        match pager.get_page(*id).unwrap() {
            Page::Leaf(p) => assert_eq!(p.values, vec![vec![i as u8, i as u8]]),
            _ => panic!("expected leaf"),
        }
        assert!(pager.cached() <= MAX_CACHE);
    }
    assert!(matches!(pager.get_page(4000), Err(StorageError::MissingPage(4000))));
}

#[test]
fn freed_pages_are_reused_in_turn_after_reopening() {
    let mut pager = Pager::open(None).unwrap();
    for _ in 0..3 {
        let leaf = LeafPage {
            keys: vec![],
            values: vec![],
            next: 0,
        };
        pager.new_page(Page::Leaf(leaf)).unwrap();
    }
    pager.free_page(2);
    pager.free_page(4);
    pager.flush().unwrap();
    let mut pager = Pager::open(Some(pager.into_file())).unwrap();
    for expected in [4, 2, 5] {
        let leaf = LeafPage {
            keys: vec![],
            values: vec![],
            next: 0,
        };
        assert_eq!(pager.new_page(Page::Leaf(leaf)).unwrap(), expected);
    }
    assert_eq!(pager.num_pages(), 6);
}

#[test]
fn files_without_a_header_are_refused() {
    assert!(matches!(Pager::open(Some(PageFile::new())), Err(StorageError::MissingPage(0))));
    let leaf = LeafPage {
        keys: vec![],
        values: vec![],
        next: 0,
    };
    let mut file = PageFile::new();
    file.write(0, Page::Leaf(leaf).serialize().unwrap());
    assert!(matches!(Pager::open(Some(file)), Err(StorageError::NotHeader)));
}
