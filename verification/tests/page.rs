//! Pages as bytes.
use sakuradb::storage::page::{HeaderPage, InternalPage, LeafPage, Page, PageError, MAGIC, PAGE_SIZE, VERSION};

#[test]
fn test_header_roundtrip() {
    let header = HeaderPage {
        magic: MAGIC,
        version: 1,
        num_pages: 2,
        free_list: 0,
    };
    let data = Page::Header(header).serialize().unwrap();
    let page = Page::deserialize(&data).unwrap();
    match page {
        Page::Header(h) => {
            assert_eq!(h.magic, MAGIC);
            assert_eq!(h.version, 1);
            assert_eq!(h.num_pages, 2);
            assert_eq!(h.free_list, 0);
        }
        _ => panic!("expected Header"),
    }
}

#[test]
fn test_internal_roundtrip() {
    let internal = InternalPage {
        keys: vec![b"abc".to_vec(), b"def".to_vec()],
        children: vec![10, 20, 30],
    };
    let data = Page::Internal(internal).serialize().unwrap();
    let page = Page::deserialize(&data).unwrap();
    match page {
        Page::Internal(p) => {
            assert_eq!(p.keys, vec![b"abc".to_vec(), b"def".to_vec()]);
            assert_eq!(p.children, vec![10, 20, 30]);
        }
        _ => panic!("expected Internal"),
    }
}

#[test]
fn test_leaf_roundtrip() {
    let leaf = LeafPage {
        keys: vec![b"k1".to_vec(), b"k2".to_vec()],
        values: vec![b"v1".to_vec(), b"v2".to_vec()],
        next: 42,
    };
    let data = Page::Leaf(leaf).serialize().unwrap();
    let page = Page::deserialize(&data).unwrap();
    match page {
        Page::Leaf(p) => {
            assert_eq!(p.keys, vec![b"k1".to_vec(), b"k2".to_vec()]);
            assert_eq!(p.values, vec![b"v1".to_vec(), b"v2".to_vec()]);
            assert_eq!(p.next, 42);
        }
        _ => panic!("expected Leaf"),
    }
}

#[test]
fn test_all_pages_are_4096_bytes() {
    let header = HeaderPage {
        magic: MAGIC,
        version: 1,
        num_pages: 0,
        free_list: 0,
    };
    let internal = InternalPage {
        keys: vec![],
        children: vec![0],
    };
    let leaf = LeafPage {
        keys: vec![],
        values: vec![],
        next: 0,
    };

    assert_eq!(Page::Header(header).serialize().unwrap().len(), PAGE_SIZE);
    assert_eq!(
        Page::Internal(internal).serialize().unwrap().len(),
        PAGE_SIZE
    );
    assert_eq!(Page::Leaf(leaf).serialize().unwrap().len(), PAGE_SIZE);
}

#[test]
fn test_unknown_page_type() {
    let mut data = [0u8; PAGE_SIZE];
    data[0] = 0xFF;
    assert!(Page::deserialize(&data).is_err());
}

#[test]
fn broken_pages_are_refused() {
    let too_big = LeafPage {
        keys: vec![vec![0; 5000]],
        values: vec![vec![]],
        next: 0,
    };
    assert!(matches!(Page::Leaf(too_big).serialize(), Err(PageError::Overflow)));
    let odd = LeafPage {
        keys: vec![vec![1]],
        values: vec![],
        next: 0,
    };
    assert!(matches!(Page::Leaf(odd).serialize(), Err(PageError::MissingValue)));
    let header = HeaderPage {
        magic: MAGIC,
        version: VERSION,
        num_pages: 2,
        free_list: 0,
    };
    let mut data = Page::Header(header).serialize().unwrap();
    data[1] ^= 0xFF;
    assert!(matches!(Page::deserialize(&data), Err(PageError::UnknownType(0x55))));
    let leaf = LeafPage {
        keys: vec![b"k".to_vec()],
        values: vec![b"v".to_vec()],
        next: 0,
    };
    let mut data = Page::Leaf(leaf).serialize().unwrap();
    for byte in data[1..].iter_mut() {
        *byte = 0xFF;
    }
    assert!(matches!(Page::deserialize(&data), Err(PageError::Truncated)));
    let mut data = [0u8; PAGE_SIZE];
    data[0] = 0xFF;
    assert!(matches!(Page::deserialize(&data), Err(PageError::UnknownType(0xFF))));
}
