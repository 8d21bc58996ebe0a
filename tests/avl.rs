use chit::avl::{AvlError, AVLDBMut, AVLDB};
use chit::memorydb::MemoryDB;

#[test]
fn empty_tree_has_null_root() {
    let t = AVLDBMut::new(MemoryDB::new());
    assert_eq!(t.root(), vec![0u8; 32]);
    assert!(t.is_empty());
    let db = t.into_db();
    let v = AVLDB::from_existing(&db, &[0u8; 32]).unwrap();
    assert!(v.is_empty());
}

#[test]
fn round_trip() {
    let mut t = AVLDBMut::new(MemoryDB::new());
    assert_eq!(t.insert(b"key", b"value"), Ok(None));
    assert_eq!(t.get(b"key").unwrap(), Some(b"value".to_vec()));
    assert_eq!(t.remove(b"key"), Ok(Some(b"value".to_vec())));
    assert_eq!(t.get(b"key").unwrap(), None);
    assert_eq!(t.remove(b"key"), Ok(None));
    assert_eq!(t.root(), vec![0u8; 32]);
}

#[test]
fn replacement_returns_previous() {
    let mut t = AVLDBMut::new(MemoryDB::new());
    assert_eq!(t.insert(b"k", b"v1"), Ok(None));
    assert_eq!(t.insert(b"k", b"v2"), Ok(Some(b"v1".to_vec())));
    assert_eq!(t.get(b"k").unwrap(), Some(b"v2".to_vec()));
    let mut u = AVLDBMut::new(MemoryDB::new());
    u.insert(b"k", b"v2").unwrap();
    assert_eq!(t.root(), u.root());
}

#[test]
fn canonical_commitment_any_order() {
    let keys: Vec<Vec<u8>> = (0u8..40).map(|i| vec![i.wrapping_mul(37), i]).collect();
    let mut a = AVLDBMut::new(MemoryDB::new());
    for k in &keys {
        a.insert(k, k).unwrap();
    }
    let mut b = AVLDBMut::new(MemoryDB::new());
    for k in keys.iter().rev() {
        b.insert(k, b"junk").unwrap();
    }
    b.insert(b"extra", b"e").unwrap();
    for k in keys.iter().rev() {
        b.insert(k, k).unwrap();
    }
    b.remove(b"extra").unwrap();
    assert_eq!(a.root(), b.root());
    assert_ne!(a.root(), vec![0u8; 32]);
}

#[test]
fn roots_differ_for_different_mappings() {
    let mut a = AVLDBMut::new(MemoryDB::new());
    let mut b = AVLDBMut::new(MemoryDB::new());
    a.insert(b"k", b"1").unwrap();
    b.insert(b"k", b"2").unwrap();
    assert_ne!(a.root(), b.root());
}

#[test]
fn historical_root_stays_readable() {
    let mut t = AVLDBMut::new(MemoryDB::new());
    for i in 0u8..20 {
        t.insert(&[i], &[i, i]).unwrap();
    }
    let old_root = t.root();
    t.insert(&[3u8], b"new").unwrap();
    t.remove(&[4u8]).unwrap();
    let new_root = t.root();
    let db = t.into_db();
    let old = AVLDB::from_existing(&db, &old_root).unwrap();
    assert_eq!(old.get(&[3u8]), Some(vec![3u8, 3]));
    assert_eq!(old.get(&[4u8]), Some(vec![4u8, 4]));
    let new = AVLDB::from_existing(&db, &new_root).unwrap();
    assert_eq!(new.get(&[3u8]), Some(b"new".to_vec()));
    assert_eq!(new.get(&[4u8]), None);
    assert!(new.contains(&[19u8]));
    assert_eq!(new.root(), new_root);
}

#[test]
fn reopen_many_entries() {
    let mut t = AVLDBMut::new(MemoryDB::new());
    for i in 0u16..300 {
        t.insert(&i.to_be_bytes(), &[1u8]).unwrap();
    }
    let root = t.root();
    let db = t.into_db();
    let mut t = AVLDBMut::from_existing(db, root.clone()).ok().unwrap();
    assert_eq!(t.get(&299u16.to_be_bytes()), Ok(Some(vec![1u8])));
    t.insert(b"z", b"z").unwrap();
    t.remove(b"z").unwrap();
    assert_eq!(t.root(), root);
}

#[test]
fn missing_root_is_detected() {
    let db = MemoryDB::new();
    let r = AVLDB::from_existing(&db, &[1u8; 32]);
    assert!(matches!(r, Err(AvlError::MissingRoot)));
    let r = AVLDBMut::from_existing(db, vec![1u8; 32]);
    assert!(matches!(r, Err((AvlError::MissingRoot, _))));
}

#[test]
fn garbage_root_is_a_decode_error() {
    let mut db = MemoryDB::new();
    let h = db.insert(b"not a node");
    let r = AVLDB::from_existing(&db, &h);
    assert!(matches!(r, Err(AvlError::DecodeError)));
    let r = AVLDBMut::from_existing(db, h);
    assert!(matches!(r, Err((AvlError::DecodeError, _))));
}

#[test]
fn prefix_keys_are_ordered() {
    let mut t = AVLDBMut::new(MemoryDB::new());
    t.insert(b"ab", b"2").unwrap();
    t.insert(b"a", b"1").unwrap();
    t.insert(b"", b"0").unwrap();
    t.insert(b"b", b"3").unwrap();
    assert_eq!(t.get(b"").unwrap(), Some(b"0".to_vec()));
    assert_eq!(t.get(b"a").unwrap(), Some(b"1".to_vec()));
    assert_eq!(t.get(b"ab").unwrap(), Some(b"2".to_vec()));
    assert_eq!(t.get(b"b").unwrap(), Some(b"3".to_vec()));
    assert!(!t.is_empty());
}

#[test]
fn shared_nodes_are_counted_per_root() {
    let mut t = AVLDBMut::new(MemoryDB::new());
    t.insert(b"k", b"v").unwrap();
    let r1 = t.root();
    assert_eq!(t.db().refs(&r1), 1);
    t.insert(b"k", b"v").unwrap();
    assert_eq!(t.root(), r1);
    assert_eq!(t.db().refs(&r1), 2);
}
