use chit::avl::{AvlError, AVLDB};
use chit::fatdb::FatDBMut;
use chit::memorydb::MemoryDB;
use sha3::{Digest, Keccak256};

fn keccak(b: &[u8]) -> Vec<u8> {
    Keccak256::digest(b).to_vec()
}

#[test]
fn fatdb_to_avl() {
    let memdb = MemoryDB::new();
    let mut t = FatDBMut::new(memdb);
    t.insert(&[0x01u8, 0x23], &[0x01u8, 0x23]).unwrap();
    let root = t.root();
    let memdb = t.into_db();
    let t = AVLDB::from_existing(&memdb, &root).unwrap();
    assert_eq!(t.get(&keccak(&[0x01u8, 0x23])).unwrap(), vec![0x01u8, 0x23]);
}

#[test]
fn fatdb_reopened_by_raw_key() {
    let mut t = FatDBMut::new(MemoryDB::new());
    assert_eq!(t.insert(&[0x01u8, 0x23], &[0x01u8, 0x23]), Ok(None));
    let root = t.root();
    let db = t.into_db();
    let t = FatDBMut::from_existing(db, root).ok().unwrap();
    assert_eq!(t.get(&[0x01u8, 0x23]).unwrap().unwrap(), vec![0x01u8, 0x23]);
    assert!(t.contains(&[0x01u8, 0x23]).unwrap());
    assert!(!t.contains(&[0x01u8, 0x24]).unwrap());
}

#[test]
fn fatdb_aux_entry_follows_key() {
    let key = b"account-7".to_vec();
    let mut t = FatDBMut::new(MemoryDB::new());
    t.insert(&key, b"balance").unwrap();
    let mut aux = vec![0xFFu8];
    aux.extend_from_slice(&keccak(&key));
    assert_eq!(t.db().get(&aux), Some(key.clone()));
    assert_eq!(t.db().refs(&aux), 1);
    // a second insert of the same key does not touch the auxiliary entry
    assert_eq!(t.insert(&key, b"other"), Ok(Some(b"balance".to_vec())));
    assert_eq!(t.db().refs(&aux), 1);
    assert_eq!(t.remove(&key), Ok(Some(b"other".to_vec())));
    assert!(!t.db().contains(&aux));
    assert!(t.is_empty());
}

#[test]
fn fatdb_canonical_root() {
    let mut a = FatDBMut::new(MemoryDB::new());
    let mut b = FatDBMut::new(MemoryDB::new());
    a.insert(b"x", b"1").unwrap();
    a.insert(b"y", b"2").unwrap();
    a.insert(b"z", b"3").unwrap();
    b.insert(b"z", b"3").unwrap();
    b.insert(b"w", b"9").unwrap();
    b.insert(b"y", b"2").unwrap();
    b.insert(b"x", b"1").unwrap();
    b.remove(b"w").unwrap();
    assert_eq!(a.root(), b.root());
}

#[test]
fn fatdb_missing_root() {
    let mut db = MemoryDB::new();
    db.insert(b"kept");
    match FatDBMut::from_existing(db, vec![7u8; 32]) {
        Err((e, db)) => {
            assert_eq!(e, AvlError::MissingRoot);
            assert!(db.contains(&keccak(b"kept")));
        }
        Ok(_) => panic!("opened a tree at a root that was never stored"),
    }
}

#[test]
fn fatdb_other_aux_entries_survive() {
    let aux = |k: &[u8]| {
        let mut a = vec![0xFFu8];
        a.extend_from_slice(&keccak(k));
        a
    };
    let mut t = FatDBMut::new(MemoryDB::new());
    t.insert(b"a", b"1").unwrap();
    t.insert(b"b", b"2").unwrap();
    t.insert(b"c", b"3").unwrap();
    t.remove(b"b").unwrap();
    t.insert(b"a", b"9").unwrap();
    assert_eq!(t.db().get(&aux(b"a")), Some(b"a".to_vec()));
    assert_eq!(t.db().get(&aux(b"c")), Some(b"c".to_vec()));
    assert!(!t.db().contains(&aux(b"b")));
    let root = t.root();
    let db = t.into_db();
    let v = AVLDB::from_existing(&db, &root).unwrap();
    assert_eq!(v.get(&keccak(b"a")), Some(b"9".to_vec()));
    assert_eq!(v.get(&keccak(b"b")), None);
}

#[test]
fn fatdb_missing_root_node_is_reported() {
    let mut t = FatDBMut::new(MemoryDB::new());
    t.insert(b"a", b"1").unwrap();
    let root = t.root();
    t.db_mut().remove(&root);
    assert_eq!(t.get(b"a"), Err(AvlError::MissingRoot));
    assert_eq!(t.get(b"zz"), Err(AvlError::MissingRoot));
    assert_eq!(t.contains(b"a"), Err(AvlError::MissingRoot));
    assert_eq!(t.insert(b"b", b"2"), Err(AvlError::MissingRoot));
    assert_eq!(t.remove(b"a"), Err(AvlError::MissingRoot));
    assert_eq!(t.root(), root);
    let mut aux = vec![0xFFu8];
    aux.extend_from_slice(&keccak(b"a"));
    assert_eq!(t.db().get(&aux), Some(b"a".to_vec()));
}

#[test]
fn fatdb_corrupt_inner_node_is_a_decode_error() {
    let mut t = FatDBMut::new(MemoryDB::new());
    t.insert(b"a", b"1").unwrap();
    t.insert(b"b", b"2").unwrap();
    t.insert(b"c", b"3").unwrap();
    let root = t.root();
    let blob = t.db().get(&root).unwrap();
    // the left child hash sits 64 + 8 bytes before the end of the root node
    let left = blob[blob.len() - 72..blob.len() - 40].to_vec();
    t.db_mut().remove(&left);
    assert_eq!(t.get(b"a"), Err(AvlError::DecodeError));
    assert_eq!(t.remove(b"zz"), Err(AvlError::DecodeError));
    assert_eq!(t.root(), root);
}

#[test]
fn fatdb_remove_absent_key_changes_nothing() {
    let mut t = FatDBMut::new(MemoryDB::new());
    t.insert(b"a", b"1").unwrap();
    let root = t.root();
    assert_eq!(t.remove(b"b"), Ok(None));
    assert_eq!(t.root(), root);
    assert_eq!(t.insert(b"b", b"2"), Ok(None));
    assert_eq!(t.remove(b"b"), Ok(Some(b"2".to_vec())));
    assert_eq!(t.root(), root);
}
