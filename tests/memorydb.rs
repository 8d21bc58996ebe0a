use chit::memorydb::MemoryDB;

#[test]
fn insert_addresses_by_keccak() {
    let mut db = MemoryDB::new();
    let h = db.insert(b"");
    let expected: Vec<u8> = vec![
        0xc5, 0xd2, 0x46, 0x01, 0x86, 0xf7, 0x23, 0x3c, 0x92, 0x7e, 0x7d, 0xb2, 0xdc, 0xc7, 0x03,
        0xc0, 0xe5, 0x00, 0xb6, 0x53, 0xca, 0x82, 0x27, 0x3b, 0x7b, 0xfa, 0xd8, 0x04, 0x5d, 0x85,
        0xa4, 0x70,
    ];
    assert_eq!(h, expected);
    assert_eq!(db.get(&h), Some(vec![]));
}

#[test]
fn reference_counts() {
    let mut db = MemoryDB::new();
    let h1 = db.insert(b"blob");
    let h2 = db.insert(b"blob");
    assert_eq!(h1, h2);
    assert_eq!(db.refs(&h1), 2);
    db.remove(&h1);
    assert!(db.contains(&h1));
    assert_eq!(db.refs(&h1), 1);
    db.remove(&h1);
    assert!(!db.contains(&h1));
    assert_eq!(db.get(&h1), None);
    assert_eq!(db.refs(&h1), 0);
    db.remove(&h1);
    assert!(!db.contains(&h1));
}

#[test]
fn emplace_under_given_key() {
    let mut db = MemoryDB::new();
    db.emplace(b"key".to_vec(), b"v1".to_vec());
    assert_eq!(db.get(b"key"), Some(b"v1".to_vec()));
    db.emplace(b"key".to_vec(), b"v1".to_vec());
    assert_eq!(db.refs(b"key"), 2);
    assert_eq!(db.get(b"other"), None);
}
