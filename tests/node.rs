use chit::avl::AVLDBMut;
use chit::memorydb::MemoryDB;
use chit::node::{build, encode_node, height_of};
use sha3::{Digest, Keccak256};

fn keccak(b: &[u8]) -> Vec<u8> {
    Keccak256::digest(b).to_vec()
}

fn manual_node(k: &[u8], v: &[u8], l: &[u8], r: &[u8], h: u64) -> Vec<u8> {
    let mut b = Vec::new();
    b.extend_from_slice(&(k.len() as u64).to_be_bytes());
    b.extend_from_slice(k);
    b.extend_from_slice(&(v.len() as u64).to_be_bytes());
    b.extend_from_slice(v);
    b.extend_from_slice(l);
    b.extend_from_slice(r);
    b.extend_from_slice(&h.to_be_bytes());
    b
}

#[test]
fn node_layout() {
    let null = [0u8; 32];
    let b = encode_node(b"ab", b"c", &null, &null, 1);
    assert_eq!(
        b[..19].to_vec(),
        vec![0, 0, 0, 0, 0, 0, 0, 2, b'a', b'b', 0, 0, 0, 0, 0, 0, 0, 1, b'c']
    );
    assert_eq!(b.len(), 8 + 2 + 8 + 1 + 64 + 8);
    assert_eq!(b[b.len() - 8..].to_vec(), vec![0, 0, 0, 0, 0, 0, 0, 1]);
}

#[test]
fn single_entry_root() {
    let mut t = AVLDBMut::new(MemoryDB::new());
    t.insert(b"k", b"v").unwrap();
    let null = [0u8; 32];
    let expected = keccak(&manual_node(b"k", b"v", &null, &null, 1));
    assert_eq!(t.root(), expected);
    assert_eq!(t.db().get(&expected), Some(manual_node(b"k", b"v", &null, &null, 1)));
}

#[test]
fn three_entry_root_is_the_middle_key() {
    let mut t = AVLDBMut::new(MemoryDB::new());
    t.insert(b"c", b"3").unwrap();
    t.insert(b"a", b"1").unwrap();
    t.insert(b"b", b"2").unwrap();
    let null = [0u8; 32];
    let left = keccak(&manual_node(b"a", b"1", &null, &null, 1));
    let right = keccak(&manual_node(b"c", b"3", &null, &null, 1));
    let root = keccak(&manual_node(b"b", b"2", &left, &right, 2));
    assert_eq!(t.root(), root);
    let entries = vec![
        (b"a".to_vec(), b"1".to_vec()),
        (b"b".to_vec(), b"2".to_vec()),
        (b"c".to_vec(), b"3".to_vec()),
    ];
    let mut nodes = Vec::new();
    assert_eq!(build(&entries, 0, 3, &mut nodes), root);
    assert_eq!(nodes.len(), 3);
    assert_eq!(nodes[2].0, root);
}

#[test]
fn heights_of_canonical_trees() {
    let expected = [0u64, 1, 2, 2, 3, 3, 3, 3, 4];
    for (n, h) in expected.iter().enumerate() {
        assert_eq!(height_of(n), *h);
    }
    assert_eq!(height_of(1 << 20), 21);
    for n in 1usize..200 {
        let l = height_of(n / 2);
        let r = height_of(n - n / 2 - 1);
        assert!(r <= l && l <= r + 1);
        assert_eq!(height_of(n), l + 1);
    }
}

#[test]
fn occupied_node_address_is_a_hash_collision() {
    let null = [0u8; 32];
    let h = keccak(&manual_node(b"k", b"v", &null, &null, 1));
    let mut db = MemoryDB::new();
    db.emplace(h.clone(), b"something else".to_vec());
    let mut t = AVLDBMut::new(db);
    assert_eq!(t.insert(b"k", b"v"), Err(chit::avl::AvlError::HashCollision));
    assert!(t.is_empty());
    assert_eq!(t.root(), null.to_vec());
    assert_eq!(t.get(b"k").unwrap(), None);
    assert_eq!(t.db().get(&h), Some(b"something else".to_vec()));
}
