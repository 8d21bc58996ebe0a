use chit::protocol::ChitCodec;

#[test]
fn encode_writes_header_and_payload() {
    let mut c = ChitCodec;
    let mut buf = vec![9u8];
    c.encode(vec![1, 2, 3], &mut buf);
    assert_eq!(buf, vec![9, 0xDE, 0xAD, 0xBE, 0xEF, 0, 0, 0, 3, 1, 2, 3]);
}

#[test]
fn encode_large_length() {
    let mut c = ChitCodec;
    let mut buf = Vec::new();
    c.encode(vec![0u8; 0x1_0203], &mut buf);
    assert_eq!(&buf[..8], &[0xDE, 0xAD, 0xBE, 0xEF, 0, 1, 2, 3]);
    assert_eq!(buf.len(), 8 + 0x1_0203);
}

#[test]
fn decode_round_trip_keeps_rest() {
    let mut c = ChitCodec;
    let mut buf = Vec::new();
    c.encode(b"hello".to_vec(), &mut buf);
    c.encode(b"world".to_vec(), &mut buf);
    buf.push(0xDE);
    assert_eq!(c.decode(&mut buf), Some(b"hello".to_vec()));
    assert_eq!(c.decode(&mut buf), Some(b"world".to_vec()));
    assert_eq!(buf, vec![0xDE]);
    assert_eq!(c.decode(&mut buf), None);
    assert_eq!(buf, vec![0xDE]);
}

#[test]
fn decode_incomplete_frame() {
    let mut c = ChitCodec;
    let mut buf = vec![0xDE, 0xAD, 0xBE, 0xEF, 0, 0, 0, 4, 1, 2, 3];
    assert_eq!(c.decode(&mut buf), None);
    assert_eq!(buf.len(), 11);
    buf.push(4);
    assert_eq!(c.decode(&mut buf), Some(vec![1, 2, 3, 4]));
    assert!(buf.is_empty());
}

#[test]
fn decode_rejects_bad_marker() {
    let mut c = ChitCodec;
    let mut buf = vec![0xDE, 0xAD, 0xBE, 0xEE, 0, 0, 0, 0];
    assert_eq!(c.decode(&mut buf), None);
    assert_eq!(buf.len(), 8);
}

#[test]
fn decode_empty_payload() {
    let mut c = ChitCodec;
    let mut buf = vec![0xDE, 0xAD, 0xBE, 0xEF, 0, 0, 0, 0, 7];
    assert_eq!(c.decode(&mut buf), Some(vec![]));
    assert_eq!(buf, vec![7]);
}
