use journal_storage::Header;

#[test]
fn test_header_new() {
    let key = b"key".to_vec();
    let value = b"value".to_vec();
    let header = Header::new(key.clone(), value.clone());

    assert_eq!(header.key(), &key);
    assert_eq!(header.value(), &value);
}

#[test]
fn header_test_binary_size() {
    let key = b"key".to_vec();
    let value = b"value".to_vec();
    let header = Header::new(key.clone(), value.clone());

    assert_eq!(header.binary_size(), 1 + key.len() + value.len());
}

#[test]
fn test_header_encode() {
    let key = b"key".to_vec();
    let value = b"value".to_vec();
    let header = Header::new(key.clone(), value.clone());

    let mut buf: Vec<u8> = Vec::new();
    header.encode(&mut buf);

    // Check the encoded length and value
    assert_eq!(buf.len(), key.len() + value.len() + 1);
    assert_eq!(&buf[1..4], &key[..]);
    assert_eq!(&buf[4..], &value[..]);
}

#[test]
fn test_header_decode() {
    let key = b"key".to_vec();
    let value = b"value".to_vec();
    let header = Header::new(key.clone(), value.clone());

    let mut buf: Vec<u8> = Vec::new();
    header.encode(&mut buf);

    let decoded_header = Header::decode(&buf).unwrap();

    assert_eq!(decoded_header.key(), &key);
    assert_eq!(decoded_header.value(), &value);
}

#[test]
fn header_test_read_at() {
    let key = b"key".to_vec();
    let value = b"value".to_vec();
    let header = Header::new(key.clone(), value.clone());

    let mut buf = vec![0; key.len()];
    let n = header.read_at(&mut buf, 1);
    assert_eq!(n, key.len());
    assert_eq!(&buf, &key);

    let mut buf = vec![0; value.len()];
    let n = header.read_at(&mut buf, key.len() + 1);
    assert_eq!(n, value.len());
    assert_eq!(&buf, &value);

    let mut buf = vec![0; key.len() + value.len()];
    let n = header.read_at(&mut buf, 1);
    assert_eq!(n, key.len() + value.len());
    assert_eq!(&buf[..], b"keyvalue");

    let mut buf = vec![0; key.len() + value.len() + 1];
    let n = header.read_at(&mut buf, 0);
    assert_eq!(n, header.binary_size());
    assert_eq!(buf, b"\x03keyvalue");
}

#[test]
fn test_read_at_all() {
    for i in 1..10 {
        read_all(i);
    }
}

fn read_all(step: usize) {
    let key = b"key".to_vec();
    let value = b"value".to_vec();
    let header = Header::new(key.clone(), value.clone());

    let mut buf = vec![0; step];
    let mut all = vec![];
    let mut offset = 0;
    loop {
        let n = header.read_at(&mut buf, offset);
        offset += n;
        all.extend_from_slice(&buf[..n]);
        if n == 0 {
            break;
        }
    }
    assert_eq!(all, b"\x03keyvalue");
    assert_eq!(offset, header.binary_size());
}

#[test]
fn header_round_trip_empty_key() {
    let header = Header::new(Vec::new(), b"value".to_vec());
    let mut buf: Vec<u8> = Vec::new();
    header.encode(&mut buf);
    assert_eq!(buf.len(), header.binary_size());
    let decoded = Header::decode(&buf).unwrap();
    assert_eq!(decoded.key().len(), 0);
    assert_eq!(decoded.value(), &b"value".to_vec());
}

#[test]
fn header_round_trip_empty_value() {
    let header = Header::new(b"key".to_vec(), Vec::new());
    let mut buf: Vec<u8> = Vec::new();
    header.encode(&mut buf);
    assert_eq!(buf.len(), header.binary_size());
    let decoded = Header::decode(&buf).unwrap();
    assert_eq!(decoded.key(), &b"key".to_vec());
    assert_eq!(decoded.value().len(), 0);
}

#[test]
fn header_round_trip_empty_both() {
    let header = Header::new(Vec::new(), Vec::new());
    let mut buf: Vec<u8> = Vec::new();
    header.encode(&mut buf);
    assert_eq!(buf, vec![0u8]);
    let decoded = Header::decode(&buf).unwrap();
    assert_eq!(decoded.key().len(), 0);
    assert_eq!(decoded.value().len(), 0);
}

#[test]
fn header_decode_rejects_truncated_key() {
    // Delimiter says five key bytes but only two follow.
    let buf = vec![0x05u8, b'a', b'b'];
    assert!(matches!(
        Header::decode(&buf),
        Err(journal_storage::Error::DecodeBufNotEnough)
    ));
}

#[test]
fn header_decode_rejects_empty_buffer() {
    let buf: Vec<u8> = Vec::new();
    assert!(matches!(Header::decode(&buf), Err(journal_storage::Error::Decode)));
}
