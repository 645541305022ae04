use journal_storage::decode;
use journal_storage::Attr;
use journal_storage::Entry;
use journal_storage::EntryBuilder;
use journal_storage::Error;
use journal_storage::Header;
use journal_storage::Magic;

fn sample_entry(extra_headers: usize) -> Entry {
    let key = b"key".to_vec();
    let value = b"value".to_vec();
    let mut builder = EntryBuilder::new()
        .log_id(1)
        .entry_id(2)
        .attr(Attr::default())
        .last_confirm_id(3)
        .kv(key.clone(), value.clone());
    for _ in 0..extra_headers {
        builder = builder.header(Header::new(key.clone(), value.clone()));
    }
    builder.build()
}

#[test]
fn test_entry_builder_build() {
    let key = b"key".to_vec();
    let value = b"value".to_vec();
    let header = Header::new(key.clone(), value.clone());

    let entry = EntryBuilder::new()
        .log_id(1)
        .entry_id(2)
        .attr(Attr::default())
        .last_confirm_id(3)
        .kv(key.clone(), value.clone())
        .header(header.clone())
        .build();

    assert_eq!(entry.magic(), Magic::V1);
    assert_eq!(entry.attr(), Attr::default());
    assert_eq!(entry.log_id(), 1);
    assert_eq!(entry.entry_id(), 2);
    assert_eq!(entry.last_confirm_id(), 3);
    assert_eq!(entry.last_confirm(), 3);
    assert_eq!(entry.key(), &key);
    assert_eq!(entry.value(), &value);
    assert_eq!(entry.headers().len(), 1);
    assert_eq!(entry.headers()[0].key(), header.key());
    assert_eq!(entry.headers()[0].value(), header.value());
}

#[test]
fn test_entry_encode_decode() {
    let entry = sample_entry(1);

    // Encode the entry into a buffer
    let mut buf: Vec<u8> = Vec::new();
    entry.encode(&mut buf);

    // Decode the buffer back into an entry
    let decoded_entry = decode(&buf).unwrap();

    // The decoded entry must match the one that was encoded
    assert_eq!(decoded_entry.magic(), entry.magic());
    assert_eq!(decoded_entry.log_id(), entry.log_id());
    assert_eq!(decoded_entry.entry_id(), entry.entry_id());
    assert_eq!(decoded_entry.attr(), entry.attr());
    assert_eq!(decoded_entry.last_confirm_id(), entry.last_confirm_id());
    assert_eq!(decoded_entry.key(), entry.key());
    assert_eq!(decoded_entry.value(), entry.value());
    assert_eq!(decoded_entry.headers().len(), entry.headers().len());
    for i in 0..decoded_entry.headers().len() {
        assert_eq!(decoded_entry.headers()[i].key(), entry.headers()[i].key());
        assert_eq!(decoded_entry.headers()[i].value(), entry.headers()[i].value());
    }
}

#[test]
fn mod_test_binary_size() {
    let key = b"key".to_vec();
    let value = b"value".to_vec();
    let entry = sample_entry(1);

    // Calculate the binary size
    let binary_size = entry.binary_size();

    // Check that the binary size is correct
    // Magic size + attr size + log_id size + entry_id size + last_confirm size
    // + kv size + headers size
    let expected_size =
        1 + 4 + 8 + 8 + 8 + (key.len() + value.len() + 2) + (key.len() + value.len() + 2);
    assert_eq!(binary_size, expected_size);
}

#[test]
fn mod_test_estimate_size() {
    let key = b"key".to_vec();
    let value = b"value".to_vec();
    let entry = sample_entry(1);

    let estimated_size = entry.estimate_size();

    let expected_size =
        1 + 4 + 8 + 8 + 8 + (key.len() + value.len() + 2) + (key.len() + value.len() + 2);
    assert_eq!(estimated_size, expected_size);
}

#[test]
fn mod_test_read_at() {
    for i in 1..16 {
        read_all(i);
    }
}

fn read_all(step: usize) {
    let entry = sample_entry(2);

    let mut buf = vec![0; step];
    let mut gathered = Vec::new();
    let mut n = 0;
    loop {
        let k = entry.read_at(&mut buf, n);
        if k == 0 {
            break;
        }
        n += k;
        gathered.extend_from_slice(&buf[..k]);
    }
    assert_eq!(gathered.len(), entry.binary_size());

    // Encode the entry into a buffer
    let mut buf: Vec<u8> = Vec::new();
    entry.encode(&mut buf);

    assert_eq!(buf.len(), gathered.len());

    // Decode the buffer back into an entry
    let decoded_entry = decode(&buf).unwrap();

    // The decoded entry must match the one that was encoded
    assert_eq!(decoded_entry.magic(), entry.magic());
    assert_eq!(decoded_entry.log_id(), entry.log_id());
    assert_eq!(decoded_entry.entry_id(), entry.entry_id());
    assert_eq!(decoded_entry.attr(), entry.attr());
    assert_eq!(decoded_entry.last_confirm_id(), entry.last_confirm_id());
    assert_eq!(decoded_entry.key(), entry.key());
    assert_eq!(decoded_entry.value(), entry.value());
    assert_eq!(decoded_entry.headers().len(), entry.headers().len());
    for i in 0..decoded_entry.headers().len() {
        assert_eq!(decoded_entry.headers()[i].key(), entry.headers()[i].key());
        assert_eq!(decoded_entry.headers()[i].value(), entry.headers()[i].value());
    }
}

#[test]
fn decode_rejects_bad_magic() {
    let entry = sample_entry(0);
    let mut buf: Vec<u8> = Vec::new();
    entry.encode(&mut buf);
    buf[0] = 0x02;
    assert!(matches!(decode(&buf), Err(Error::InvalidMagic)));
    buf[0] = 0x00;
    assert!(matches!(decode(&buf), Err(Error::InvalidMagic)));
}

#[test]
fn decode_rejects_headerless_payload() {
    // A common header alone: valid magic, zeroed fields, no trailing headers.
    let mut buf = vec![0u8; 29];
    buf[0] = 0x01;
    assert!(matches!(decode(&buf), Err(Error::KVNotFound)));
}

#[test]
fn decode_rejects_short_buffer() {
    let buf: Vec<u8> = Vec::new();
    assert!(matches!(decode(&buf), Err(Error::DecodeBufNotEnough)));

    let mut buf = vec![0u8; 10];
    buf[0] = 0x01;
    assert!(matches!(decode(&buf), Err(Error::DecodeBufNotEnough)));
}

#[test]
fn decode_rejects_truncated_frame() {
    // Valid common header, then a frame that promises five bytes but has two.
    let mut buf = vec![0u8; 29];
    buf[0] = 0x01;
    buf.extend_from_slice(&[0x05, b'a', b'b']);
    assert!(matches!(decode(&buf), Err(Error::DecodeBufNotEnough)));
}

#[test]
fn decode_rejects_malformed_delimiter() {
    // Valid common header, then a lone continuation byte.
    let mut buf = vec![0u8; 29];
    buf[0] = 0x01;
    buf.push(0x80);
    assert!(matches!(decode(&buf), Err(Error::Decode)));
}

#[test]
fn size_consistency_matches_encoding() {
    for extra in 0..4 {
        let entry = sample_entry(extra);
        let mut buf: Vec<u8> = Vec::new();
        entry.encode(&mut buf);
        assert_eq!(buf.len(), entry.binary_size());
    }
}

#[test]
fn resumable_read_equals_one_shot_for_every_step() {
    let entry = sample_entry(1);
    let mut encoded: Vec<u8> = Vec::new();
    entry.encode(&mut encoded);

    for step in 1..=entry.binary_size() + 1 {
        let mut buf = vec![0u8; step];
        let mut gathered: Vec<u8> = Vec::new();
        let mut offset = 0;
        loop {
            let k = entry.read_at(&mut buf, offset);
            if k == 0 {
                break;
            }
            gathered.extend_from_slice(&buf[..k]);
            offset += k;
        }
        assert_eq!(gathered, encoded);
        assert_eq!(offset, entry.binary_size());
    }
}

#[test]
fn round_trip_with_empty_key_and_value() {
    let entry = EntryBuilder::new()
        .log_id(-1)
        .entry_id(i64::MIN)
        .attr(Attr::new(-7))
        .last_confirm(i64::MAX)
        .kv(Vec::new(), Vec::new())
        .build();
    let mut buf: Vec<u8> = Vec::new();
    entry.encode(&mut buf);
    let decoded = decode(&buf).unwrap();
    assert_eq!(decoded.log_id(), -1);
    assert_eq!(decoded.entry_id(), i64::MIN);
    assert_eq!(decoded.attr(), Attr::new(-7));
    assert_eq!(decoded.last_confirm_id(), i64::MAX);
    assert_eq!(decoded.key().len(), 0);
    assert_eq!(decoded.value().len(), 0);
    assert_eq!(decoded.headers().len(), 0);
}

#[test]
fn builder_defaults_are_zero() {
    let entry = EntryBuilder::default().kv(b"k".to_vec(), b"v".to_vec()).build();
    assert_eq!(entry.log_id(), 0);
    assert_eq!(entry.entry_id(), 0);
    assert_eq!(entry.last_confirm_id(), 0);
    assert_eq!(entry.attr(), Attr::default());
    assert_eq!(Attr::default().value(), 0);
    assert!(EntryBuilder::default().has_kv() == false);
}

#[test]
fn magic_byte_conversions() {
    assert_eq!(Magic::V1.to_u8(), 0x01);
    assert_eq!(Magic::from_u8(0x01), Ok(Magic::V1));
    assert_eq!(Magic::from_u8(0x02), Err(Error::InvalidMagic));
    assert_eq!(Magic::from_u8(0x00), Err(Error::InvalidMagic));
}

#[test]
fn error_messages() {
    assert_eq!(Error::InvalidMagic.message(), "invalid magic");
    assert_eq!(Error::KVNotFound.message(), "missing kv field in entry");
    assert_eq!(Error::DecodeBufNotEnough.message(), "decode buffer not enough");
    assert_eq!(Error::Decode.message(), "malformed length delimiter");
}
