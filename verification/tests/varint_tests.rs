use journal_storage::varint::decode_varint;
use journal_storage::varint::encode_varint;
use journal_storage::varint::varint_len;

// The library's delimiter codec is its own verified code; these tests hold it
// against prost's length-delimiter functions, the de-facto reference for the
// protobuf base-128 framing.

const SAMPLES: [usize; 12] = [
    0,
    1,
    0x7f,
    0x80,
    300,
    0x3fff,
    0x4000,
    0x1f_ffff,
    0x20_0000,
    0xffff_ffff,
    0x1_0000_0000,
    usize::MAX,
];

#[test]
fn varint_encode_matches_prost() {
    for &n in SAMPLES.iter() {
        let mut mine: Vec<u8> = Vec::new();
        encode_varint(n, &mut mine);
        let mut reference: Vec<u8> = Vec::new();
        prost::encode_length_delimiter(n, &mut reference).unwrap();
        assert_eq!(mine, reference, "encoding of {}", n);
    }
}

#[test]
fn varint_len_matches_prost() {
    for &n in SAMPLES.iter() {
        assert_eq!(varint_len(n), prost::length_delimiter_len(n), "length of {}", n);
    }
}

#[test]
fn varint_decode_matches_prost() {
    for &n in SAMPLES.iter() {
        let mut buf: Vec<u8> = Vec::new();
        encode_varint(n, &mut buf);
        // Trailing bytes must be ignored by both decoders.
        buf.push(0xab);
        let (value, consumed) = decode_varint(&buf, 0).unwrap();
        assert_eq!(value, n);
        assert_eq!(consumed, buf.len() - 1);

        let mut cursor: &[u8] = &buf[..];
        let reference = prost::decode_length_delimiter(&mut cursor).unwrap();
        assert_eq!(reference, n);
        assert_eq!(buf.len() - cursor.len(), consumed);
    }
}

#[test]
fn varint_decode_accepts_non_minimal_forms() {
    // A zero carried in two bytes: legal base-128, not the canonical form.
    let buf = vec![0x80u8, 0x00];
    let (value, consumed) = decode_varint(&buf, 0).unwrap();
    assert_eq!(value, 0);
    assert_eq!(consumed, 2);

    let mut cursor: &[u8] = &buf[..];
    let reference = prost::decode_length_delimiter(&mut cursor).unwrap();
    assert_eq!(reference, 0);
    assert_eq!(buf.len() - cursor.len(), 2);
}

#[test]
fn varint_decode_rejects_what_prost_rejects() {
    // Truncated: a continuation byte with nothing after it.
    let truncated = vec![0x80u8];
    assert!(decode_varint(&truncated, 0).is_err());
    let mut cursor: &[u8] = &truncated[..];
    assert!(prost::decode_length_delimiter(&mut cursor).is_err());

    // Eleven bytes: one more than a 64-bit value can need.
    let mut eleven = vec![0x80u8; 10];
    eleven.push(0x01);
    assert!(decode_varint(&eleven, 0).is_err());
    let mut cursor: &[u8] = &eleven[..];
    assert!(prost::decode_length_delimiter(&mut cursor).is_err());

    // Ten bytes whose top byte pushes the value past sixty-four bits.
    let mut overflow = vec![0xffu8; 9];
    overflow.push(0x02);
    assert!(decode_varint(&overflow, 0).is_err());
    let mut cursor: &[u8] = &overflow[..];
    assert!(prost::decode_length_delimiter(&mut cursor).is_err());

    // Empty input.
    let empty: Vec<u8> = Vec::new();
    assert!(decode_varint(&empty, 0).is_err());
    let mut cursor: &[u8] = &empty[..];
    assert!(prost::decode_length_delimiter(&mut cursor).is_err());
}

#[test]
fn varint_decode_at_offset() {
    let mut buf = vec![0xaau8, 0xbb];
    encode_varint(300, &mut buf);
    let (value, consumed) = decode_varint(&buf, 2).unwrap();
    assert_eq!(value, 300);
    assert_eq!(consumed, 2);
}

#[test]
fn copy_slice_bounded_copy() {
    let src = vec![1u8, 2, 3, 4, 5];
    let mut dst = vec![0u8; 4];
    // Source runs out first.
    let n = journal_storage::util::copy_slice(&src, 3, &mut dst, 1);
    assert_eq!(n, 2);
    assert_eq!(dst, vec![0, 4, 5, 0]);
    // Destination runs out first.
    let n = journal_storage::util::copy_slice(&src, 0, &mut dst, 2);
    assert_eq!(n, 2);
    assert_eq!(dst, vec![0, 4, 1, 2]);
}
