use journal_storage::decode;
use journal_storage::journal::Error;
use journal_storage::journal::JournalEntryContext;
use journal_storage::journal::Sink;
use journal_storage::varint::decode_varint;
use journal_storage::Attr;
use journal_storage::Entry;
use journal_storage::EntryBuilder;
use journal_storage::Header;
use journal_storage::JournalWriterImpl;
use journal_storage::VecSink;

fn crc32c_reference(bytes: &[u8]) -> u32 {
    crc::Crc::<u32>::new(&crc::CRC_32_ISCSI).checksum(bytes)
}

fn sample_entry() -> Entry {
    EntryBuilder::new()
        .log_id(1)
        .entry_id(2)
        .attr(Attr::default())
        .last_confirm_id(3)
        .kv(b"key".to_vec(), b"value".to_vec())
        .header(Header::new(b"key".to_vec(), b"value".to_vec()))
        .build()
}

fn framed_bytes(entry: &Entry) -> Vec<u8> {
    let ctx = JournalEntryContext::new(clone_entry(entry));
    let mut buf = vec![0u8; ctx.binary_size()];
    let n = ctx.read_at(&mut buf, 0);
    assert_eq!(n, buf.len());
    buf
}

fn clone_entry(entry: &Entry) -> Entry {
    let mut bytes: Vec<u8> = Vec::new();
    entry.encode(&mut bytes);
    decode(&bytes).unwrap()
}

#[test]
fn context_frames_delimiter_entry_checksum() {
    let entry = sample_entry();
    let mut entry_bytes: Vec<u8> = Vec::new();
    entry.encode(&mut entry_bytes);

    let framed = framed_bytes(&entry);

    // Leading delimiter carries the entry's size.
    let (size, d) = decode_varint(&framed, 0).unwrap();
    assert_eq!(size, entry_bytes.len());
    // Then the entry's bytes verbatim.
    assert_eq!(&framed[d..d + size], &entry_bytes[..]);
    // Then the CRC-32 (Castagnoli) of exactly those bytes, little-endian.
    let crc = u32::from_le_bytes(framed[d + size..].try_into().unwrap());
    assert_eq!(crc, crc32c_reference(&entry_bytes));
    assert_eq!(framed.len(), d + size + 4);
}

#[test]
fn context_read_at_any_step_matches_one_shot() {
    let entry = sample_entry();
    let one_shot = framed_bytes(&entry);
    let ctx = JournalEntryContext::new(sample_entry());
    for step in 1..=one_shot.len() + 1 {
        let mut buf = vec![0u8; step];
        let mut gathered: Vec<u8> = Vec::new();
        let mut offset = 0;
        loop {
            let k = ctx.read_at(&mut buf, offset);
            if k == 0 {
                break;
            }
            gathered.extend_from_slice(&buf[..k]);
            offset += k;
        }
        assert_eq!(gathered, one_shot);
    }
}

#[test]
fn checksum_is_deterministic_and_sensitive() {
    let a = framed_bytes(&sample_entry());
    let b = framed_bytes(&sample_entry());
    // Two finalizations of the same entry give the same four bytes.
    assert_eq!(a[a.len() - 4..], b[b.len() - 4..]);

    // Changing one byte of the entry's encoded form changes the checksum.
    let changed = EntryBuilder::new()
        .log_id(1)
        .entry_id(2)
        .attr(Attr::default())
        .last_confirm_id(3)
        .kv(b"key".to_vec(), b"valuf".to_vec())
        .header(Header::new(b"key".to_vec(), b"value".to_vec()))
        .build();
    let c = framed_bytes(&changed);
    assert_ne!(a[a.len() - 4..], c[c.len() - 4..]);
}

#[test]
fn writer_counts_framed_bytes() {
    let entry = sample_entry();
    let framed = framed_bytes(&entry);
    let mut writer = JournalWriterImpl::new(VecSink::new(), 8);
    assert_eq!(writer.size(), 0);
    writer.append_entry(entry).unwrap();
    assert_eq!(writer.size(), framed.len());
    writer.append_entry(sample_entry()).unwrap();
    assert_eq!(writer.size(), 2 * framed.len());
}

#[test]
fn writer_flush_empties_buffer_to_sink() {
    let entry = sample_entry();
    let framed = framed_bytes(&entry);
    // A capacity larger than the entry: nothing reaches the sink until the
    // explicit flush.
    let mut writer = JournalWriterImpl::new(VecSink::new(), framed.len() + 16);
    writer.append_entry(entry).unwrap();
    writer.flush().unwrap();
    writer.sync().unwrap();
    let data = writer.into_sink().into_data();
    assert_eq!(data, framed);
}

#[test]
fn end_to_end_append_sync_reopen_decode() {
    // Build entry with log_id 1, entry_id 2, default attr, last_confirm 3,
    // kv ("key","value") and one auxiliary ("key","value") header.
    let entry = sample_entry();
    // Common header plus two framed headers of ("key","value").
    assert_eq!(entry.binary_size(), 29 + (1 + 1 + 3 + 5) + (1 + 1 + 3 + 5));
    let mut entry_bytes: Vec<u8> = Vec::new();
    entry.encode(&mut entry_bytes);

    // Append through a tiny four-byte buffer, then sync.
    let mut writer = JournalWriterImpl::new(VecSink::new(), 4);
    writer.append_entry(entry).unwrap();
    writer.flush().unwrap();
    writer.sync().unwrap();
    let written = writer.size();

    // Reopen the sink's bytes and decode sequentially.
    let data = writer.into_sink().into_data();
    assert_eq!(data.len(), written);
    let (size, d) = decode_varint(&data, 0).unwrap();
    assert_eq!(size, entry_bytes.len());
    let payload = data[d..d + size].to_vec();
    let decoded = decode(&payload).unwrap();
    assert_eq!(decoded.log_id(), 1);
    assert_eq!(decoded.entry_id(), 2);
    assert_eq!(decoded.attr(), Attr::default());
    assert_eq!(decoded.last_confirm_id(), 3);
    assert_eq!(decoded.key(), &b"key".to_vec());
    assert_eq!(decoded.value(), &b"value".to_vec());
    assert_eq!(decoded.headers().len(), 1);
    assert_eq!(decoded.headers()[0].key(), &b"key".to_vec());
    assert_eq!(decoded.headers()[0].value(), &b"value".to_vec());

    // The trailing checksum matches the payload.
    let crc = u32::from_le_bytes(data[d + size..].try_into().unwrap());
    assert_eq!(crc, crc32c_reference(&payload));
}

#[test]
fn multiple_entries_decode_in_order() {
    let mut writer = JournalWriterImpl::new(VecSink::new(), 4);
    for id in 0..3i64 {
        let entry = EntryBuilder::new()
            .log_id(7)
            .entry_id(id)
            .last_confirm(id - 1)
            .kv(b"k".to_vec(), vec![id as u8; 5])
            .build();
        writer.append_entry(entry).unwrap();
    }
    writer.flush().unwrap();
    writer.sync().unwrap();
    let data = writer.into_sink().into_data();

    let mut at = 0;
    for id in 0..3i64 {
        let (size, d) = decode_varint(&data, at).unwrap();
        let payload = data[at + d..at + d + size].to_vec();
        let decoded = decode(&payload).unwrap();
        assert_eq!(decoded.log_id(), 7);
        assert_eq!(decoded.entry_id(), id);
        assert_eq!(decoded.last_confirm_id(), id - 1);
        assert_eq!(decoded.value(), &vec![id as u8; 5]);
        let crc = u32::from_le_bytes(data[at + d + size..at + d + size + 4].try_into().unwrap());
        assert_eq!(crc, crc32c_reference(&payload));
        at += d + size + 4;
    }
    assert_eq!(at, data.len());
}

struct FailingSink;

impl Sink for FailingSink {
    fn write(&mut self, _data: &Vec<u8>, _len: usize) -> Result<(), Error> {
        Err(Error::Io)
    }

    fn sync_data(&mut self) -> Result<(), Error> {
        Err(Error::Io)
    }
}

#[test]
fn writer_propagates_sink_failure() {
    // A buffer smaller than the framed entry forces a flush mid-append.
    let mut writer = JournalWriterImpl::new(FailingSink, 4);
    assert!(matches!(writer.append_entry(sample_entry()), Err(Error::Io)));
    assert!(matches!(writer.sync(), Err(Error::Io)));
    assert_eq!(Error::Io.message(), "io error");
}
