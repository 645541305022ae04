//! On-disk record layer for an append-only journal.
//!
//! An [`entry::Entry`] is a versioned binary record: a fixed 29-byte common
//! header (magic, attribute, log id, entry id, last-confirmed id) followed by
//! zero or more auxiliary key/value headers and one designated key/value
//! header, each framed by a base-128 length delimiter.  Entries support
//! one-shot encoding, decoding, and a resumable, offset-addressable read
//! (`read_at`) that is proven byte-identical to the one-shot encoding.
//! The journal writer drives that resumable read into a bounded buffer,
//! appends a CRC-32 (Castagnoli) checksum per entry, and flushes the buffer
//! to an append-only sink.

pub mod builder;
pub mod entry;
pub mod error;
pub mod header;
pub mod journal;
pub mod util;
pub mod varint;

pub use builder::EntryBuilder;
pub use entry::decode;
pub use entry::Entry;
pub use error::Error;
pub use header::Header;
pub use journal::JournalWriterImpl;
pub use journal::VecSink;
pub use util::Attr;
pub use util::Magic;
