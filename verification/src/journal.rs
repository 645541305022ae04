//! The journal writer: batches entries into a bounded write buffer, appends
//! a CRC-32 (Castagnoli) checksum per entry, and flushes the buffer to an
//! append-only sink.
//!
//! Per-entry framing on the sink:
//! `varint(entry.binary_size()) entry_bytes crc32le(entry_bytes)` — the
//! checksum covers exactly the entry's encoded bytes, not the delimiter and
//! not itself.

use vstd::prelude::*;

use crate::entry::entry_fits;
use crate::entry::spec_entry_bytes;
use crate::entry::spec_entry_size;
use crate::entry::Entry;
use crate::entry::SpecEntry;
use crate::util::clip_n;
use crate::util::stream_stage_copy;
use crate::varint::encode_varint;
use crate::varint::spec_varint;
use crate::varint::varint_len;
use vstd::bytes::spec_u32_to_le_bytes;

verus! {

/// What can go wrong at the journal layer: only the sink can fail.
#[derive(Debug, PartialEq, Eq, Copy, Clone, Structural)]
pub enum Error {
    /// The underlying sink reported an I/O failure on write or sync.
    Io,
}

impl Error {
    /// A short description, for callers that need to report the error.
    pub fn message(&self) -> (r: &'static str)
        ensures
            true,
    {
        match self {
            Error::Io => "io error",
        }
    }
}

/// Sequence number and offset of a write, kept for journal consumers.
pub struct WriteInfo {
    pub seq: u64,
    pub offset: u64,
}

/// The append-only byte sink under a journal writer: a file or device
/// offering buffered appends and a durability barrier.  The ghost view
/// `received` is the sequence of bytes handed over so far; implementations
/// outside this crate answer for meeting these contracts.
pub trait Sink {
    /// The bytes this sink has accepted so far.  Verified implementations
    /// override this; the default stands for sinks outside the verifier's
    /// view, of which the writer's contracts then promise nothing.
    open spec fn received(&self) -> Seq<u8> {
        Seq::empty()
    }

    /// Whether this sink accepts every write and every durability barrier.
    /// A sink that can say so lets the writer promise success outright; the
    /// property is fixed for the sink's lifetime, and the default claims
    /// nothing.
    open spec fn never_fails(&self) -> bool {
        false
    }

    /// Appends `data[..len]` to the sink.  On failure the sink's state is
    /// unspecified: this layer does not roll back.
    fn write(&mut self, data: &Vec<u8>, len: usize) -> (r: Result<(), Error>)
        requires
            len <= data@.len(),
        ensures
            r is Ok ==> final(self).received() == old(self).received() + data@.take(len as int),
            old(self).never_fails() ==> r is Ok,
            final(self).never_fails() == old(self).never_fails(),
    ;

    /// Durability barrier: what was accepted stays accepted.
    fn sync_data(&mut self) -> (r: Result<(), Error>)
        ensures
            final(self).received() == old(self).received(),
            old(self).never_fails() ==> r is Ok,
            final(self).never_fails() == old(self).never_fails(),
    ;
}

/// An in-memory sink: accepts every write and keeps the bytes, so tests and
/// callers without a device can observe exactly what a journal writer emits.
pub struct VecSink {
    data: Vec<u8>,
}

impl VecSink {
    /// An empty sink.
    pub fn new() -> (r: VecSink)
        ensures
            r.received() == Seq::<u8>::empty(),
    {
        let r = VecSink { data: Vec::new() };
        proof {
            assert(r.received() =~= Seq::<u8>::empty());
        }
        r
    }

    /// The bytes received so far.
    pub fn data(&self) -> (r: &Vec<u8>)
        ensures
            r@ == self.received(),
    {
        &self.data
    }

    /// Takes the received bytes out.
    pub fn into_data(self) -> (r: Vec<u8>)
        ensures
            r@ == self.received(),
    {
        self.data
    }
}

impl Sink for VecSink {
    closed spec fn received(&self) -> Seq<u8> {
        self.data@
    }

    open spec fn never_fails(&self) -> bool {
        true
    }

    fn write(&mut self, data: &Vec<u8>, len: usize) -> (r: Result<(), Error>) {
        crate::util::append_bytes(
            &mut self.data,
            vstd::slice::slice_subrange(data.as_slice(), 0, len),
        );
        Ok(())
    }

    fn sync_data(&mut self) -> (r: Result<(), Error>) {
        Ok(())
    }
}

/// The CRC-32 checksum, Castagnoli/ISCSI polynomial, of a byte sequence — a
/// pure function of the bytes, computed by the `crc` crate and named here so
/// contracts can speak of it.
pub uninterp spec fn crc32c_of(s: Seq<u8>) -> u32;

/// Relies on `crc::Crc::<u32>::checksum` with the `CRC_32_ISCSI` algorithm:
/// the checksum depends on the input bytes and the algorithm's fixed
/// parameters alone.
#[verifier::external_body]
fn crc32c(data: &Vec<u8>) -> (r: u32)
    ensures
        r == crc32c_of(data@),
{
    crc::Crc::<u32>::new(&crc::CRC_32_ISCSI).checksum(data.as_slice())
}

/// An entry as the journal writes it to the sink: a delimiter of the entry's
/// size, the entry's bytes, then their checksum in four little-endian bytes.
pub open spec fn spec_framed_entry_bytes(e: SpecEntry) -> Seq<u8> {
    spec_varint(spec_entry_size(e)) + spec_entry_bytes(e) + spec_u32_to_le_bytes(
        crc32c_of(spec_entry_bytes(e)),
    )
}

/// The byte size of the framed form.
pub open spec fn spec_framed_entry_size(e: SpecEntry) -> nat {
    spec_framed_entry_bytes(e).len()
}

/// Whether the framed form fits the machine's size type.
pub open spec fn frame_fits(e: SpecEntry) -> bool {
    spec_framed_entry_size(e) <= usize::MAX
}

/// The framed form fits whenever the entry's own size leaves room for the
/// ten delimiter bytes and the four checksum bytes; callers discharge
/// `frame_fits` from a plain size bound with this.
pub proof fn lemma_small_entry_frame_fits(e: SpecEntry)
    requires
        spec_entry_size(e) + 14 <= usize::MAX,
    ensures
        frame_fits(e),
{
    crate::varint::lemma_varint_len_le_10(spec_entry_size(e));
    vstd::bytes::lemma_auto_spec_u32_to_from_le_bytes();
}

/// An entry whose framed form fits is itself representable.
pub proof fn lemma_frame_fits_entry_fits(e: SpecEntry)
    requires
        frame_fits(e),
    ensures
        entry_fits(e),
{
    vstd::bytes::lemma_auto_spec_u32_to_from_le_bytes();
}

/// Checksum determinism: entries with the same encoded bytes frame to the
/// same delimiter, payload, and checksum.  That a change of any payload byte
/// changes the checksum is a property of the CRC algorithm itself and is
/// exercised by tests, not stated here.
pub proof fn lemma_checksum_deterministic(a: SpecEntry, b: SpecEntry)
    requires
        spec_entry_bytes(a) == spec_entry_bytes(b),
    ensures
        crc32c_of(spec_entry_bytes(a)) == crc32c_of(spec_entry_bytes(b)),
        spec_framed_entry_bytes(a) == spec_framed_entry_bytes(b),
{
}

/// Pairs one entry with its finalized checksum for the duration of a single
/// append, and exposes the same offset-addressable read as the entry itself,
/// extended over the framed form.
pub struct JournalEntryContext {
    entry: Entry,
    checksum: Vec<u8>,
}

impl JournalEntryContext {
    /// The entry being written.
    pub closed spec fn entry_view(&self) -> SpecEntry {
        self.entry@
    }

    /// The context's invariant: the checksum field holds the little-endian
    /// CRC-32 (Castagnoli) of the entry's encoded bytes, and the framed form
    /// is representable.
    pub closed spec fn wf(&self) -> bool {
        &&& self.checksum@ == spec_u32_to_le_bytes(crc32c_of(spec_entry_bytes(self.entry@)))
        &&& frame_fits(self.entry@)
    }

    /// Wraps an entry, computing its checksum once over its fully serialized
    /// form, so that checksum integrity does not depend on how later reads
    /// are chunked.
    pub fn new(entry: Entry) -> (r: JournalEntryContext)
        requires
            frame_fits(entry@),
        ensures
            r.wf(),
            r.entry_view() == entry@,
    {
        proof {
            lemma_frame_fits_entry_fits(entry@);
        }
        let mut bytes: Vec<u8> = Vec::new();
        entry.encode(&mut bytes);
        assert(bytes@ =~= spec_entry_bytes(entry@));
        let checksum = vstd::bytes::u32_to_le_bytes(crc32c(&bytes));
        JournalEntryContext { entry, checksum }
    }

    /// The size of the framed form: delimiter, entry bytes, checksum.
    pub fn binary_size(&self) -> (r: usize)
        requires
            self.wf(),
        ensures
            r == spec_framed_entry_size(self.entry_view()),
    {
        proof {
            lemma_frame_fits_entry_fits(self.entry_view());
            vstd::bytes::lemma_auto_spec_u32_to_from_le_bytes();
        }
        let esize = self.entry.binary_size();
        let dlen = varint_len(esize);
        dlen + esize + 4
    }

    /// Resumable read over the framed form, into the front of `buf`.
    pub fn read_at(&self, buf: &mut Vec<u8>, offset: usize) -> (n: usize)
        requires
            self.wf(),
        ensures
            final(buf)@.len() == old(buf)@.len(),
            n == clip_n(
                spec_framed_entry_size(self.entry_view()) as int,
                offset as int,
                old(buf)@.len() as int,
            ),
            offset <= spec_framed_entry_size(self.entry_view()) ==> final(buf)@
                == spec_framed_entry_bytes(self.entry_view()).subrange(offset as int, offset + n)
                + old(buf)@.skip(n as int),
            offset > spec_framed_entry_size(self.entry_view()) ==> final(buf)@ == old(buf)@,
    {
        let n = self.read_at_into(buf, 0, offset);
        proof {
            if offset <= spec_framed_entry_size(self.entry_view()) {
                assert(old(buf)@.take(0) =~= Seq::<u8>::empty());
                assert(buf@ =~= spec_framed_entry_bytes(self.entry_view()).subrange(
                    offset as int,
                    offset + n,
                ) + old(buf)@.skip(n as int));
            }
        }
        n
    }

    /// Resumable read over the framed form into the window `buf[pos..]`.
    pub(crate) fn read_at_into(&self, buf: &mut Vec<u8>, pos: usize, offset: usize) -> (n: usize)
        requires
            self.wf(),
            pos <= old(buf)@.len(),
        ensures
            final(buf)@.len() == old(buf)@.len(),
            n == clip_n(
                spec_framed_entry_size(self.entry_view()) as int,
                offset as int,
                old(buf)@.len() - pos,
            ),
            pos + n <= old(buf)@.len(),
            offset <= spec_framed_entry_size(self.entry_view()) ==> final(buf)@ == old(
                buf,
            )@.take(pos as int) + spec_framed_entry_bytes(self.entry_view()).subrange(
                offset as int,
                offset + n,
            ) + old(buf)@.skip(pos + n),
            offset > spec_framed_entry_size(self.entry_view()) ==> final(buf)@ == old(buf)@,
    {
        let ghost whole = spec_framed_entry_bytes(self.entry_view());
        let ghost buf0 = old(buf)@;
        let blen = buf.len();
        proof {
            lemma_frame_fits_entry_fits(self.entry_view());
            vstd::bytes::lemma_auto_spec_u32_to_from_le_bytes();
            if offset <= whole.len() {
                assert(buf0 =~= buf0.take(pos as int) + whole.subrange(
                    offset as int,
                    offset as int,
                ) + buf0.skip(pos as int));
            }
        }
        let esize = self.entry.binary_size();
        let dlen = varint_len(esize);
        let mut delim: Vec<u8> = Vec::new();
        encode_varint(esize, &mut delim);
        proof {
            assert(whole.subrange(0, dlen as int) =~= delim@);
            assert(whole.subrange(dlen as int, dlen + esize) =~= spec_entry_bytes(
                self.entry_view(),
            ));
            assert(whole.subrange(dlen + esize, whole.len() as int) =~= self.checksum@);
            assert(dlen + esize + 4 == whole.len());
        }
        let (mut n, mut off) = stream_stage_copy(
            delim.as_slice(),
            buf,
            pos,
            0,
            offset,
            Ghost(whole),
            Ghost(0),
            Ghost(offset as int),
            Ghost(buf0),
        );
        if pos + n == blen {
            proof {
                crate::header::lemma_full_window_read(
                    whole.len() as int,
                    dlen as int,
                    offset as int,
                    blen - pos,
                );
            }
            return n;
        }
        let (n2, off2) = self.entry.read_stage(
            buf,
            pos,
            n,
            off,
            Ghost(whole),
            Ghost(dlen as int),
            Ghost(offset as int),
            Ghost(buf0),
        );
        n = n2;
        off = off2;
        if pos + n == blen {
            proof {
                crate::header::lemma_full_window_read(
                    whole.len() as int,
                    dlen + esize,
                    offset as int,
                    blen - pos,
                );
            }
            return n;
        }
        let (n3, _) = stream_stage_copy(
            self.checksum.as_slice(),
            buf,
            pos,
            n,
            off,
            Ghost(whole),
            Ghost(dlen + esize),
            Ghost(offset as int),
            Ghost(buf0),
        );
        n3
    }
}

/// Future consumers read the journal back entry by entry.
pub trait JournalReader {
    /// The next entry of the journal.
    fn next(&mut self) -> Result<Entry, Error>;
}

/// Owns a bounded write buffer and the append-only sink; drives each entry's
/// framed form into the buffer, flushing to the sink whenever the buffer
/// fills, so peak memory stays bounded by the buffer capacity whatever the
/// entry size.
pub struct JournalWriterImpl<S: Sink> {
    sink: S,
    buffer: Vec<u8>,
    cursor: usize,
    size: usize,
}

impl<S: Sink> JournalWriterImpl<S> {
    /// The writer's invariant: the cursor stays inside the buffer and the
    /// buffer has room for at least one byte.
    pub closed spec fn wf(&self) -> bool {
        &&& self.cursor <= self.buffer@.len()
        &&& self.buffer@.len() >= 1
    }

    /// The journal's logical byte stream: everything the sink has received
    /// followed by what still sits in the buffer.
    pub closed spec fn stream(&self) -> Seq<u8> {
        self.sink.received() + self.buffer@.take(self.cursor as int)
    }

    /// How many bytes still sit in the buffer, not yet flushed to the sink.
    pub closed spec fn buffered(&self) -> nat {
        self.cursor as nat
    }

    /// Lifetime count of bytes this writer has appended.
    pub closed spec fn spec_size(&self) -> nat {
        self.size as nat
    }

    /// The fixed capacity of the write buffer, set at construction.
    pub closed spec fn capacity(&self) -> nat {
        self.buffer@.len()
    }

    /// Whether the underlying sink accepts every write.
    pub closed spec fn sink_never_fails(&self) -> bool {
        self.sink.never_fails()
    }

    /// With an empty buffer the journal's stream lives wholly in the sink.
    pub proof fn lemma_drained_stream(&self)
        requires
            self.buffered() == 0,
        ensures
            self.sink_received() == self.stream(),
    {
        assert(self.stream() =~= self.sink.received());
    }

    /// A writer over `sink` with a reusable buffer of `capacity` bytes — the
    /// only place entry bytes are materialized before reaching the sink.
    pub fn new(sink: S, capacity: usize) -> (r: JournalWriterImpl<S>)
        requires
            capacity >= 1,
        ensures
            r.wf(),
            r.stream() == sink.received(),
            r.buffered() == 0,
            r.spec_size() == 0,
            r.capacity() == capacity,
            r.sink_never_fails() == sink.never_fails(),
    {
        let r = JournalWriterImpl { sink, buffer: vec![0u8; capacity], cursor: 0, size: 0 };
        proof {
            assert(r.stream() =~= r.sink.received());
        }
        r
    }

    /// Lifetime total of bytes appended: framed entry bytes, checksums
    /// included.
    pub fn size(&self) -> (r: usize)
        ensures
            r == self.spec_size(),
    {
        self.size
    }

    /// Appends one entry: its size delimiter, its bytes, and their checksum
    /// join the journal's stream, and the lifetime count grows by the framed
    /// size.  Success is owed whenever no sink call happens — the framed
    /// entry fits strictly inside the buffer's free room — and whenever the
    /// sink accepts every write.  Otherwise, on a sink failure the error is
    /// handed back unchanged and the journal's tail is left as the sink left
    /// it — some bytes flushed, some not — to be repaired at journal-open
    /// time; the lifetime count never decreases.
    pub fn append_entry(&mut self, entry: Entry) -> (r: Result<(), Error>)
        requires
            old(self).wf(),
            frame_fits(entry@),
            old(self).spec_size() + spec_framed_entry_size(entry@) <= usize::MAX,
        ensures
            final(self).wf(),
            final(self).capacity() == old(self).capacity(),
            final(self).sink_never_fails() == old(self).sink_never_fails(),
            final(self).spec_size() >= old(self).spec_size(),
            old(self).buffered() + spec_framed_entry_size(entry@) < old(self).capacity()
                ==> r is Ok,
            old(self).sink_never_fails() ==> r is Ok,
            r is Ok ==> final(self).stream() == old(self).stream() + spec_framed_entry_bytes(
                entry@,
            ),
            r is Ok ==> final(self).spec_size() == old(self).spec_size()
                + spec_framed_entry_size(entry@),
    {
        let ghost framed = spec_framed_entry_bytes(entry@);
        let ctx = JournalEntryContext::new(entry);
        let total = ctx.binary_size();
        let mut off: usize = 0;
        loop
            invariant
                self.wf(),
                ctx.wf(),
                ctx.entry_view() == entry@,
                framed == spec_framed_entry_bytes(entry@),
                total == spec_framed_entry_size(entry@),
                off <= total,
                old(self).spec_size() + total <= usize::MAX,
                self.capacity() == old(self).capacity(),
                self.sink_never_fails() == old(self).sink_never_fails(),
                old(self).buffered() + total < old(self).capacity() ==> self.buffered() == old(
                    self,
                ).buffered() + off,
                self.stream() == old(self).stream() + framed.take(off as int),
                self.spec_size() == old(self).spec_size() + off,
            decreases total - off,
        {
            if self.cursor == self.buffer.len() {
                proof {
                    assert(old(self).buffered() + total >= old(self).capacity());
                }
                match self.flush() {
                    Ok(()) => (),
                    Err(e) => {
                        return Err(e);
                    },
                }
            }
            let ghost stream_in = self.stream();
            let ghost cursor_in = self.cursor as int;
            let ghost bufin = self.buffer@;
            let ghost off_in = off as int;
            let k = ctx.read_at_into(&mut self.buffer, self.cursor, off);
            if k == 0 {
                proof {
                    assert(off == total);
                    assert(framed.take(off as int) =~= framed);
                }
                return Ok(());
            }
            self.cursor = self.cursor + k;
            self.size = self.size + k;
            off = off + k;
            proof {
                assert(self.buffer@.take(cursor_in + k) =~= bufin.take(cursor_in)
                    + framed.subrange(off_in, off_in + k));
                assert(framed.take(off_in) + framed.subrange(off_in, off_in + k) =~= framed.take(
                    off_in + k,
                ));
                assert(stream_in =~= old(self).stream() + framed.take(off_in));
                assert(self.sink.received() + self.buffer@.take(cursor_in + k) =~= stream_in
                    + framed.subrange(off_in, off_in + k));
                assert(self.stream() =~= old(self).stream() + framed.take(off as int));
            }
        }
    }

    /// Writes the buffered bytes to the sink and resets the cursor; the
    /// journal's stream is unchanged, it just lives wholly in the sink now.
    /// A sink failure is propagated unchanged and the buffer keeps its
    /// bytes.
    pub fn flush(&mut self) -> (r: Result<(), Error>)
        requires
            old(self).wf(),
        ensures
            final(self).wf(),
            final(self).spec_size() == old(self).spec_size(),
            final(self).capacity() == old(self).capacity(),
            final(self).sink_never_fails() == old(self).sink_never_fails(),
            old(self).sink_never_fails() ==> r is Ok,
            r is Ok ==> final(self).stream() == old(self).stream() && final(self).buffered() == 0
                && final(self).sink_received() == old(self).stream(),
            r is Err ==> final(self).buffered() == old(self).buffered() && final(self).spec_size()
                == old(self).spec_size(),
    {
        let ghost stream_in = self.stream();
        match self.sink.write(&self.buffer, self.cursor) {
            Ok(()) => {
                self.cursor = 0;
                proof {
                    assert(self.sink.received() =~= stream_in);
                    assert(self.stream() =~= stream_in);
                }
                Ok(())
            },
            Err(e) => Err(e),
        }
    }

    /// Forces the sink's durability barrier.  This does not flush the
    /// buffer: bytes still buffered are not covered until a flush empties
    /// the buffer.
    pub fn sync(&mut self) -> (r: Result<(), Error>)
        requires
            old(self).wf(),
        ensures
            final(self).wf(),
            final(self).stream() == old(self).stream(),
            final(self).sink_received() == old(self).sink_received(),
            final(self).buffered() == old(self).buffered(),
            final(self).spec_size() == old(self).spec_size(),
            final(self).capacity() == old(self).capacity(),
            final(self).sink_never_fails() == old(self).sink_never_fails(),
            old(self).sink_never_fails() ==> r is Ok,
    {
        match self.sink.sync_data() {
            Ok(()) => Ok(()),
            Err(e) => Err(e),
        }
    }

    /// Gives the sink back, consuming the writer; buffered bytes that were
    /// never flushed are dropped with the buffer.
    pub fn into_sink(self) -> (r: S)
        ensures
            r.received() == self.sink_received(),
            r.never_fails() == self.sink_never_fails(),
    {
        self.sink
    }

    /// What the sink alone has received (the stream minus buffered bytes).
    pub closed spec fn sink_received(&self) -> Seq<u8> {
        self.sink.received()
    }
}

} // verus!
