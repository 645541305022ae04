//! The versioned log record: a fixed 29-byte common header, zero or more
//! auxiliary headers, and one designated key/value header, each header framed
//! by a base-128 delimiter of its total size.
//!
//! Wire layout (all integers little-endian):
//! `magic(1) | attr(4) | log_id(8) | entry_id(8) | last_confirm_id(8)`
//! followed by `varint(size(h)) h` for each auxiliary header and finally
//! `varint(size(kv)) kv`.

use vstd::prelude::*;

use crate::error::Error;
use crate::header::header_fits;
use crate::header::spec_header_bytes;
use crate::header::spec_header_parse;
use crate::header::spec_header_size;
use crate::header::Header;
use crate::header::SpecHeader;
use crate::util::clip_n;
use crate::util::spec_magic_byte;
use crate::util::stream_stage_copy;
use crate::util::Attr;
use crate::util::Magic;
use crate::varint::decode_varint;
use crate::varint::encode_varint;
use crate::varint::spec_varint;
use crate::varint::spec_varint_parse;
use crate::varint::varint_len;
use vstd::bytes::spec_u32_from_le_bytes;
use vstd::bytes::spec_u32_to_le_bytes;
use vstd::bytes::spec_u64_from_le_bytes;
use vstd::bytes::spec_u64_to_le_bytes;

verus! {

/// Mathematical image of an entry.
#[verifier::ext_equal]
pub ghost struct SpecEntry {
    pub magic: Magic,
    pub attr: i32,
    pub log_id: i64,
    pub entry_id: i64,
    pub last_confirm_id: i64,
    pub headers: Seq<SpecHeader>,
    pub kv: SpecHeader,
}

/// One log record, immutable once constructed.
pub struct Entry {
    magic: Magic,
    attr: Attr,
    log_id: i64,
    entry_id: i64,
    last_confirm_id: i64,
    headers: Vec<Header>,
    kv: Header,
}

impl View for Entry {
    type V = SpecEntry;

    closed spec fn view(&self) -> SpecEntry {
        SpecEntry {
            magic: self.magic,
            attr: self.attr@,
            log_id: self.log_id,
            entry_id: self.entry_id,
            last_confirm_id: self.last_confirm_id,
            headers: Seq::new(self.headers@.len(), |i: int| self.headers@[i]@),
            kv: self.kv@,
        }
    }
}

/// The fixed 29-byte common header of the serialized form.
pub open spec fn spec_common_bytes(e: SpecEntry) -> Seq<u8> {
    seq![spec_magic_byte(e.magic)] + spec_u32_to_le_bytes(e.attr as u32) + spec_u64_to_le_bytes(
        e.log_id as u64,
    ) + spec_u64_to_le_bytes(e.entry_id as u64) + spec_u64_to_le_bytes(e.last_confirm_id as u64)
}

/// A header as it occurs inside an entry: its size delimiter, then its bytes.
pub open spec fn spec_framed_header_bytes(h: SpecHeader) -> Seq<u8> {
    spec_varint(spec_header_size(h)) + spec_header_bytes(h)
}

/// The concatenation of a run of framed headers.
pub open spec fn spec_headers_bytes(hs: Seq<SpecHeader>) -> Seq<u8>
    decreases hs.len(),
{
    if hs.len() == 0 {
        Seq::empty()
    } else {
        spec_framed_header_bytes(hs[0]) + spec_headers_bytes(hs.skip(1))
    }
}

/// The full serialized form of an entry: common header, auxiliary headers,
/// and the kv header last.
pub open spec fn spec_entry_bytes(e: SpecEntry) -> Seq<u8> {
    spec_common_bytes(e) + spec_headers_bytes(e.headers) + spec_framed_header_bytes(e.kv)
}

/// The byte size of the serialized form.
pub open spec fn spec_entry_size(e: SpecEntry) -> nat {
    spec_entry_bytes(e).len()
}

/// Whether the serialized form fits the machine's size type; every entry an
/// encoder or decoder can touch satisfies this, and the size-computing
/// operations assume it.
pub open spec fn entry_fits(e: SpecEntry) -> bool {
    spec_entry_size(e) <= usize::MAX
}

/// The common header is always 29 bytes.
pub proof fn lemma_common_bytes_len(e: SpecEntry)
    ensures
        spec_common_bytes(e).len() == 29,
{
    vstd::bytes::lemma_auto_spec_u32_to_from_le_bytes();
    vstd::bytes::lemma_auto_spec_u64_to_from_le_bytes();
}

/// Splits the run of framed headers around its `i`-th element.
pub proof fn lemma_headers_bytes_split(hs: Seq<SpecHeader>, i: int)
    requires
        0 <= i < hs.len(),
    ensures
        spec_headers_bytes(hs) == spec_headers_bytes(hs.take(i)) + spec_framed_header_bytes(
            hs[i],
        ) + spec_headers_bytes(hs.skip(i + 1)),
    decreases i,
{
    if i == 0 {
        assert(hs.take(0) =~= Seq::<SpecHeader>::empty());
        assert(hs.skip(1) =~= hs.skip(0int + 1));
        assert(spec_headers_bytes(hs) =~= spec_headers_bytes(hs.take(0))
            + spec_framed_header_bytes(hs[0]) + spec_headers_bytes(hs.skip(1)));
    } else {
        let tl = hs.skip(1);
        lemma_headers_bytes_split(tl, i - 1);
        assert(tl.take(i - 1) =~= hs.take(i).skip(1));
        assert(tl.skip(i) =~= hs.skip(i + 1));
        assert(tl[i - 1] == hs[i]);
        assert(hs.take(i)[0] == hs[0]);
        assert(spec_headers_bytes(hs.take(i)) == spec_framed_header_bytes(hs[0])
            + spec_headers_bytes(hs.take(i).skip(1)));
        assert(spec_headers_bytes(hs) =~= spec_headers_bytes(hs.take(i))
            + spec_framed_header_bytes(hs[i]) + spec_headers_bytes(hs.skip(i + 1)));
    }
}

/// Appending one header to a prefix extends its bytes by that header's
/// framed bytes.
pub proof fn lemma_headers_bytes_take_succ(hs: Seq<SpecHeader>, i: int)
    requires
        0 <= i < hs.len(),
    ensures
        spec_headers_bytes(hs.take(i + 1)) == spec_headers_bytes(hs.take(i))
            + spec_framed_header_bytes(hs[i]),
{
    lemma_headers_bytes_split(hs.take(i + 1), i);
    assert(hs.take(i + 1).take(i) =~= hs.take(i));
    assert(hs.take(i + 1).skip(i + 1) =~= Seq::<SpecHeader>::empty());
    assert(spec_headers_bytes(hs.take(i + 1)) =~= spec_headers_bytes(hs.take(i))
        + spec_framed_header_bytes(hs[i]));
}

/// A prefix of the header run never has more bytes than the whole run.
pub proof fn lemma_headers_bytes_take_le(hs: Seq<SpecHeader>, i: int)
    requires
        0 <= i <= hs.len(),
    ensures
        spec_headers_bytes(hs.take(i)).len() <= spec_headers_bytes(hs).len(),
    decreases hs.len() - i,
{
    if i == hs.len() {
        assert(hs.take(i) =~= hs);
    } else {
        lemma_headers_bytes_take_succ(hs, i);
        lemma_headers_bytes_take_le(hs, i + 1);
    }
}

/// In an entry that fits in memory, every header fits too, and the framed
/// pieces sit inside the entry's byte bound.
pub proof fn lemma_entry_parts_fit(e: SpecEntry)
    requires
        entry_fits(e),
    ensures
        header_fits(e.kv),
        forall|i: int|
            0 <= i < e.headers.len() ==> header_fits(#[trigger] e.headers[i])
                && spec_headers_bytes(e.headers.take(i)).len() + spec_framed_header_bytes(
                e.headers[i],
            ).len() <= spec_headers_bytes(e.headers).len(),
        spec_headers_bytes(e.headers).len() + spec_header_size(e.kv) <= spec_entry_size(e),
{
    assert forall|i: int| 0 <= i < e.headers.len() implies header_fits(#[trigger] e.headers[i])
        && spec_headers_bytes(e.headers.take(i)).len() + spec_framed_header_bytes(
        e.headers[i],
    ).len() <= spec_headers_bytes(e.headers).len() by {
        lemma_headers_bytes_take_succ(e.headers, i);
        lemma_headers_bytes_take_le(e.headers, i + 1);
    }
}

impl Entry {
    /// The format version of this entry.
    pub fn magic(&self) -> (r: Magic)
        ensures
            r == self@.magic,
    {
        self.magic
    }

    /// The record attribute tag.
    pub fn attr(&self) -> (r: Attr)
        ensures
            r@ == self@.attr,
    {
        self.attr
    }

    /// The log this record belongs to.
    pub fn log_id(&self) -> (r: i64)
        ensures
            r == self@.log_id,
    {
        self.log_id
    }

    /// The record's position in its log.
    pub fn entry_id(&self) -> (r: i64)
        ensures
            r == self@.entry_id,
    {
        self.entry_id
    }

    /// The last-add-confirmed identifier carried with the record.
    pub fn last_confirm_id(&self) -> (r: i64)
        ensures
            r == self@.last_confirm_id,
    {
        self.last_confirm_id
    }

    /// The last-add-confirmed identifier, under its short name.
    pub fn last_confirm(&self) -> (r: i64)
        ensures
            r == self@.last_confirm_id,
    {
        self.last_confirm_id
    }

    /// The key of the designated kv header.
    pub fn key(&self) -> (r: &Vec<u8>)
        ensures
            r@ == self@.kv.key,
    {
        self.kv.key()
    }

    /// The value of the designated kv header.
    pub fn value(&self) -> (r: &Vec<u8>)
        ensures
            r@ == self@.kv.value,
    {
        self.kv.value()
    }

    /// The auxiliary headers, in the order they were added.
    pub fn headers(&self) -> (r: &Vec<Header>)
        ensures
            r@.len() == self@.headers.len(),
            forall|i: int| 0 <= i < r@.len() ==> r@[i]@ == self@.headers[i],
    {
        &self.headers
    }

    /// Builds an entry from its parts; the only constructor.
    pub(crate) fn from_parts(
        attr: Attr,
        log_id: i64,
        entry_id: i64,
        last_confirm_id: i64,
        headers: Vec<Header>,
        kv: Header,
    ) -> (r: Entry)
        ensures
            r@.magic == Magic::V1,
            r@.attr == attr@,
            r@.log_id == log_id,
            r@.entry_id == entry_id,
            r@.last_confirm_id == last_confirm_id,
            r@.headers.len() == headers@.len(),
            forall|i: int| 0 <= i < headers@.len() ==> r@.headers[i] == headers@[i]@,
            r@.kv == kv@,
    {
        Entry { magic: Magic::V1, attr, log_id, entry_id, last_confirm_id, headers, kv }
    }

    /// The size of the serialized form: 29 common-header bytes plus, for
    /// each header including the kv one, its size delimiter and its bytes.
    pub fn binary_size(&self) -> (r: usize)
        requires
            entry_fits(self@),
        ensures
            r == spec_entry_size(self@),
    {
        proof {
            lemma_common_bytes_len(self@);
            lemma_entry_parts_fit(self@);
        }
        let ghost hs = self@.headers;
        let mut size: usize = 29;
        let mut i: usize = 0;
        while i < self.headers.len()
            invariant
                entry_fits(self@),
                hs == self@.headers,
                i <= self.headers@.len(),
                self.headers@.len() == hs.len(),
                forall|j: int| 0 <= j < hs.len() ==> self.headers@[j]@ == hs[j],
                size == 29 + spec_headers_bytes(hs.take(i as int)).len(),
                spec_common_bytes(self@).len() == 29,
                spec_headers_bytes(hs).len() + spec_header_size(self@.kv) + 29
                    <= spec_entry_size(self@),
                forall|j: int|
                    0 <= j < hs.len() ==> header_fits(#[trigger] hs[j]) && spec_headers_bytes(
                        hs.take(j),
                    ).len() + spec_framed_header_bytes(hs[j]).len() <= spec_headers_bytes(
                        hs,
                    ).len(),
            decreases self.headers@.len() - i,
        {
            let h = &self.headers[i];
            assert(h@ == hs[i as int]);
            let hsize = h.binary_size();
            let dlen = varint_len(hsize);
            proof {
                lemma_headers_bytes_take_succ(hs, i as int);
            }
            size = size + dlen + hsize;
            i += 1;
        }
        assert(hs.take(hs.len() as int) =~= hs);
        let kv_size = self.kv.binary_size();
        let kv_dlen = varint_len(kv_size);
        size + kv_dlen + kv_size
    }

    /// The serialized size; the estimate this layer gives is exact.
    pub fn estimate_size(&self) -> (r: usize)
        requires
            entry_fits(self@),
        ensures
            r == spec_entry_size(self@),
    {
        self.binary_size()
    }

    /// The 29 common-header bytes, materialized.
    fn common_vec(&self) -> (r: Vec<u8>)
        ensures
            r@ == spec_common_bytes(self@),
            r@.len() == 29,
    {
        proof {
            lemma_common_bytes_len(self@);
        }
        let mut v: Vec<u8> = Vec::new();
        v.push(self.magic.to_u8());
        let attr_bytes = vstd::bytes::u32_to_le_bytes(
            #[verifier::truncate]
            (self.attr.value() as u32),
        );
        crate::util::append_bytes(&mut v, attr_bytes.as_slice());
        let log_id_bytes = vstd::bytes::u64_to_le_bytes(
            #[verifier::truncate]
            (self.log_id as u64),
        );
        crate::util::append_bytes(&mut v, log_id_bytes.as_slice());
        let entry_id_bytes = vstd::bytes::u64_to_le_bytes(
            #[verifier::truncate]
            (self.entry_id as u64),
        );
        crate::util::append_bytes(&mut v, entry_id_bytes.as_slice());
        let lac_bytes = vstd::bytes::u64_to_le_bytes(
            #[verifier::truncate]
            (self.last_confirm_id as u64),
        );
        crate::util::append_bytes(&mut v, lac_bytes.as_slice());
        assert(v@ =~= spec_common_bytes(self@));
        v
    }

    /// Appends the full serialized form to `out`.
    pub fn encode(&self, out: &mut Vec<u8>)
        requires
            entry_fits(self@),
        ensures
            final(out)@ == old(out)@ + spec_entry_bytes(self@),
    {
        proof {
            lemma_entry_parts_fit(self@);
        }
        let ghost hs = self@.headers;
        let ghost out0 = out@;
        let common = self.common_vec();
        crate::util::append_bytes(out, common.as_slice());
        let mut i: usize = 0;
        while i < self.headers.len()
            invariant
                entry_fits(self@),
                hs == self@.headers,
                i <= self.headers@.len(),
                self.headers@.len() == hs.len(),
                forall|j: int| 0 <= j < hs.len() ==> self.headers@[j]@ == hs[j],
                out@ == out0 + spec_common_bytes(self@) + spec_headers_bytes(hs.take(i as int)),
                forall|j: int| 0 <= j < hs.len() ==> header_fits(#[trigger] hs[j]),
            decreases self.headers@.len() - i,
        {
            let h = &self.headers[i];
            assert(h@ == hs[i as int]);
            let hsize = h.binary_size();
            encode_varint(hsize, out);
            h.encode(out);
            proof {
                lemma_headers_bytes_take_succ(hs, i as int);
                assert(out@ =~= out0 + spec_common_bytes(self@) + spec_headers_bytes(
                    hs.take(i + 1),
                ));
            }
            i += 1;
        }
        assert(hs.take(hs.len() as int) =~= hs);
        let kv_size = self.kv.binary_size();
        encode_varint(kv_size, out);
        self.kv.encode(out);
        assert(out@ =~= out0 + spec_entry_bytes(self@));
    }
}


/// Parses the run of framed headers that fills `s` completely: each frame is
/// a size delimiter and exactly that many header bytes.
pub open spec fn spec_frames_parse(s: Seq<u8>) -> Result<Seq<SpecHeader>, Error>
    decreases s.len(),
{
    if s.len() == 0 {
        Ok(Seq::empty())
    } else {
        match spec_varint_parse(s) {
            None => Err(Error::Decode),
            Some(p) => if p.1 + p.0 > s.len() {
                Err(Error::DecodeBufNotEnough)
            } else {
                match spec_header_parse(s.subrange(p.1 as int, (p.1 + p.0) as int)) {
                    Err(e) => Err(e),
                    Ok(h) => match spec_frames_parse(s.skip((p.1 + p.0) as int)) {
                        Err(e) => Err(e),
                        Ok(rest) => Ok(seq![h] + rest),
                    },
                }
            },
        }
    }
}

/// What decoding an entry from `s` yields: the common header is read
/// verbatim, the rest of the buffer is parsed as framed headers, and the
/// last header becomes the kv header.  Each error names exactly the inputs
/// it comes from.
pub open spec fn spec_entry_parse(s: Seq<u8>) -> Result<SpecEntry, Error> {
    if s.len() < 1 {
        Err(Error::DecodeBufNotEnough)
    } else if s[0] != 0x01 {
        Err(Error::InvalidMagic)
    } else if s.len() < 29 {
        Err(Error::DecodeBufNotEnough)
    } else {
        match spec_frames_parse(s.skip(29)) {
            Err(e) => Err(e),
            Ok(frames) => if frames.len() == 0 {
                Err(Error::KVNotFound)
            } else {
                Ok(
                    SpecEntry {
                        magic: Magic::V1,
                        attr: spec_u32_from_le_bytes(s.subrange(1, 5)) as i32,
                        log_id: spec_u64_from_le_bytes(s.subrange(5, 13)) as i64,
                        entry_id: spec_u64_from_le_bytes(s.subrange(13, 21)) as i64,
                        last_confirm_id: spec_u64_from_le_bytes(s.subrange(21, 29)) as i64,
                        headers: frames.drop_last(),
                        kv: frames.last(),
                    },
                )
            },
        }
    }
}

/// A parsed base-128 value re-encodes into at most as many bytes as were
/// read: the canonical encoding is minimal.
proof fn lemma_leb_parse_minimal(s: Seq<u8>, fuel: nat)
    ensures
        crate::varint::spec_leb_parse(s, fuel) is Some ==> {
            let p = crate::varint::spec_leb_parse(s, fuel)->Some_0;
            spec_varint(p.0).len() <= p.1
        },
    decreases fuel,
{
    if fuel > 0 && s.len() > 0 && s[0] >= 0x80 {
        lemma_leb_parse_minimal(s.skip(1), (fuel - 1) as nat);
        if crate::varint::spec_leb_parse(s.skip(1), (fuel - 1) as nat) is Some {
            let q = crate::varint::spec_leb_parse(s.skip(1), (fuel - 1) as nat)->Some_0;
            let v = ((s[0] - 0x80) as nat) + 0x80 * q.0;
            assert(v / 0x80 == q.0 && v % 0x80 == (s[0] - 0x80) as nat) by (nonlinear_arith)
                requires
                    v == ((s[0] - 0x80) as nat) + 0x80 * q.0,
                    ((s[0] - 0x80) as nat) < 0x80,
            ;
            if v >= 0x80 {
                assert(spec_varint(v).len() == 1 + spec_varint(v / 0x80).len());
            }
        }
    }
}

/// A shorter value never has a longer canonical delimiter.
proof fn lemma_varint_len_mono(m: nat, n: nat)
    requires
        m <= n,
    ensures
        spec_varint(m).len() <= spec_varint(n).len(),
    decreases n,
{
    if m >= 0x80 {
        vstd::arithmetic::div_mod::lemma_div_is_ordered(m as int, n as int, 0x80);
        assert(m / 0x80 < m) by (nonlinear_arith)
            requires
                m >= 0x80,
        ;
        lemma_varint_len_mono(m / 0x80, n / 0x80);
        assert(spec_varint(n).len() == 1 + spec_varint(n / 0x80).len());
    }
}

/// A header parsed from a window re-encodes into at most the window's size.
proof fn lemma_header_parse_size(s: Seq<u8>)
    ensures
        spec_header_parse(s) is Ok ==> spec_header_size(spec_header_parse(s)->Ok_0) <= s.len(),
{
    if spec_header_parse(s) is Ok {
        let p = spec_varint_parse(s)->Some_0;
        lemma_leb_parse_minimal(s, 10);
        lemma_varint_len_mono(p.0, p.0);
        let h = spec_header_parse(s)->Ok_0;
        assert(h.key.len() == p.0);
        assert(spec_varint(p.0).len() <= p.1);
    }
}

/// A run of headers parsed from `s` re-encodes into at most `s.len()` bytes.
proof fn lemma_frames_parse_size(s: Seq<u8>)
    ensures
        spec_frames_parse(s) is Ok ==> spec_headers_bytes(spec_frames_parse(s)->Ok_0).len()
            <= s.len(),
    decreases s.len(),
{
    if s.len() > 0 && spec_frames_parse(s) is Ok {
        let p = spec_varint_parse(s)->Some_0;
        crate::varint::lemma_leb_parse_bounds(s, 10);
        lemma_leb_parse_minimal(s, 10);
        let window = s.subrange(p.1 as int, (p.1 + p.0) as int);
        let h = spec_header_parse(window)->Ok_0;
        lemma_header_parse_size(window);
        lemma_varint_len_mono(spec_header_size(h), p.0);
        let tail = s.skip((p.1 + p.0) as int);
        lemma_frames_parse_size(tail);
        let rest = spec_frames_parse(tail)->Ok_0;
        assert((seq![h] + rest).skip(1) =~= rest);
        assert(spec_headers_bytes(seq![h] + rest) == spec_framed_header_bytes(h)
            + spec_headers_bytes(rest));
    }
}

/// An entry parsed from a buffer that fits in memory also fits in memory.
pub proof fn lemma_parsed_entry_fits(s: Seq<u8>)
    requires
        s.len() <= usize::MAX,
    ensures
        spec_entry_parse(s) is Ok ==> entry_fits(spec_entry_parse(s)->Ok_0)
            && spec_entry_size(spec_entry_parse(s)->Ok_0) <= s.len(),
{
    if spec_entry_parse(s) is Ok {
        let e = spec_entry_parse(s)->Ok_0;
        let frames = spec_frames_parse(s.skip(29))->Ok_0;
        lemma_frames_parse_size(s.skip(29));
        lemma_common_bytes_len(e);
        lemma_headers_bytes_split(frames, frames.len() - 1);
        assert(frames.take(frames.len() - 1) =~= e.headers);
        assert(frames.skip(frames.len() as int - 1 + 1) =~= Seq::<SpecHeader>::empty());
        assert(spec_headers_bytes(frames) =~= spec_headers_bytes(e.headers)
            + spec_framed_header_bytes(e.kv));
    }
}

/// Decoding rejects a bad magic byte at once: nothing past the first byte is
/// interpreted.
pub proof fn lemma_decode_rejects_bad_magic(s: Seq<u8>)
    requires
        s.len() >= 1,
        s[0] != 0x01,
    ensures
        spec_entry_parse(s) == Err::<SpecEntry, Error>(Error::InvalidMagic),
{
}

/// Decoding a common-header-only buffer fails for want of a kv header.
pub proof fn lemma_decode_rejects_headerless(s: Seq<u8>)
    requires
        s.len() == 29,
        s[0] == 0x01,
    ensures
        spec_entry_parse(s) == Err::<SpecEntry, Error>(Error::KVNotFound),
{
    assert(s.skip(29) =~= Seq::<u8>::empty());
}

/// Round trip of the framed-header run: parsing what a run of headers
/// followed by the kv header encodes to gives back exactly those headers.
proof fn lemma_frames_round_trip(hs: Seq<SpecHeader>, kv: SpecHeader)
    requires
        forall|i: int| 0 <= i < hs.len() ==> header_fits(#[trigger] hs[i]),
        header_fits(kv),
    ensures
        spec_frames_parse(spec_headers_bytes(hs) + spec_framed_header_bytes(kv)) == Ok::<
            Seq<SpecHeader>,
            Error,
        >(hs + seq![kv]),
    decreases hs.len(),
{
    if hs.len() == 0 {
        let s = spec_headers_bytes(hs) + spec_framed_header_bytes(kv);
        let hsize = spec_header_size(kv);
        assert(s =~= spec_varint(hsize) + spec_header_bytes(kv));
        crate::varint::lemma_varint_round_trip(hsize, spec_header_bytes(kv));
        let p = spec_varint_parse(s)->Some_0;
        assert(p.0 == hsize && p.1 == spec_varint(hsize).len());
        assert(s.subrange(p.1 as int, (p.1 + p.0) as int) =~= spec_header_bytes(kv));
        crate::header::lemma_header_round_trip(kv);
        assert(s.skip((p.1 + p.0) as int) =~= Seq::<u8>::empty());
        assert(spec_frames_parse(Seq::<u8>::empty()) == Ok::<Seq<SpecHeader>, Error>(
            Seq::empty(),
        ));
        assert(spec_frames_parse(s) == Ok::<Seq<SpecHeader>, Error>(
            seq![kv] + Seq::<SpecHeader>::empty(),
        ));
        assert(seq![kv] + Seq::<SpecHeader>::empty() =~= hs + seq![kv]);
    } else {
        let h0 = hs[0];
        let rest_bytes = spec_headers_bytes(hs.skip(1)) + spec_framed_header_bytes(kv);
        let s = spec_headers_bytes(hs) + spec_framed_header_bytes(kv);
        let hsize = spec_header_size(h0);
        assert(s =~= spec_varint(hsize) + (spec_header_bytes(h0) + rest_bytes));
        crate::varint::lemma_varint_round_trip(hsize, spec_header_bytes(h0) + rest_bytes);
        let p = spec_varint_parse(s)->Some_0;
        assert(p.0 == hsize && p.1 == spec_varint(hsize).len());
        assert(s.subrange(p.1 as int, (p.1 + p.0) as int) =~= spec_header_bytes(h0));
        crate::header::lemma_header_round_trip(h0);
        assert(s.skip((p.1 + p.0) as int) =~= rest_bytes);
        assert(forall|i: int|
            0 <= i < hs.skip(1).len() ==> header_fits(#[trigger] hs.skip(1)[i]));
        lemma_frames_round_trip(hs.skip(1), kv);
        assert(spec_frames_parse(s)->Ok_0 =~= hs + seq![kv]);
    }
}

/// Entry round trip: decoding what any representable entry encodes to gives
/// back an entry with identical magic, attribute, ids, headers, and kv pair.
pub proof fn lemma_entry_round_trip(e: SpecEntry)
    requires
        entry_fits(e),
    ensures
        spec_entry_parse(spec_entry_bytes(e)) == Ok::<SpecEntry, Error>(e),
{
    let s = spec_entry_bytes(e);
    let cb = spec_common_bytes(e);
    lemma_common_bytes_len(e);
    lemma_entry_parts_fit(e);
    vstd::bytes::lemma_auto_spec_u32_to_from_le_bytes();
    vstd::bytes::lemma_auto_spec_u64_to_from_le_bytes();
    assert(s[0] == spec_magic_byte(e.magic));
    assert(s.subrange(1, 5) =~= spec_u32_to_le_bytes(e.attr as u32));
    assert(s.subrange(5, 13) =~= spec_u64_to_le_bytes(e.log_id as u64));
    assert(s.subrange(13, 21) =~= spec_u64_to_le_bytes(e.entry_id as u64));
    assert(s.subrange(21, 29) =~= spec_u64_to_le_bytes(e.last_confirm_id as u64));
    let a = e.attr;
    assert(((a as u32) as i32) == a) by (bit_vector);
    let l = e.log_id;
    assert(((l as u64) as i64) == l) by (bit_vector);
    let ei = e.entry_id;
    assert(((ei as u64) as i64) == ei) by (bit_vector);
    let lc = e.last_confirm_id;
    assert(((lc as u64) as i64) == lc) by (bit_vector);
    assert(s.skip(29) =~= spec_headers_bytes(e.headers) + spec_framed_header_bytes(e.kv));
    lemma_frames_round_trip(e.headers, e.kv);
    let frames = e.headers + seq![e.kv];
    assert(frames.len() > 0);
    assert(frames.drop_last() =~= e.headers);
    assert(frames.last() == e.kv);
    assert(spec_entry_parse(s)->Ok_0 =~~= e);
}

/// Encoding and size agree by construction: the byte sequence the encode
/// contract promises has exactly the length the size contract promises.
pub proof fn lemma_size_consistency(e: SpecEntry)
    ensures
        spec_entry_bytes(e).len() == spec_entry_size(e),
{
}


impl Entry {
    /// Decodes an entry from a buffer holding exactly one serialized entry:
    /// the version byte, the remaining 28 common-header bytes, then framed
    /// headers until the buffer ends, the last of which is the kv header.
    pub fn decode(buf: &Vec<u8>) -> (r: Result<Entry, Error>)
        ensures
            match spec_entry_parse(buf@) {
                Ok(se) => r is Ok && r->Ok_0@ == se && entry_fits(se),
                Err(e) => r == Err::<Entry, Error>(e),
            },
    {
        let blen = buf.len();
        proof {
            lemma_parsed_entry_fits(buf@);
        }
        if blen < 1 {
            return Err(Error::DecodeBufNotEnough);
        }
        let magic = match crate::util::Magic::from_u8(buf[0]) {
            Ok(m) => m,
            Err(e) => {
                return Err(e);
            },
        };
        if blen < 29 {
            return Err(Error::DecodeBufNotEnough);
        }
        let attr_word = vstd::bytes::u32_from_le_bytes(
            vstd::slice::slice_subrange(buf.as_slice(), 1, 5),
        );
        let attr: i32 = #[verifier::truncate] (attr_word as i32);
        let log_id_word = vstd::bytes::u64_from_le_bytes(
            vstd::slice::slice_subrange(buf.as_slice(), 5, 13),
        );
        let log_id: i64 = #[verifier::truncate] (log_id_word as i64);
        let entry_id_word = vstd::bytes::u64_from_le_bytes(
            vstd::slice::slice_subrange(buf.as_slice(), 13, 21),
        );
        let entry_id: i64 = #[verifier::truncate] (entry_id_word as i64);
        let lac_word = vstd::bytes::u64_from_le_bytes(
            vstd::slice::slice_subrange(buf.as_slice(), 21, 29),
        );
        let last_confirm_id: i64 = #[verifier::truncate] (lac_word as i64);

        let mut frames: Vec<Header> = Vec::new();
        let ghost mut fseq = Seq::<SpecHeader>::empty();
        let mut pos: usize = 29;
        while pos < blen
            invariant
                29 <= pos <= blen,
                blen == buf@.len(),
                buf@.len() >= 29,
                buf@[0] == 0x01,
                frames@.len() == fseq.len(),
                forall|j: int| 0 <= j < fseq.len() ==> frames@[j]@ == fseq[j],
                ({
                    let full = spec_frames_parse(buf@.skip(29));
                    match spec_frames_parse(buf@.skip(pos as int)) {
                        Ok(fr) => full == Ok::<Seq<SpecHeader>, Error>(fseq + fr),
                        Err(e) => full == Err::<Seq<SpecHeader>, Error>(e),
                    }
                }),
            decreases blen - pos,
        {
            let ghost tail = buf@.skip(pos as int);
            let (hsize, d) = match decode_varint(buf, pos) {
                Ok(p) => p,
                Err(e) => {
                    return Err(e);
                },
            };
            proof {
                crate::varint::lemma_leb_parse_bounds(tail, 10);
            }
            if hsize > blen - pos - d {
                return Err(Error::DecodeBufNotEnough);
            }
            let window = vstd::slice::slice_to_vec(
                vstd::slice::slice_subrange(buf.as_slice(), pos + d, pos + d + hsize),
            );
            proof {
                assert(window@ =~= tail.subrange(d as int, d + hsize));
            }
            let h = match Header::decode(&window) {
                Ok(h) => h,
                Err(e) => {
                    return Err(e);
                },
            };
            frames.push(h);
            proof {
                let fold = fseq;
                fseq = fseq + seq![h@];
                assert(buf@.skip(pos + d + hsize) =~= tail.skip(d + hsize));
                let rest = spec_frames_parse(tail.skip(d + hsize));
                assert(spec_frames_parse(tail) == match rest {
                    Err(e) => Err::<Seq<SpecHeader>, Error>(e),
                    Ok(r) => Ok::<Seq<SpecHeader>, Error>(seq![h@] + r),
                });
                if rest is Ok {
                    assert(fold + (seq![h@] + rest->Ok_0) =~= fseq + rest->Ok_0);
                }
            }
            pos = pos + d + hsize;
        }
        proof {
            assert(buf@.skip(pos as int) =~= Seq::<u8>::empty());
            assert(spec_frames_parse(buf@.skip(pos as int)) == Ok::<Seq<SpecHeader>, Error>(
                Seq::empty(),
            ));
            assert(fseq + Seq::<SpecHeader>::empty() =~= fseq);
        }
        let kv = match frames.pop() {
            Some(h) => h,
            None => {
                return Err(Error::KVNotFound);
            },
        };
        let entry = Entry { magic, attr: Attr::new(attr), log_id, entry_id, last_confirm_id, headers: frames, kv };
        proof {
            let se = spec_entry_parse(buf@)->Ok_0;
            assert(buf@.subrange(1, 5) =~= buf@.skip(0).subrange(1, 5));
            assert(entry@.headers =~= se.headers);
            assert(entry@ =~~= se);
        }
        Ok(entry)
    }
}

/// Decodes an entry, dispatching on the version byte; for now `V1` is the
/// only version.
pub fn decode(buf: &Vec<u8>) -> (r: Result<Entry, Error>)
    ensures
        match spec_entry_parse(buf@) {
            Ok(se) => r is Ok && r->Ok_0@ == se && entry_fits(se),
            Err(e) => r == Err::<Entry, Error>(e),
        },
{
    Entry::decode(buf)
}


impl Entry {
    /// Resumable read: copies bytes `offset..offset + n` of the serialized
    /// form into the front of `buf`, where `n` is as much as the buffer and
    /// the remaining bytes allow; `n == 0` signals that `offset` is at or
    /// past the end.  Splitting the serialized form into consecutive calls of
    /// any step sizes yields exactly the one-shot encoding.
    pub fn read_at(&self, buf: &mut Vec<u8>, offset: usize) -> (n: usize)
        requires
            entry_fits(self@),
        ensures
            final(buf)@.len() == old(buf)@.len(),
            n == clip_n(spec_entry_size(self@) as int, offset as int, old(buf)@.len() as int),
            offset <= spec_entry_size(self@) ==> final(buf)@ == spec_entry_bytes(self@).subrange(
                offset as int,
                offset + n,
            ) + old(buf)@.skip(n as int),
            offset > spec_entry_size(self@) ==> final(buf)@ == old(buf)@,
    {
        let n = self.read_at_into(buf, 0, offset);
        proof {
            if offset <= spec_entry_size(self@) {
                assert(old(buf)@.take(0) =~= Seq::<u8>::empty());
                assert(buf@ =~= spec_entry_bytes(self@).subrange(offset as int, offset + n)
                    + old(buf)@.skip(n as int));
            }
        }
        n
    }

    /// Resumable read into the window `buf[pos..]`; the part of `buf` before
    /// `pos` is kept.  Tracks which region `offset` falls into — common
    /// header, each framed auxiliary header, then the framed kv header — by
    /// running subtraction across the stages.
    pub(crate) fn read_at_into(&self, buf: &mut Vec<u8>, pos: usize, offset: usize) -> (n: usize)
        requires
            entry_fits(self@),
            pos <= old(buf)@.len(),
        ensures
            final(buf)@.len() == old(buf)@.len(),
            n == clip_n(spec_entry_size(self@) as int, offset as int, old(buf)@.len() - pos),
            pos + n <= old(buf)@.len(),
            offset <= spec_entry_size(self@) ==> final(buf)@ == old(buf)@.take(pos as int)
                + spec_entry_bytes(self@).subrange(offset as int, offset + n) + old(buf)@.skip(
                pos + n,
            ),
            offset > spec_entry_size(self@) ==> final(buf)@ == old(buf)@,
    {
        let ghost whole = spec_entry_bytes(self@);
        let ghost hs = self@.headers;
        let ghost buf0 = old(buf)@;
        let blen = buf.len();
        proof {
            lemma_common_bytes_len(self@);
            lemma_entry_parts_fit(self@);
            if offset <= whole.len() {
                assert(buf0 =~= buf0.take(pos as int) + whole.subrange(
                    offset as int,
                    offset as int,
                ) + buf0.skip(pos as int));
            }
        }
        let common = self.common_vec();
        proof {
            assert(whole.subrange(0, 29) =~= common@);
        }
        let (mut n, mut off) = stream_stage_copy(
            common.as_slice(),
            buf,
            pos,
            0,
            offset,
            Ghost(whole),
            Ghost(0),
            Ghost(offset as int),
            Ghost(buf0),
        );
        if pos + n == blen {
            proof {
                crate::header::lemma_full_window_read(
                    whole.len() as int,
                    29,
                    offset as int,
                    blen - pos,
                );
            }
            return n;
        }
        let ghost mut done: int = 29;
        let mut i: usize = 0;
        while i < self.headers.len()
            invariant
                entry_fits(self@),
                whole == spec_entry_bytes(self@),
                hs == self@.headers,
                self.headers@.len() == hs.len(),
                forall|j: int| 0 <= j < hs.len() ==> self.headers@[j]@ == hs[j],
                i <= hs.len(),
                blen == buf@.len(),
                buf0 == old(buf)@,
                buf0.len() == blen,
                pos <= blen,
                pos + n < blen,
                done == 29 + spec_headers_bytes(hs.take(i as int)).len(),
                n == clip_n(done, offset as int, blen - pos),
                off == if offset as int >= done {
                    offset - done
                } else {
                    0
                },
                offset as int <= whole.len() ==> buf@ == buf0.take(pos as int) + whole.subrange(
                    offset as int,
                    offset + n,
                ) + buf0.skip(pos + n),
                offset as int > whole.len() ==> buf@ == buf0,
            decreases hs.len() - i,
        {
            let h = &self.headers[i];
            assert(h@ == hs[i as int]);
            proof {
                lemma_common_bytes_len(self@);
                lemma_entry_parts_fit(self@);
                lemma_headers_bytes_split(hs, i as int);
            }
            let hsize = h.binary_size();
            let dlen = varint_len(hsize);
            let mut delim: Vec<u8> = Vec::new();
            encode_varint(hsize, &mut delim);
            proof {
                assert(whole =~= spec_common_bytes(self@) + (spec_headers_bytes(hs.take(i as int))
                    + spec_framed_header_bytes(hs[i as int]) + spec_headers_bytes(
                    hs.skip(i + 1),
                )) + spec_framed_header_bytes(self@.kv));
                assert(whole.subrange(done, done + dlen) =~= delim@);
                assert(whole.subrange(done + dlen, done + dlen + hsize) =~= spec_header_bytes(
                    hs[i as int],
                ));
            }
            let (n1, off1) = stream_stage_copy(
                delim.as_slice(),
                buf,
                pos,
                n,
                off,
                Ghost(whole),
                Ghost(done),
                Ghost(offset as int),
                Ghost(buf0),
            );
            n = n1;
            off = off1;
            if pos + n == blen {
                proof {
                    crate::header::lemma_full_window_read(
                        whole.len() as int,
                        done + dlen,
                        offset as int,
                        blen - pos,
                    );
                }
                return n;
            }
            let (n2, off2) = h.read_stage(
                buf,
                pos,
                n,
                off,
                Ghost(whole),
                Ghost(done + dlen),
                Ghost(offset as int),
                Ghost(buf0),
            );
            n = n2;
            off = off2;
            if pos + n == blen {
                proof {
                    crate::header::lemma_full_window_read(
                        whole.len() as int,
                        done + dlen + hsize,
                        offset as int,
                        blen - pos,
                    );
                }
                return n;
            }
            proof {
                lemma_headers_bytes_take_succ(hs, i as int);
                done = done + dlen + hsize;
            }
            i += 1;
        }
        proof {
            assert(hs.take(hs.len() as int) =~= hs);
            lemma_entry_parts_fit(self@);
        }
        let kv_size = self.kv.binary_size();
        let kv_dlen = varint_len(kv_size);
        let mut kv_delim: Vec<u8> = Vec::new();
        encode_varint(kv_size, &mut kv_delim);
        proof {
            assert(whole.subrange(done, done + kv_dlen) =~= kv_delim@);
            assert(whole.subrange(done + kv_dlen, done + kv_dlen + kv_size)
                =~= spec_header_bytes(self@.kv));
            assert(done + kv_dlen + kv_size == whole.len());
        }
        let (n3, off3) = stream_stage_copy(
            kv_delim.as_slice(),
            buf,
            pos,
            n,
            off,
            Ghost(whole),
            Ghost(done),
            Ghost(offset as int),
            Ghost(buf0),
        );
        n = n3;
        off = off3;
        if pos + n == blen {
            proof {
                crate::header::lemma_full_window_read(
                    whole.len() as int,
                    done + kv_dlen,
                    offset as int,
                    blen - pos,
                );
            }
            return n;
        }
        let (n4, _) = self.kv.read_stage(
            buf,
            pos,
            n,
            off,
            Ghost(whole),
            Ghost(done + kv_dlen),
            Ghost(offset as int),
            Ghost(buf0),
        );
        n4
    }
}


impl Entry {
    /// One stage of an enclosing multi-stage read: this entry's serialized
    /// bytes start at position `done` of the logical stream `whole`; `n`
    /// bytes are already written to `buf[pos..]` and `off` is the
    /// stage-relative resume offset.  Copies this entry's share into the
    /// window and returns the advanced pair `(n, off)`.
    pub(crate) fn read_stage(
        &self,
        buf: &mut Vec<u8>,
        pos: usize,
        n: usize,
        off: usize,
        Ghost(whole): Ghost<Seq<u8>>,
        Ghost(done): Ghost<int>,
        Ghost(goffset): Ghost<int>,
        Ghost(buf0): Ghost<Seq<u8>>,
    ) -> (r: (usize, usize))
        requires
            entry_fits(self@),
            0 <= done,
            done + spec_entry_size(self@) <= whole.len(),
            whole.subrange(done, done + spec_entry_size(self@) as int) == spec_entry_bytes(self@),
            0 <= goffset,
            pos + n <= old(buf)@.len(),
            buf0.len() == old(buf)@.len(),
            n == clip_n(done, goffset, old(buf)@.len() - pos),
            n < old(buf)@.len() - pos || old(buf)@.len() == pos,
            off == if goffset >= done {
                goffset - done
            } else {
                0
            },
            goffset <= whole.len() ==> old(buf)@ == buf0.take(pos as int) + whole.subrange(
                goffset,
                goffset + n,
            ) + buf0.skip(pos + n),
            goffset > whole.len() ==> old(buf)@ == buf0,
        ensures
            final(buf)@.len() == old(buf)@.len(),
            r.0 == clip_n(done + spec_entry_size(self@), goffset, old(buf)@.len() - pos),
            n <= r.0,
            pos + r.0 <= old(buf)@.len(),
            r.1 == if goffset >= done + spec_entry_size(self@) {
                goffset - (done + spec_entry_size(self@))
            } else {
                0
            },
            goffset <= whole.len() ==> final(buf)@ == buf0.take(pos as int) + whole.subrange(
                goffset,
                goffset + r.0,
            ) + buf0.skip(pos + r.0),
            goffset > whole.len() ==> final(buf)@ == buf0,
    {
        let ghost w = old(buf)@.len() - pos;
        let blen = buf.len();
        assert(pos + n <= blen);
        let esize = self.binary_size();
        if off >= esize {
            return (n, off - esize);
        }
        let ghost bufin = buf@;
        let k = self.read_at_into(buf, pos + n, off);
        proof {
            let eb = spec_entry_bytes(self@);
            assert(k == vstd::math::min(eb.len() - off, w - n));
            assert(buf@ == bufin.take(pos + n) + eb.subrange(off as int, off + k) + bufin.skip(
                pos + n + k,
            ));
            assert(goffset < done + eb.len());
            if w == 0 {
                assert(n == 0 && k == 0);
                assert(buf@ =~= bufin);
                if goffset <= whole.len() {
                    assert(whole.subrange(goffset, goffset + 0) =~= Seq::<u8>::empty());
                }
            } else {
                assert(n < w);
                if goffset <= done {
                    assert(n == vstd::math::min(w, done - goffset));
                    assert(n == done - goffset);
                }
                assert(goffset + n == done + off);
                assert(goffset <= whole.len());
                assert(whole.subrange(goffset, goffset + n + k) =~= whole.subrange(
                    goffset,
                    goffset + n,
                ) + eb.subrange(off as int, off + k));
                assert(buf@ =~= buf0.take(pos as int) + whole.subrange(goffset, goffset + n + k)
                    + buf0.skip(pos + n + k));
            }
        }
        let n2 = n + k;
        let off2 = if off + k >= esize {
            off + k - esize
        } else {
            0
        };
        (n2, off2)
    }
}

/// Resumable reads concatenate: the bytes gathered through `offset` followed
/// by one more read of `n` bytes are exactly the bytes gathered through
/// `offset + n`.  Together with the `read_at` contract this says that
/// splitting the serialized form into consecutive reads of arbitrary step
/// sizes reproduces the one-shot encoding byte for byte.
pub proof fn lemma_resumable_read_concat(s: Seq<u8>, offset: int, n: int)
    requires
        0 <= offset,
        0 <= n,
        offset + n <= s.len(),
    ensures
        s.subrange(0, offset) + s.subrange(offset, offset + n) == s.subrange(0, offset + n),
{
    assert(s.subrange(0, offset) + s.subrange(offset, offset + n) =~= s.subrange(0, offset + n));
}

/// A resumable read returns zero bytes into a non-empty buffer exactly when
/// the offset has reached the end: the total of the returned counts is the
/// serialized size.
pub proof fn lemma_resumable_read_complete(total: int, offset: int, w: int)
    requires
        0 <= offset <= total,
        w >= 1,
    ensures
        clip_n(total, offset, w) == 0 <==> offset == total,
{
}

} // verus!
