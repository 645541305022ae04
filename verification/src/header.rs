//! A length-framed key/value binary unit, the building block of every entry
//! field.
//!
//! Wire form: a base-128 delimiter holding the key length, the key bytes,
//! then the value bytes.  The value length is not self-describing — a header
//! can only be decoded from a buffer truncated to exactly its total size,
//! which the entry layer arranges by framing each header occurrence in an
//! outer length delimiter.

use vstd::prelude::*;

use crate::error::Error;
use crate::util::clip_n;
use crate::util::stream_stage_copy;
use crate::varint::decode_varint;
use crate::varint::encode_varint;
use crate::varint::lemma_varint_round_trip;
use crate::varint::spec_varint;
use crate::varint::spec_varint_parse;
use crate::varint::varint_len;

verus! {

/// Mathematical image of a header: its key bytes and value bytes.
pub ghost struct SpecHeader {
    pub key: Seq<u8>,
    pub value: Seq<u8>,
}

/// A key/value pair, immutable once constructed.
#[derive(Clone)]
pub struct Header {
    key: Vec<u8>,
    value: Vec<u8>,
}

impl View for Header {
    type V = SpecHeader;

    closed spec fn view(&self) -> SpecHeader {
        SpecHeader { key: self.key@, value: self.value@ }
    }
}

/// The serialized form of a header: the delimiter of the key length, the key
/// bytes, then the value bytes.
pub open spec fn spec_header_bytes(h: SpecHeader) -> Seq<u8> {
    spec_varint(h.key.len()) + h.key + h.value
}

/// The byte size of the serialized form.
pub open spec fn spec_header_size(h: SpecHeader) -> nat {
    spec_header_bytes(h).len()
}

/// Whether the serialized form fits the machine's size type; every header
/// held in memory satisfies this, and the size-computing operations assume
/// it.
pub open spec fn header_fits(h: SpecHeader) -> bool {
    spec_header_size(h) <= usize::MAX
}

/// What decoding a header from the exact window `s` yields: the delimiter
/// gives the key length, the rest of the window is the value.
pub open spec fn spec_header_parse(s: Seq<u8>) -> Result<SpecHeader, Error> {
    match spec_varint_parse(s) {
        None => Err(Error::Decode),
        Some(p) => if p.1 + p.0 <= s.len() {
            Ok(
                SpecHeader {
                    key: s.subrange(p.1 as int, (p.1 + p.0) as int),
                    value: s.skip((p.1 + p.0) as int),
                },
            )
        } else {
            Err(Error::DecodeBufNotEnough)
        },
    }
}

impl Header {
    /// Builds a header; empty key and empty value are allowed and nothing is
    /// validated.
    pub fn new(key: Vec<u8>, value: Vec<u8>) -> (r: Header)
        ensures
            r@.key == key@,
            r@.value == value@,
    {
        Header { key, value }
    }

    /// The key bytes.
    pub fn key(&self) -> (r: &Vec<u8>)
        ensures
            r@ == self@.key,
    {
        &self.key
    }

    /// The value bytes.
    pub fn value(&self) -> (r: &Vec<u8>)
        ensures
            r@ == self@.value,
    {
        &self.value
    }

    /// The size of the serialized form: the key-length delimiter, the key,
    /// and the value.
    pub fn binary_size(&self) -> (r: usize)
        requires
            header_fits(self@),
        ensures
            r == spec_header_size(self@),
    {
        let dlen = varint_len(self.key.len());
        dlen + self.key.len() + self.value.len()
    }

    /// Appends the serialized form to `out`.
    pub fn encode(&self, out: &mut Vec<u8>)
        ensures
            final(out)@ == old(out)@ + spec_header_bytes(self@),
    {
        let ghost out0 = out@;
        encode_varint(self.key.len(), out);
        crate::util::append_bytes(out, self.key.as_slice());
        crate::util::append_bytes(out, self.value.as_slice());
        assert(out@ =~= out0 + spec_header_bytes(self@));
    }

    /// Decodes a header from a buffer truncated to exactly its serialized
    /// size: the delimiter names the key length and all remaining bytes are
    /// the value.
    pub fn decode(buf: &Vec<u8>) -> (r: Result<Header, Error>)
        ensures
            match spec_header_parse(buf@) {
                Ok(h) => r is Ok && r->Ok_0@ == h,
                Err(e) => r == Err::<Header, Error>(e),
            },
    {
        assert(buf@.skip(0) =~= buf@);
        let (key_len, consumed) = match decode_varint(buf, 0) {
            Ok(p) => p,
            Err(_) => {
                return Err(Error::Decode);
            },
        };
        proof {
            crate::varint::lemma_leb_parse_bounds(buf@, 10);
        }
        if key_len > buf.len() - consumed {
            return Err(Error::DecodeBufNotEnough);
        }
        let key = vstd::slice::slice_to_vec(
            vstd::slice::slice_subrange(buf.as_slice(), consumed, consumed + key_len),
        );
        let value = vstd::slice::slice_to_vec(
            vstd::slice::slice_subrange(buf.as_slice(), consumed + key_len, buf.len()),
        );
        assert(value@ =~= buf@.skip((consumed + key_len) as int));
        Ok(Header { key, value })
    }

    /// Resumable read: copies bytes `offset..offset + n` of the serialized
    /// form into the front of `buf`, where `n` is as much as the buffer and
    /// the remaining bytes allow; `n == 0` signals that `offset` is at or
    /// past the end.
    pub fn read_at(&self, buf: &mut Vec<u8>, offset: usize) -> (n: usize)
        requires
            header_fits(self@),
        ensures
            final(buf)@.len() == old(buf)@.len(),
            n == clip_n(spec_header_size(self@) as int, offset as int, old(buf)@.len() as int),
            offset <= spec_header_size(self@) ==> final(buf)@ == spec_header_bytes(
                self@,
            ).subrange(offset as int, offset + n) + old(buf)@.skip(n as int),
            offset > spec_header_size(self@) ==> final(buf)@ == old(buf)@,
    {
        let n = self.read_at_into(buf, 0, offset);
        proof {
            if offset <= spec_header_size(self@) {
                assert(old(buf)@.take(0) =~= Seq::<u8>::empty());
                assert(buf@ =~= spec_header_bytes(self@).subrange(offset as int, offset + n)
                    + old(buf)@.skip(n as int));
            }
        }
        n
    }

    /// Resumable read into the window `buf[pos..]`; the part of `buf` before
    /// `pos` is kept.
    pub(crate) fn read_at_into(&self, buf: &mut Vec<u8>, pos: usize, offset: usize) -> (n: usize)
        requires
            header_fits(self@),
            pos <= old(buf)@.len(),
        ensures
            final(buf)@.len() == old(buf)@.len(),
            n == clip_n(spec_header_size(self@) as int, offset as int, old(buf)@.len() - pos),
            pos + n <= old(buf)@.len(),
            offset <= spec_header_size(self@) ==> final(buf)@ == old(buf)@.take(pos as int)
                + spec_header_bytes(self@).subrange(offset as int, offset + n) + old(buf)@.skip(
                pos + n,
            ),
            offset > spec_header_size(self@) ==> final(buf)@ == old(buf)@,
    {
        let ghost whole = spec_header_bytes(self@);
        let ghost buf0 = old(buf)@;
        let blen = buf.len();

        let key_len = self.key.len();
        let dlen = varint_len(key_len);
        let mut delim: Vec<u8> = Vec::new();
        encode_varint(key_len, &mut delim);
        proof {
            assert(whole.subrange(0, dlen as int) =~= delim@);
            assert(whole.subrange(dlen as int, dlen + key_len as int) =~= self.key@);
            assert(whole.subrange(dlen + key_len as int, whole.len() as int) =~= self.value@);
            if offset <= whole.len() {
                assert(buf0 =~= buf0.take(pos as int) + whole.subrange(
                    offset as int,
                    offset as int,
                ) + buf0.skip(pos as int));
            }
        }

        let (n, off) = stream_stage_copy(
            delim.as_slice(),
            buf,
            pos,
            0,
            offset,
            Ghost(whole),
            Ghost(0),
            Ghost(offset as int),
            Ghost(buf0),
        );
        if pos + n == blen {
            proof {
                lemma_full_window_read(whole.len() as int, dlen as int, offset as int, blen - pos);
            }
            return n;
        }

        let (n, off) = stream_stage_copy(
            self.key.as_slice(),
            buf,
            pos,
            n,
            off,
            Ghost(whole),
            Ghost(dlen as int),
            Ghost(offset as int),
            Ghost(buf0),
        );
        if pos + n == blen {
            proof {
                lemma_full_window_read(
                    whole.len() as int,
                    dlen + key_len,
                    offset as int,
                    blen - pos,
                );
            }
            return n;
        }

        let (n, _) = stream_stage_copy(
            self.value.as_slice(),
            buf,
            pos,
            n,
            off,
            Ghost(whole),
            Ghost(dlen + key_len as int),
            Ghost(offset as int),
            Ghost(buf0),
        );
        n
    }
}

impl Header {
    /// One stage of an enclosing multi-stage read: this header's serialized
    /// bytes start at position `done` of the logical stream `whole`; `n`
    /// bytes are already written to `buf[pos..]` and `off` is the
    /// stage-relative resume offset.  Copies this header's share into the
    /// window and returns the advanced pair `(n, off)`.
    pub(crate) fn read_stage(
        &self,
        buf: &mut Vec<u8>,
        pos: usize,
        n: usize,
        off: usize,
        Ghost(whole): Ghost<Seq<u8>>,
        Ghost(done): Ghost<int>,
        Ghost(goffset): Ghost<int>,
        Ghost(buf0): Ghost<Seq<u8>>,
    ) -> (r: (usize, usize))
        requires
            header_fits(self@),
            0 <= done,
            done + spec_header_size(self@) <= whole.len(),
            whole.subrange(done, done + spec_header_size(self@) as int) == spec_header_bytes(
                self@,
            ),
            0 <= goffset,
            pos + n <= old(buf)@.len(),
            buf0.len() == old(buf)@.len(),
            n == clip_n(done, goffset, old(buf)@.len() - pos),
            n < old(buf)@.len() - pos || old(buf)@.len() == pos,
            off == if goffset >= done {
                goffset - done
            } else {
                0
            },
            goffset <= whole.len() ==> old(buf)@ == buf0.take(pos as int) + whole.subrange(
                goffset,
                goffset + n,
            ) + buf0.skip(pos + n),
            goffset > whole.len() ==> old(buf)@ == buf0,
        ensures
            final(buf)@.len() == old(buf)@.len(),
            r.0 == clip_n(
                done + spec_header_size(self@),
                goffset,
                old(buf)@.len() - pos,
            ),
            n <= r.0,
            pos + r.0 <= old(buf)@.len(),
            r.1 == if goffset >= done + spec_header_size(self@) {
                goffset - (done + spec_header_size(self@))
            } else {
                0
            },
            goffset <= whole.len() ==> final(buf)@ == buf0.take(pos as int) + whole.subrange(
                goffset,
                goffset + r.0,
            ) + buf0.skip(pos + r.0),
            goffset > whole.len() ==> final(buf)@ == buf0,
    {
        let ghost w = old(buf)@.len() - pos;
        let blen = buf.len();
        assert(pos + n <= blen);
        let hsize = self.binary_size();
        if off >= hsize {
            return (n, off - hsize);
        }
        let ghost bufin = buf@;
        let k = self.read_at_into(buf, pos + n, off);
        proof {
            let hb = spec_header_bytes(self@);
            assert(k == vstd::math::min(hb.len() - off, w - n));
            assert(buf@ == bufin.take(pos + n) + hb.subrange(off as int, off + k) + bufin.skip(
                pos + n + k,
            ));
            assert(goffset < done + hb.len());
            if w == 0 {
                assert(n == 0 && k == 0);
                assert(buf@ =~= bufin);
                if goffset <= whole.len() {
                    assert(whole.subrange(goffset, goffset + 0) =~= Seq::<u8>::empty());
                }
            } else {
                assert(n < w);
                if goffset <= done {
                    assert(n == vstd::math::min(w, done - goffset));
                    assert(n == done - goffset);
                }
                assert(goffset + n == done + off);
                assert(goffset <= whole.len());
                assert(whole.subrange(goffset, goffset + n + k) =~= whole.subrange(
                    goffset,
                    goffset + n,
                ) + hb.subrange(off as int, off + k));
                assert(buf@ =~= buf0.take(pos as int) + whole.subrange(goffset, goffset + n + k)
                    + buf0.skip(pos + n + k));
            }
        }
        let n2 = n + k;
        let off2 = if off + k >= hsize {
            off + k - hsize
        } else {
            0
        };
        (n2, off2)
    }
}

/// A read that has filled its whole window after the stream's first `done`
/// bytes has also filled it for the whole stream.
pub(crate) proof fn lemma_full_window_read(total: int, done: int, offset: int, w: int)
    requires
        0 <= done <= total,
        0 <= offset,
        0 <= w,
        clip_n(done, offset, w) == w,
    ensures
        clip_n(total, offset, w) == w,
{
}

/// Header round-trip: parsing the exact serialized window of any header that
/// fits in memory gives back exactly its key and value.
pub proof fn lemma_header_round_trip(h: SpecHeader)
    requires
        header_fits(h),
    ensures
        spec_header_parse(spec_header_bytes(h)) == Ok::<SpecHeader, Error>(h),
{
    let s = spec_header_bytes(h);
    lemma_varint_round_trip(h.key.len(), h.key + h.value);
    assert(s =~= spec_varint(h.key.len()) + (h.key + h.value));
    let p = spec_varint_parse(s)->Some_0;
    assert(p.0 == h.key.len() && p.1 == spec_varint(h.key.len()).len());
    assert(s.subrange(p.1 as int, (p.1 + p.0) as int) =~= h.key);
    assert(s.skip((p.1 + p.0) as int) =~= h.value);
}

} // verus!
