//! Small shared pieces: the bounded byte copy that every resumable read is
//! built from, the record attribute tag, and the format-version discriminator.

use vstd::prelude::*;

use crate::error::Error;

verus! {

/// Copies bytes from `src[src_from..]` into `dst[dst_from..]`, stopping at
/// whichever runs out first, and returns how many bytes were copied.
/// The destination keeps its length; only the bytes written change.
pub fn copy_slice(src: &[u8], src_from: usize, dst: &mut Vec<u8>, dst_from: usize) -> (n: usize)
    requires
        src_from <= src@.len(),
        dst_from <= old(dst)@.len(),
    ensures
        n == vstd::math::min(src@.len() - src_from, old(dst)@.len() - dst_from),
        final(dst)@.len() == old(dst)@.len(),
        final(dst)@ == old(dst)@.take(dst_from as int) + src@.subrange(
            src_from as int,
            src_from + n,
        ) + old(dst)@.skip(dst_from + n),
{
    let ghost dst0 = dst@;
    let src_avail = src.len() - src_from;
    let dst_avail = dst.len() - dst_from;
    let m = if src_avail <= dst_avail {
        src_avail
    } else {
        dst_avail
    };
    let mut i: usize = 0;
    while i < m
        invariant
            i <= m,
            src_from + m <= src@.len(),
            src@.len() <= usize::MAX,
            dst_from + m <= dst0.len(),
            dst0.len() <= usize::MAX,
            dst@.len() == dst0.len(),
            forall|j: int| 0 <= j < dst_from ==> dst@[j] == dst0[j],
            forall|j: int| dst_from + i <= j < dst@.len() ==> dst@[j] == dst0[j],
            forall|j: int|
                dst_from <= j < dst_from + i ==> dst@[j] == src@[src_from - dst_from + j],
        decreases m - i,
    {
        let b = *vstd::slice::slice_index_get(src, src_from + i);
        dst.set(dst_from + i, b);
        i += 1;
    }
    assert(dst@ =~= dst0.take(dst_from as int) + src@.subrange(
        src_from as int,
        src_from + m,
    ) + dst0.skip(dst_from + m));
    m
}

/// Appends all of `src` to `out`.
pub fn append_bytes(out: &mut Vec<u8>, src: &[u8])
    ensures
        final(out)@ == old(out)@ + src@,
{
    let ghost out0 = out@;
    let mut i: usize = 0;
    while i < src.len()
        invariant
            i <= src@.len(),
            out@ == out0 + src@.take(i as int),
        decreases src@.len() - i,
    {
        let b = *vstd::slice::slice_index_get(src, i);
        out.push(b);
        assert(out@ =~= out0 + src@.take(i + 1));
        i += 1;
    }
    assert(out@ =~= out0 + src@);
}

/// How many bytes a read of window size `w` starting at `offset` yields from
/// a stream whose first `done` bytes are in reach: everything left of the
/// first `done` bytes, clipped to the window, and nothing once the offset is
/// past them.
pub open spec fn clip_n(done: int, offset: int, w: int) -> int {
    if offset <= done {
        vstd::math::min(w, done - offset)
    } else {
        0
    }
}

/// One stage of a resumable multi-stage read.
///
/// A logical byte stream `whole` is produced stage by stage; `src` holds the
/// stage that starts at position `done` of the stream.  `n` bytes have
/// already been written to `buf[pos..]` and `off` is the stage-relative
/// offset where this stage's read resumes.  Copies this stage's share into
/// the window and returns the advanced pair `(n, off)`.
pub(crate) fn stream_stage_copy(
    src: &[u8],
    buf: &mut Vec<u8>,
    pos: usize,
    n: usize,
    off: usize,
    Ghost(whole): Ghost<Seq<u8>>,
    Ghost(done): Ghost<int>,
    Ghost(goffset): Ghost<int>,
    Ghost(buf0): Ghost<Seq<u8>>,
) -> (r: (usize, usize))
    requires
        0 <= done,
        done + src@.len() <= whole.len(),
        whole.subrange(done, done + src@.len()) == src@,
        0 <= goffset,
        pos + n <= old(buf)@.len(),
        buf0.len() == old(buf)@.len(),
        n == clip_n(done, goffset, old(buf)@.len() - pos),
        n < old(buf)@.len() - pos || old(buf)@.len() == pos,
        off == if goffset >= done {
            goffset - done
        } else {
            0
        },
        goffset <= whole.len() ==> old(buf)@ == buf0.take(pos as int) + whole.subrange(
            goffset,
            goffset + n,
        ) + buf0.skip(pos + n),
        goffset > whole.len() ==> old(buf)@ == buf0,
    ensures
        final(buf)@.len() == old(buf)@.len(),
        r.0 == clip_n(done + src@.len(), goffset, old(buf)@.len() - pos),
        n <= r.0,
        pos + r.0 <= old(buf)@.len(),
        r.1 == if goffset >= done + src@.len() {
            goffset - (done + src@.len())
        } else {
            0
        },
        goffset <= whole.len() ==> final(buf)@ == buf0.take(pos as int) + whole.subrange(
            goffset,
            goffset + r.0,
        ) + buf0.skip(pos + r.0),
        goffset > whole.len() ==> final(buf)@ == buf0,
{
    let ghost w = old(buf)@.len() - pos;
    let blen = buf.len();
    assert(pos + n <= blen);
    if off >= src.len() {
        return (n, off - src.len());
    }
    let ghost bufin = buf@;
    let k = copy_slice(src, off, buf, pos + n);
    proof {
        assert(goffset < done + src@.len());
        if w == 0 {
            assert(n == 0 && k == 0);
            assert(buf@ =~= bufin);
            if goffset <= whole.len() {
                assert(whole.subrange(goffset, goffset + 0) =~= Seq::<u8>::empty());
            }
        } else {
            assert(n < w);
            if goffset <= done {
                assert(n == vstd::math::min(w, done - goffset));
                assert(n == done - goffset);
            }
            assert(goffset + n == done + off);
            assert(goffset <= whole.len());
            assert(whole.subrange(goffset, goffset + n + k) =~= whole.subrange(
                goffset,
                goffset + n,
            ) + src@.subrange(off as int, off + k));
            assert(buf@ =~= buf0.take(pos as int) + whole.subrange(goffset, goffset + n + k)
                + buf0.skip(pos + n + k));
        }
    }
    let n2 = n + k;
    let off2 = if off + k >= src.len() {
        off + k - src.len()
    } else {
        0
    };
    (n2, off2)
}

/// Opaque signed 32-bit record tag; its meaning belongs to the caller and
/// this layer never validates it.
#[derive(Debug, PartialEq, Eq, Copy, Clone, Structural)]
pub struct Attr {
    tag: i32,
}

impl Attr {
    /// Wraps a raw tag value.
    pub fn new(tag: i32) -> (r: Attr)
        ensures
            r@ == tag,
    {
        Attr { tag }
    }

    /// The raw tag value.
    pub fn value(&self) -> (r: i32)
        ensures
            r == self@,
    {
        self.tag
    }
}

impl View for Attr {
    type V = i32;

    closed spec fn view(&self) -> i32 {
        self.tag
    }
}

impl Default for Attr {
    /// The default attribute is the zero tag.
    fn default() -> (r: Attr)
        ensures
            r@ == 0,
    {
        Attr { tag: 0 }
    }
}

/// Format-version discriminator carried in the first byte of every entry.
#[derive(Debug, PartialEq, Eq, Copy, Clone, Structural)]
pub enum Magic {
    V1,
}

/// The wire byte of each format version.
pub open spec fn spec_magic_byte(m: Magic) -> u8 {
    match m {
        Magic::V1 => 0x01,
    }
}

impl Magic {
    /// The byte this version is written as.
    pub fn to_u8(self) -> (r: u8)
        ensures
            r == spec_magic_byte(self),
    {
        match self {
            Magic::V1 => 0x01,
        }
    }

    /// Reads a version byte; an unrecognized byte is rejected, never mapped
    /// to a default.
    pub fn from_u8(b: u8) -> (r: Result<Magic, Error>)
        ensures
            b == 0x01 ==> r == Ok::<Magic, Error>(Magic::V1),
            b != 0x01 ==> r == Err::<Magic, Error>(Error::InvalidMagic),
    {
        if b == 0x01 {
            Ok(Magic::V1)
        } else {
            Err(Error::InvalidMagic)
        }
    }
}

} // verus!
