//! Base-128 (LEB128) length delimiters, the protobuf-style framing used for
//! every variable-length field of an entry.
//!
//! A delimiter is at most ten bytes long and carries a value that fits in
//! `usize`; non-minimal encodings (continuation bytes with a zero payload)
//! are accepted on decode, as the protobuf wire format does.

use vstd::prelude::*;

use crate::error::Error;

verus! {

/// The canonical base-128 encoding of `n`: seven value bits per byte, least
/// significant group first, the high bit marking a continuation.
pub open spec fn spec_varint(n: nat) -> Seq<u8>
    decreases n,
{
    if n < 0x80 {
        seq![n as u8]
    } else {
        seq![((n % 0x80) + 0x80) as u8] + spec_varint(n / 0x80)
    }
}

/// 128 raised to `k`; the number of values a `k`-byte delimiter can carry.
pub open spec fn pow128(k: nat) -> nat
    decreases k,
{
    if k == 0 {
        1
    } else {
        128 * pow128((k - 1) as nat)
    }
}

/// Reads a base-128 value from the front of `s`, allowing at most `fuel`
/// bytes; yields the value and the number of bytes consumed.
pub open spec fn spec_leb_parse(s: Seq<u8>, fuel: nat) -> Option<(nat, nat)>
    decreases fuel,
{
    if fuel == 0 || s.len() == 0 {
        None
    } else if s[0] < 0x80 {
        Some((s[0] as nat, 1))
    } else {
        match spec_leb_parse(s.skip(1), (fuel - 1) as nat) {
            None => None,
            Some(p) => Some((((s[0] - 0x80) as nat) + 0x80 * p.0, p.1 + 1)),
        }
    }
}

/// What decoding a length delimiter from the front of `s` yields: the value
/// and the bytes consumed, or nothing if `s` holds no delimiter of at most
/// ten bytes whose value fits in `usize`.
pub open spec fn spec_varint_parse(s: Seq<u8>) -> Option<(nat, nat)> {
    match spec_leb_parse(s, 10) {
        None => None,
        Some(p) => if p.0 <= usize::MAX {
            Some(p)
        } else {
            None
        },
    }
}

/// A parsed delimiter consumes at least one byte, at most `fuel` bytes, and
/// never more than the buffer holds.
pub proof fn lemma_leb_parse_bounds(s: Seq<u8>, fuel: nat)
    ensures
        spec_leb_parse(s, fuel) is Some ==> {
            let p = spec_leb_parse(s, fuel)->Some_0;
            1 <= p.1 && p.1 <= fuel && p.1 <= s.len()
        },
    decreases fuel,
{
    if fuel > 0 && s.len() > 0 && s[0] >= 0x80 {
        lemma_leb_parse_bounds(s.skip(1), (fuel - 1) as nat);
    }
}

/// The canonical encoding of `n` is at most `k` bytes whenever `n` is below
/// `pow128(k)`.
pub proof fn lemma_varint_len_at_most(n: nat, k: nat)
    requires
        n < pow128(k),
        k >= 1,
    ensures
        spec_varint(n).len() <= k,
    decreases k,
{
    if n >= 0x80 {
        assert(pow128(k) == 128 * pow128((k - 1) as nat));
        assert(n / 0x80 < pow128((k - 1) as nat)) by (nonlinear_arith)
            requires
                n < 128 * pow128((k - 1) as nat),
        ;
        if k == 1 {
            assert(pow128(1) == 128 * pow128(0));
            assert(false);
        }
        lemma_varint_len_at_most(n / 0x80, (k - 1) as nat);
    }
}

/// Any value that fits in `u64` has a delimiter of at most ten bytes.
pub proof fn lemma_varint_len_le_10(n: nat)
    requires
        n <= u64::MAX,
    ensures
        1 <= spec_varint(n).len() <= 10,
{
    assert(pow128(10) == 1180591620717411303424) by {
        reveal_with_fuel(pow128, 11);
    }
    lemma_varint_len_at_most(n, 10);
}

/// Decoding undoes encoding: a buffer that starts with the canonical
/// encoding of `n` parses back to `n`, consuming exactly that encoding.
pub proof fn lemma_varint_round_trip(n: nat, rest: Seq<u8>)
    requires
        n <= usize::MAX,
    ensures
        spec_varint_parse(spec_varint(n) + rest) == Some((n, spec_varint(n).len())),
{
    lemma_varint_len_le_10(n);
    lemma_leb_round_trip(n, rest, 10);
}

/// The fuel-indexed half of the round-trip argument.
proof fn lemma_leb_round_trip(n: nat, rest: Seq<u8>, fuel: nat)
    requires
        spec_varint(n).len() <= fuel,
    ensures
        spec_leb_parse(spec_varint(n) + rest, fuel) == Some((n, spec_varint(n).len())),
    decreases n,
{
    let s = spec_varint(n) + rest;
    if n < 0x80 {
        assert(s[0] == n as u8);
    } else {
        assert(s[0] == ((n % 0x80) + 0x80) as u8);
        assert(s[0] >= 0x80);
        assert(s.skip(1) =~= spec_varint(n / 0x80) + rest);
        lemma_leb_round_trip(n / 0x80, rest, (fuel - 1) as nat);
        let p = spec_leb_parse(s.skip(1), (fuel - 1) as nat)->Some_0;
        assert(p.0 == n / 0x80);
        assert(((s[0] - 0x80) as nat) + 0x80 * p.0 == (n % 0x80) + 0x80 * (n / 0x80));
        assert((n % 0x80) + 0x80 * (n / 0x80) == n) by {
            vstd::arithmetic::div_mod::lemma_fundamental_div_mod(n as int, 0x80);
        }
    }
}

/// How many bytes the delimiter for `n` takes, between one and ten.
pub fn varint_len(n: usize) -> (r: usize)
    ensures
        r == spec_varint(n as nat).len(),
        1 <= r <= 10,
{
    proof {
        lemma_varint_len_le_10(n as nat);
    }
    let mut m: usize = n;
    let mut l: usize = 1;
    while m >= 0x80
        invariant
            l >= 1,
            l - 1 + spec_varint(m as nat).len() == spec_varint(n as nat).len(),
            spec_varint(n as nat).len() <= 10,
        decreases m,
    {
        assert(spec_varint(m as nat).len() == 1 + spec_varint((m / 0x80) as nat).len());
        m = m / 0x80;
        l = l + 1;
    }
    l
}

/// Appends the delimiter for `n` to `out`.
pub fn encode_varint(n: usize, out: &mut Vec<u8>)
    ensures
        final(out)@ == old(out)@ + spec_varint(n as nat),
{
    let mut m: usize = n;
    while m >= 0x80
        invariant
            out@ + spec_varint(m as nat) == old(out)@ + spec_varint(n as nat),
        decreases m,
    {
        let b: u8 = ((m % 0x80) + 0x80) as u8;
        assert(spec_varint(m as nat) == seq![b] + spec_varint((m / 0x80) as nat));
        let ghost prev = out@;
        out.push(b);
        assert(out@ + spec_varint((m / 0x80) as nat) =~= prev + spec_varint(m as nat));
        m = m / 0x80;
    }
    let ghost prev = out@;
    out.push(m as u8);
    assert(spec_varint(m as nat) == seq![m as u8]);
    assert(out@ =~= prev + spec_varint(m as nat));
}

/// Reads a base-128 value of at most `fuel` bytes starting at `buf[from]`.
fn leb_read(buf: &Vec<u8>, from: usize, fuel: u8) -> (r: Result<(u64, usize), Error>)
    requires
        from <= buf@.len(),
    ensures
        match spec_leb_parse(buf@.skip(from as int), fuel as nat) {
            Some(p) => if p.0 <= u64::MAX {
                r == Ok::<(u64, usize), Error>((p.0 as u64, p.1 as usize))
            } else {
                r == Err::<(u64, usize), Error>(Error::Decode)
            },
            None => r == Err::<(u64, usize), Error>(Error::Decode),
        },
    decreases fuel,
{
    let ghost s = buf@.skip(from as int);
    proof {
        lemma_leb_parse_bounds(s, fuel as nat);
    }
    if fuel == 0 || from == buf.len() {
        return Err(Error::Decode);
    }
    let b = buf[from];
    assert(b == s[0]);
    if b < 0x80 {
        Ok((b as u64, 1))
    } else {
        assert(buf@.skip(from + 1 as int) =~= s.skip(1));
        match leb_read(buf, from + 1, fuel - 1) {
            Err(e) => Err(e),
            Ok((v, k)) => {
                let low: u64 = (b - 0x80) as u64;
                let ghost p = spec_leb_parse(s.skip(1), (fuel - 1) as nat)->Some_0;
                assert(v == p.0 && k == p.1);
                if v > (u64::MAX - low) / 0x80 {
                    proof {
                        assert(low + 0x80 * (p.0 as int) > u64::MAX) by (nonlinear_arith)
                            requires
                                p.0 > ((u64::MAX - low) as int) / 0x80,
                                0 <= low < 0x80,
                                p.0 >= 0,
                        ;
                    }
                    Err(Error::Decode)
                } else {
                    proof {
                        assert(low + 0x80 * (p.0 as int) <= u64::MAX) by (nonlinear_arith)
                            requires
                                p.0 <= ((u64::MAX - low) as int) / 0x80,
                                0 <= low < 0x80,
                                p.0 >= 0,
                        ;
                        lemma_leb_parse_bounds(s.skip(1), (fuel - 1) as nat);
                    }
                    Ok((low + 0x80 * v, k + 1))
                }
            },
        }
    }
}

/// Decodes a length delimiter starting at `buf[from]`: the value and the
/// bytes consumed, or [`Error::Decode`] if no valid delimiter starts there.
pub fn decode_varint(buf: &Vec<u8>, from: usize) -> (r: Result<(usize, usize), Error>)
    requires
        from <= buf@.len(),
    ensures
        match spec_varint_parse(buf@.skip(from as int)) {
            Some(p) => r == Ok::<(usize, usize), Error>((p.0 as usize, p.1 as usize)),
            None => r == Err::<(usize, usize), Error>(Error::Decode),
        },
{
    match leb_read(buf, from, 10) {
        Err(e) => Err(e),
        Ok((v, k)) => {
            if v > usize::MAX as u64 {
                Err(Error::Decode)
            } else {
                Ok((v as usize, k))
            }
        },
    }
}

} // verus!
