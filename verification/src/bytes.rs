//! Big-endian integers and byte spans: bounds-checked reads at a position of
//! a buffer, and writes at the end of one.

use vstd::prelude::*;
use vstd::utf8::{decode_utf8, valid_utf8};
use crate::error::DecodeError;

verus! {

/// The two bytes of `v`, most significant first.
pub open spec fn be16(v: u16) -> Seq<u8> {
    seq![(v / 0x100) as u8, (v % 0x100) as u8]
}

/// The four bytes of `v`, most significant first.
pub open spec fn be32(v: u32) -> Seq<u8> {
    seq![
        (v / 0x100_0000) as u8,
        (v / 0x1_0000 % 0x100) as u8,
        (v / 0x100 % 0x100) as u8,
        (v % 0x100) as u8,
    ]
}

/// The eight bytes of `v`, most significant first.
pub open spec fn be64(v: u64) -> Seq<u8> {
    be32((v / 0x1_0000_0000) as u32) + be32((v % 0x1_0000_0000) as u32)
}

/// The number that the two bytes at `pos` spell, most significant first.
pub open spec fn u16_at(bytes: Seq<u8>, pos: int) -> u16
    recommends
        0 <= pos,
        pos + 2 <= bytes.len(),
{
    (bytes[pos] as int * 0x100 + bytes[pos + 1] as int) as u16
}

/// The number that the four bytes at `pos` spell, most significant first.
pub open spec fn u32_at(bytes: Seq<u8>, pos: int) -> u32
    recommends
        0 <= pos,
        pos + 4 <= bytes.len(),
{
    (u16_at(bytes, pos) as int * 0x1_0000 + u16_at(bytes, pos + 2) as int) as u32
}

/// The number that the eight bytes at `pos` spell, most significant first.
pub open spec fn u64_at(bytes: Seq<u8>, pos: int) -> u64
    recommends
        0 <= pos,
        pos + 8 <= bytes.len(),
{
    (u32_at(bytes, pos) as int * 0x1_0000_0000 + u32_at(bytes, pos + 4) as int) as u64
}

/// `part` stands in `bytes` at `pos`.
pub open spec fn occurs_at(bytes: Seq<u8>, pos: int, part: Seq<u8>) -> bool {
    &&& 0 <= pos
    &&& pos + part.len() <= bytes.len()
    &&& bytes.subrange(pos, pos + part.len()) == part
}

/// Reading back what `be16` wrote gives the number written.
pub proof fn law_be16_round_trip(bytes: Seq<u8>, pos: int, v: u16)
    requires
        occurs_at(bytes, pos, be16(v)),
    ensures
        u16_at(bytes, pos) == v,
{
    let part = bytes.subrange(pos, pos + 2);
    assert(part[0] == bytes[pos] && part[1] == bytes[pos + 1]);
}

/// Reading back what `be32` wrote gives the number written.
pub proof fn law_be32_round_trip(bytes: Seq<u8>, pos: int, v: u32)
    requires
        occurs_at(bytes, pos, be32(v)),
    ensures
        u32_at(bytes, pos) == v,
{
    let part = bytes.subrange(pos, pos + 4);
    assert(part[0] == bytes[pos] && part[1] == bytes[pos + 1] && part[2] == bytes[pos + 2]
        && part[3] == bytes[pos + 3]);
}

/// Reading back what `be64` wrote gives the number written.
pub proof fn law_be64_round_trip(bytes: Seq<u8>, pos: int, v: u64)
    requires
        occurs_at(bytes, pos, be64(v)),
    ensures
        u64_at(bytes, pos) == v,
{
    let hi = (v / 0x1_0000_0000) as u32;
    let lo = (v % 0x1_0000_0000) as u32;
    let part = bytes.subrange(pos, pos + 8);
    assert(bytes.subrange(pos, pos + 4) == be32(hi)) by {
        assert(bytes.subrange(pos, pos + 4) =~= part.subrange(0, 4));
        assert(part.subrange(0, 4) =~= be32(hi));
    }
    assert(bytes.subrange(pos + 4, pos + 8) == be32(lo)) by {
        assert(bytes.subrange(pos + 4, pos + 8) =~= part.subrange(4, 8));
        assert(part.subrange(4, 8) =~= be32(lo));
    }
    law_be32_round_trip(bytes, pos, hi);
    law_be32_round_trip(bytes, pos + 4, lo);
}

/// Appends one byte.
pub fn put_u8(out: &mut Vec<u8>, v: u8)
    ensures
        final(out)@ == old(out)@.push(v),
{
    out.push(v);
}

/// Appends `v` as two bytes, most significant first.
pub fn put_u16(out: &mut Vec<u8>, v: u16)
    ensures
        final(out)@ == old(out)@ + be16(v),
{
    out.push((v / 0x100) as u8);
    out.push((v % 0x100) as u8);
    assert(out@ =~= old(out)@ + be16(v));
}

/// Appends `v` as four bytes, most significant first.
pub fn put_u32(out: &mut Vec<u8>, v: u32)
    ensures
        final(out)@ == old(out)@ + be32(v),
{
    out.push((v / 0x100_0000) as u8);
    out.push((v / 0x1_0000 % 0x100) as u8);
    out.push((v / 0x100 % 0x100) as u8);
    out.push((v % 0x100) as u8);
    assert(out@ =~= old(out)@ + be32(v));
}

/// Appends `v` as eight bytes, most significant first.
pub fn put_u64(out: &mut Vec<u8>, v: u64)
    ensures
        final(out)@ == old(out)@ + be64(v),
{
    let ghost before = out@;
    put_u32(out, (v / 0x1_0000_0000) as u32);
    put_u32(out, (v % 0x1_0000_0000) as u32);
    assert(out@ =~= before + be64(v));
}

/// Appends a span of bytes.
pub fn put_span(out: &mut Vec<u8>, span: &[u8])
    ensures
        final(out)@ == old(out)@ + span@,
{
    out.extend_from_slice(span);
}

/// The byte at `pos`, or `UnexpectedEof` where the buffer ends before it.
pub fn get_u8(buf: &[u8], pos: usize) -> (r: Result<u8, DecodeError>)
    ensures
        r == (if pos < buf@.len() {
            Ok::<u8, DecodeError>(buf@[pos as int])
        } else {
            Err(DecodeError::UnexpectedEof)
        }),
{
    if pos < buf.len() {
        Ok(buf[pos])
    } else {
        Err(DecodeError::UnexpectedEof)
    }
}

/// The big-endian number in the two bytes at `pos`, or `UnexpectedEof`
/// where the buffer ends before them.
pub fn get_u16(buf: &[u8], pos: usize) -> (r: Result<u16, DecodeError>)
    ensures
        r == (if pos + 2 <= buf@.len() {
            Ok::<u16, DecodeError>(u16_at(buf@, pos as int))
        } else {
            Err(DecodeError::UnexpectedEof)
        }),
{
    if pos <= buf.len() && buf.len() - pos >= 2 {
        let hi: u16 = buf[pos] as u16;
        let lo: u16 = buf[pos + 1] as u16;
        Ok(hi * 0x100 + lo)
    } else {
        Err(DecodeError::UnexpectedEof)
    }
}

/// The big-endian number in the four bytes at `pos`, or `UnexpectedEof`
/// where the buffer ends before them.
pub fn get_u32(buf: &[u8], pos: usize) -> (r: Result<u32, DecodeError>)
    ensures
        r == (if pos + 4 <= buf@.len() {
            Ok::<u32, DecodeError>(u32_at(buf@, pos as int))
        } else {
            Err(DecodeError::UnexpectedEof)
        }),
{
    if pos <= buf.len() && buf.len() - pos >= 4 {
        let hi: u32 = (buf[pos] as u32) * 0x100 + (buf[pos + 1] as u32);
        let lo: u32 = (buf[pos + 2] as u32) * 0x100 + (buf[pos + 3] as u32);
        Ok(hi * 0x1_0000 + lo)
    } else {
        Err(DecodeError::UnexpectedEof)
    }
}

/// The big-endian number in the eight bytes at `pos`, or `UnexpectedEof`
/// where the buffer ends before them.
pub fn get_u64(buf: &[u8], pos: usize) -> (r: Result<u64, DecodeError>)
    ensures
        r == (if pos + 8 <= buf@.len() {
            Ok::<u64, DecodeError>(u64_at(buf@, pos as int))
        } else {
            Err(DecodeError::UnexpectedEof)
        }),
{
    if pos <= buf.len() && buf.len() - pos >= 8 {
        let hi = get_u32(buf, pos);
        let lo = get_u32(buf, pos + 4);
        match (hi, lo) {
            (Ok(h), Ok(l)) => Ok((h as u64) * 0x1_0000_0000 + (l as u64)),
            _ => Err(DecodeError::UnexpectedEof),
        }
    } else {
        Err(DecodeError::UnexpectedEof)
    }
}

/// A copy of the `len` bytes at `pos`, or `UnexpectedEof` where the buffer
/// ends before the span does.
pub fn get_span(buf: &[u8], pos: usize, len: usize) -> (r: Result<Vec<u8>, DecodeError>)
    ensures
        pos + len <= buf@.len() ==> r is Ok && r->Ok_0@ == buf@.subrange(
            pos as int,
            pos + len,
        ),
        pos + len > buf@.len() ==> r == Err::<Vec<u8>, DecodeError>(DecodeError::UnexpectedEof),
{
    if pos <= buf.len() && buf.len() - pos >= len {
        let mut span: Vec<u8> = Vec::with_capacity(len);
        let mut i: usize = 0;
        while i < len
            invariant
                i <= len,
                pos + len <= buf@.len(),
                buf@.len() <= usize::MAX,
                span@ == buf@.subrange(pos as int, pos + i),
            decreases len - i,
        {
            span.push(buf[pos + i]);
            i = i + 1;
            assert(span@ =~= buf@.subrange(pos as int, pos + i));
        }
        Ok(span)
    } else {
        Err(DecodeError::UnexpectedEof)
    }
}

/// `String::from_utf8` of std. Its result is believed, not proved: the
/// text that the bytes spell, exactly where they are valid UTF-8, and
/// nothing where they are not.
#[verifier::external_body]
pub(crate) fn text_from_utf8(bytes: Vec<u8>) -> (r: Option<String>)
    ensures
        r is Some <==> valid_utf8(bytes@),
        r is Some ==> r->0@ == decode_utf8(bytes@),
{
    match String::from_utf8(bytes) {
        Ok(text) => Some(text),
        Err(_) => None,
    }
}

} // verus!
