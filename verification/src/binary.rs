//! Binary blobs: raw bytes on the wire, tagged apart from strings.

use vstd::prelude::*;
use crate::bytes::{be16, be32, put_u16, put_u32};
use crate::codes::{BIN16, BIN32, BIN8};
use crate::encode::str_wire;
use crate::error::EncodeError;
use crate::numeral::{decimal, format_integer};
use crate::value::{docs_of, Doc, Value};

verus! {

/// The header of a blob of `len` bytes.
pub open spec fn bin_header(len: nat) -> Seq<u8>
    recommends
        len <= 0xffff_ffff,
{
    if len <= 0xff {
        seq![0xc4u8, len as u8]
    } else if len <= 0xffff {
        seq![0xc5u8] + be16(len as u16)
    } else {
        seq![0xc6u8] + be32(len as u32)
    }
}

/// The wire form of a blob: the header for its length, then its bytes.
pub open spec fn bin_wire(data: Seq<u8>) -> Seq<u8> {
    bin_header(data.len()) + data
}

/// A blob as a value tree has no variant of its own: it is the array of
/// its bytes, each a number.
pub open spec fn bytes_docs(data: Seq<u8>) -> Seq<Doc> {
    Seq::new(data.len(), |i: int| Doc::Number(decimal(data[i] as nat)))
}

/// Appends a blob, unless it is longer than 32 bits can count.
pub fn encode_bin(out: &mut Vec<u8>, data: &[u8]) -> (r: Result<(), EncodeError>)
    ensures
        data@.len() <= 0xffff_ffff ==> r is Ok && final(out)@ == old(out)@ + bin_wire(data@),
        data@.len() > 0xffff_ffff ==> r == Err::<(), EncodeError>(EncodeError::ValueTooLarge)
            && final(out)@ == old(out)@,
{
    let len = data.len();
    if len <= 0xff {
        out.push(BIN8);
        out.push(len as u8);
    } else if len <= 0xffff {
        out.push(BIN16);
        put_u16(out, len as u16);
    } else if len <= 0xffff_ffff {
        out.push(BIN32);
        put_u32(out, len as u32);
    } else {
        return Err(EncodeError::ValueTooLarge);
    }
    out.extend_from_slice(data);
    assert(out@ =~= old(out)@ + bin_wire(data@));
    Ok(())
}

/// The array of numbers that stands for a blob.
pub fn bytes_value(data: &[u8]) -> (v: Value)
    ensures
        v@ == Doc::Array(bytes_docs(data@)),
{
    let mut items: Vec<Value> = Vec::with_capacity(data.len());
    let mut i: usize = 0;
    while i < data.len()
        invariant
            i <= data@.len(),
            items@.len() == i,
            forall|k: int| 0 <= k < i ==> (#[trigger] items@[k])@ == bytes_docs(data@)[k],
        decreases data@.len() - i,
    {
        let text = format_integer(data[i] as i128);
        items.push(Value::Number(text));
        i = i + 1;
    }
    assert(docs_of(items@) =~= bytes_docs(data@));
    Value::Array(items)
}

/// A string and a blob never share a format byte, whatever they hold: the
/// wire keeps text and raw bytes apart even where their bytes are the same.
pub proof fn law_str_and_bin_differ(text: Seq<char>, data: Seq<u8>)
    ensures
        str_wire(text)[0] != bin_wire(data)[0],
        (str_wire(text)[0] & 0xe0 == 0xa0) || 0xd9 <= str_wire(text)[0] <= 0xdb,
        0xc4 <= bin_wire(data)[0] <= 0xc6,
{
    let len = vstd::utf8::encode_utf8(text).len();
    if len <= 31 {
        let tag = (0xa0 + len) as u8;
        assert(str_wire(text)[0] == tag);
        assert(0xa0 <= tag <= 0xbf ==> tag & 0xe0 == 0xa0) by (bit_vector);
    }
}

} // verus!
