//! Extension items: a signed type code and a payload of raw bytes.

use vstd::prelude::*;
use crate::binary::{bytes_docs, bytes_value};
use crate::bytes::{be16, be32, put_u16, put_u32};
use crate::codes::{EXT16, EXT32, EXT8, FIXEXT1, FIXEXT16, FIXEXT2, FIXEXT4, FIXEXT8};
use crate::error::EncodeError;
use crate::numeral::{format_integer, integer_text};
use crate::value::{members_of, Doc, Value};

verus! {

/// An extension value: a type code and its payload.
#[derive(Debug)]
pub struct Ext {
    pub code: i8,
    pub data: Vec<u8>,
}

/// The header of an extension payload of `len` bytes: one of the five
/// fixed formats where the length is exactly 1, 2, 4, 8 or 16, else the
/// narrowest length-prefixed one.
pub open spec fn ext_header(len: nat) -> Seq<u8>
    recommends
        len <= 0xffff_ffff,
{
    if len == 1 {
        seq![0xd4u8]
    } else if len == 2 {
        seq![0xd5u8]
    } else if len == 4 {
        seq![0xd6u8]
    } else if len == 8 {
        seq![0xd7u8]
    } else if len == 16 {
        seq![0xd8u8]
    } else if len <= 0xff {
        seq![0xc7u8, len as u8]
    } else if len <= 0xffff {
        seq![0xc8u8] + be16(len as u16)
    } else {
        seq![0xc9u8] + be32(len as u32)
    }
}

/// The byte that carries a type code.
pub open spec fn code_byte(code: int) -> u8
    recommends
        -128 <= code <= 127,
{
    if code < 0 {
        (code + 0x100) as u8
    } else {
        code as u8
    }
}

/// The type code that a byte carries.
pub open spec fn byte_code(byte: u8) -> int {
    if byte >= 0x80 {
        byte - 0x100
    } else {
        byte as int
    }
}

/// The wire form of an extension item: the header, the type code, the
/// payload.
pub open spec fn ext_wire(code: int, data: Seq<u8>) -> Seq<u8> {
    ext_header(data.len()) + seq![code_byte(code)] + data
}

/// An extension item as a value tree has no variant of its own: it is the
/// object of its type code and of the array of its bytes.
pub open spec fn ext_doc(code: int, data: Seq<u8>) -> Doc {
    Doc::Object(
        seq![
            ("type"@, Doc::Number(integer_text(code))),
            ("data"@, Doc::Array(bytes_docs(data))),
        ],
    )
}

/// Appends an extension item, unless its payload is longer than 32 bits can
/// count.
pub fn encode_ext(out: &mut Vec<u8>, code: i8, data: &[u8]) -> (r: Result<(), EncodeError>)
    ensures
        data@.len() <= 0xffff_ffff ==> r is Ok && final(out)@ == old(out)@ + ext_wire(
            code as int,
            data@,
        ),
        data@.len() > 0xffff_ffff ==> r == Err::<(), EncodeError>(EncodeError::ValueTooLarge)
            && final(out)@ == old(out)@,
{
    let len = data.len();
    if len == 1 {
        out.push(FIXEXT1);
    } else if len == 2 {
        out.push(FIXEXT2);
    } else if len == 4 {
        out.push(FIXEXT4);
    } else if len == 8 {
        out.push(FIXEXT8);
    } else if len == 16 {
        out.push(FIXEXT16);
    } else if len <= 0xff {
        out.push(EXT8);
        out.push(len as u8);
    } else if len <= 0xffff {
        out.push(EXT16);
        put_u16(out, len as u16);
    } else if len <= 0xffff_ffff {
        out.push(EXT32);
        put_u32(out, len as u32);
    } else {
        return Err(EncodeError::ValueTooLarge);
    }
    let byte: u8 = if code < 0 {
        ((code as i16) + 0x100) as u8
    } else {
        code as u8
    };
    out.push(byte);
    out.extend_from_slice(data);
    assert(out@ =~= old(out)@ + ext_wire(code as int, data@));
    Ok(())
}

/// The object that stands for an extension item.
pub fn ext_value(code: i8, data: &[u8]) -> (v: Value)
    ensures
        v@ == ext_doc(code as int, data@),
{
    let mut members: Vec<(String, Value)> = Vec::new();
    members.push(("type".to_string(), Value::Number(format_integer(code as i128))));
    members.push(("data".to_string(), bytes_value(data)));
    assert(members_of(members@) =~= ext_doc(code as int, data@)->Object_0);
    Value::Object(members)
}

} // verus!
