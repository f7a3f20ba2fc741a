//! The decoder: from wire bytes to a value tree.
//!
//! What the decoder computes is stated once, as the function `parse` on a
//! sequence of bytes; the executable decoder is proved to compute it.

use vstd::prelude::*;
use vstd::utf8::{decode_utf8, valid_utf8};
use crate::binary::{bytes_docs, bytes_value};
use crate::bytes::{
    get_span, get_u16, get_u32, get_u64, get_u8, text_from_utf8, u16_at, u32_at, u64_at,
};
use crate::codes::{
    classify, family_of, fixext_len, is_fixarray, is_fixext, is_fixmap, is_fixstr, Family, ARRAY16,
    BIN16, BIN8, EXT16, EXT8, FIXARRAY, FIXEXT1, FIXEXT16, FIXEXT2, FIXEXT4, FIXEXT8, FIXMAP,
    FIXSTR, INT16, INT32, INT64, INT8, MAP16, NEGATIVE_FIXINT, POSITIVE_FIXINT_MAX, STR16, STR8,
    TIMESTAMP_TYPE, TRUE, UINT16, UINT32, UINT64, UINT8,
};
use crate::error::{DecodeError, DecodeToError};
use crate::ieee::{float_text, format_float, widen, widen_single};
use crate::ext::{byte_code, ext_doc, ext_value, Ext};
use crate::numeral::{format_integer, integer_text};
use crate::transvalue::{from_value, FromValue};
use crate::time::{read_timestamp, timestamp_doc, timestamp_from_payload, timestamp_value};
use crate::value::{docs_of, members_of, put, put_member, Doc, Value};

verus! {

/// How deep collections may nest where the caller names no limit.
pub const DEFAULT_MAX_DEPTH: usize = 128;

/// The signed number that `v` stands for in two's complement, where the
/// modulus is twice `half`.
pub open spec fn signed(v: int, half: int) -> int {
    if v >= half {
        v - 2 * half
    } else {
        v
    }
}

/// The length field of `width` bytes behind the format byte at `pos`: the
/// length it holds and the position behind it.
pub open spec fn length_at(bytes: Seq<u8>, pos: int, width: int) -> Result<
    (nat, int),
    DecodeError,
> {
    if pos + 1 + width > bytes.len() {
        Err(DecodeError::UnexpectedEof)
    } else if width == 1 {
        Ok((bytes[pos + 1] as nat, pos + 2))
    } else if width == 2 {
        Ok((u16_at(bytes, pos + 1) as nat, pos + 3))
    } else {
        Ok((u32_at(bytes, pos + 1) as nat, pos + 5))
    }
}

/// The integer item at `pos`: its number and the position behind it.
pub open spec fn parse_int(bytes: Seq<u8>, pos: int) -> Result<(int, int), DecodeError> {
    if pos < 0 || pos >= bytes.len() {
        Err(DecodeError::UnexpectedEof)
    } else {
        let tag = bytes[pos];
        if tag <= 0x7f {
            Ok((tag as int, pos + 1))
        } else if tag >= 0xe0 {
            Ok((tag - 0x100, pos + 1))
        } else if tag == 0xcc || tag == 0xd0 {
            if pos + 2 > bytes.len() {
                Err(DecodeError::UnexpectedEof)
            } else if tag == 0xcc {
                Ok((bytes[pos + 1] as int, pos + 2))
            } else {
                Ok((signed(bytes[pos + 1] as int, 0x80), pos + 2))
            }
        } else if tag == 0xcd || tag == 0xd1 {
            if pos + 3 > bytes.len() {
                Err(DecodeError::UnexpectedEof)
            } else if tag == 0xcd {
                Ok((u16_at(bytes, pos + 1) as int, pos + 3))
            } else {
                Ok((signed(u16_at(bytes, pos + 1) as int, 0x8000), pos + 3))
            }
        } else if tag == 0xce || tag == 0xd2 {
            if pos + 5 > bytes.len() {
                Err(DecodeError::UnexpectedEof)
            } else if tag == 0xce {
                Ok((u32_at(bytes, pos + 1) as int, pos + 5))
            } else {
                Ok((signed(u32_at(bytes, pos + 1) as int, 0x8000_0000), pos + 5))
            }
        } else if tag == 0xcf || tag == 0xd3 {
            if pos + 9 > bytes.len() {
                Err(DecodeError::UnexpectedEof)
            } else if tag == 0xcf {
                Ok((u64_at(bytes, pos + 1) as int, pos + 9))
            } else {
                Ok((signed(u64_at(bytes, pos + 1) as int, 0x8000_0000_0000_0000), pos + 9))
            }
        } else {
            Err(DecodeError::InvalidTypeTag)
        }
    }
}

/// The floating-point item at `pos`: the pattern of its double, that of a
/// single widened, and the position behind it.
pub open spec fn parse_float_bits(bytes: Seq<u8>, pos: int) -> Result<(u64, int), DecodeError> {
    if pos < 0 || pos >= bytes.len() {
        Err(DecodeError::UnexpectedEof)
    } else if bytes[pos] == 0xca {
        if pos + 5 > bytes.len() {
            Err(DecodeError::UnexpectedEof)
        } else {
            Ok((widen(u32_at(bytes, pos + 1)), pos + 5))
        }
    } else if bytes[pos] == 0xcb {
        if pos + 9 > bytes.len() {
            Err(DecodeError::UnexpectedEof)
        } else {
            Ok((u64_at(bytes, pos + 1), pos + 9))
        }
    } else {
        Err(DecodeError::InvalidTypeTag)
    }
}

/// The payload of `len` bytes at `at`, and the position behind it.
pub open spec fn span_at(bytes: Seq<u8>, at: int, len: nat) -> Result<
    (Seq<u8>, int),
    DecodeError,
> {
    if at + len > bytes.len() {
        Err(DecodeError::UnexpectedEof)
    } else {
        Ok((bytes.subrange(at, at + len), at + len))
    }
}

/// The header of the string item at `pos`: the length of the payload and
/// the position where it starts.
pub open spec fn str_header_at(bytes: Seq<u8>, pos: int) -> Result<(nat, int), DecodeError> {
    if pos < 0 || pos >= bytes.len() {
        Err(DecodeError::UnexpectedEof)
    } else {
        let tag = bytes[pos];
        if is_fixstr(tag) {
            Ok(((tag - 0xa0) as nat, pos + 1))
        } else if tag == 0xd9 {
            length_at(bytes, pos, 1)
        } else if tag == 0xda {
            length_at(bytes, pos, 2)
        } else if tag == 0xdb {
            length_at(bytes, pos, 4)
        } else {
            Err(DecodeError::InvalidTypeTag)
        }
    }
}

/// The string item at `pos`: its text and the position behind it.
pub open spec fn parse_str(bytes: Seq<u8>, pos: int) -> Result<(Seq<char>, int), DecodeError> {
    match str_header_at(bytes, pos) {
        Err(e) => Err(e),
        Ok((len, at)) => match span_at(bytes, at, len) {
            Err(e) => Err(e),
            Ok((payload, next)) => if valid_utf8(payload) {
                Ok((decode_utf8(payload), next))
            } else {
                Err(DecodeError::InvalidUtf8)
            },
        },
    }
}

/// The blob at `pos`: its bytes and the position behind it.
pub open spec fn parse_bin(bytes: Seq<u8>, pos: int) -> Result<(Seq<u8>, int), DecodeError> {
    if pos < 0 || pos >= bytes.len() {
        Err(DecodeError::UnexpectedEof)
    } else {
        let tag = bytes[pos];
        let header = if tag == 0xc4 {
            length_at(bytes, pos, 1)
        } else if tag == 0xc5 {
            length_at(bytes, pos, 2)
        } else if tag == 0xc6 {
            length_at(bytes, pos, 4)
        } else {
            Err(DecodeError::InvalidTypeTag)
        };
        match header {
            Err(e) => Err(e),
            Ok((len, at)) => span_at(bytes, at, len),
        }
    }
}

/// The extension item at `pos`: its type code, its payload and the position
/// behind it.
pub open spec fn parse_ext(bytes: Seq<u8>, pos: int) -> Result<
    ((int, Seq<u8>), int),
    DecodeError,
> {
    if pos < 0 || pos >= bytes.len() {
        Err(DecodeError::UnexpectedEof)
    } else {
        let tag = bytes[pos];
        let header = if is_fixext(tag) {
            Ok((fixext_len(tag), pos + 1))
        } else if tag == 0xc7 {
            length_at(bytes, pos, 1)
        } else if tag == 0xc8 {
            length_at(bytes, pos, 2)
        } else if tag == 0xc9 {
            length_at(bytes, pos, 4)
        } else {
            Err(DecodeError::InvalidTypeTag)
        };
        match header {
            Err(e) => Err(e),
            Ok((len, at)) => if at + 1 + len > bytes.len() {
                Err(DecodeError::UnexpectedEof)
            } else {
                Ok(((byte_code(bytes[at]), bytes.subrange(at + 1, at + 1 + len)), at + 1 + len))
            },
        }
    }
}

/// The tree that stands for an extension item: that of a timestamp where
/// the type code is the reserved one and the payload holds a timestamp,
/// else that of the raw item.
pub open spec fn extension_doc(code: int, data: Seq<u8>) -> Doc {
    if code == -1 {
        match read_timestamp(data) {
            Some((seconds, nanos)) => timestamp_doc(seconds, nanos),
            None => ext_doc(code, data),
        }
    } else {
        ext_doc(code, data)
    }
}

/// The header of the array or map item at `pos`: the count it declares and
/// the position of the first element.
pub open spec fn count_at(bytes: Seq<u8>, pos: int) -> Result<(nat, int), DecodeError> {
    if pos < 0 || pos >= bytes.len() {
        Err(DecodeError::UnexpectedEof)
    } else {
        let tag = bytes[pos];
        if is_fixarray(tag) {
            Ok(((tag - 0x90) as nat, pos + 1))
        } else if is_fixmap(tag) {
            Ok(((tag - 0x80) as nat, pos + 1))
        } else if tag == 0xdc || tag == 0xde {
            length_at(bytes, pos, 2)
        } else if tag == 0xdd || tag == 0xdf {
            length_at(bytes, pos, 4)
        } else {
            Err(DecodeError::InvalidTypeTag)
        }
    }
}

/// The key at `pos`: a string, or an integer read as its canonical text.
/// No other item can be a key.
pub open spec fn parse_key(bytes: Seq<u8>, pos: int) -> Result<(Seq<char>, int), DecodeError> {
    if pos < 0 || pos >= bytes.len() {
        Err(DecodeError::UnexpectedEof)
    } else if family_of(bytes[pos]) == Family::Str {
        parse_str(bytes, pos)
    } else if family_of(bytes[pos]) == Family::Integer {
        match parse_int(bytes, pos) {
            Err(e) => Err(e),
            Ok((n, next)) => Ok((integer_text(n), next)),
        }
    } else {
        Err(DecodeError::InvalidTypeTag)
    }
}

/// The item at `pos`, with collections nested no deeper than `depth`: its
/// tree and the position behind it.
///
/// A collection that declares more elements than the rest of the buffer
/// has bytes is refused before any of them is read.
pub open spec fn parse(bytes: Seq<u8>, pos: int, depth: nat) -> Result<(Doc, int), DecodeError>
    decreases depth, 0nat,
{
    if pos < 0 || pos >= bytes.len() {
        Err(DecodeError::UnexpectedEof)
    } else {
        let tag = bytes[pos];
        match family_of(tag) {
            Family::Nil => Ok((Doc::Null, pos + 1)),
            Family::Bool => Ok((Doc::Bool(tag == 0xc3), pos + 1)),
            Family::Integer => match parse_int(bytes, pos) {
                Err(e) => Err(e),
                Ok((n, next)) => Ok((Doc::Number(integer_text(n)), next)),
            },
            Family::Float => match parse_float_bits(bytes, pos) {
                Err(e) => Err(e),
                Ok((bits, next)) => Ok((Doc::Number(float_text(bits)), next)),
            },
            Family::Str => match parse_str(bytes, pos) {
                Err(e) => Err(e),
                Ok((text, next)) => Ok((Doc::Text(text), next)),
            },
            Family::Bin => match parse_bin(bytes, pos) {
                Err(e) => Err(e),
                Ok((data, next)) => Ok((Doc::Array(bytes_docs(data)), next)),
            },
            Family::Ext => match parse_ext(bytes, pos) {
                Err(e) => Err(e),
                Ok(((code, data), next)) => Ok((extension_doc(code, data), next)),
            },
            Family::Array => match count_at(bytes, pos) {
                Err(e) => Err(e),
                Ok((count, at)) => if depth == 0 {
                    Err(DecodeError::TooDeep)
                } else if count > bytes.len() - at {
                    Err(DecodeError::LengthOverflow)
                } else {
                    match parse_items(bytes, at, count, (depth - 1) as nat, Seq::empty()) {
                        Err(e) => Err(e),
                        Ok((items, next)) => Ok((Doc::Array(items), next)),
                    }
                },
            },
            Family::Mapping => match count_at(bytes, pos) {
                Err(e) => Err(e),
                Ok((count, at)) => if depth == 0 {
                    Err(DecodeError::TooDeep)
                } else if 2 * count > bytes.len() - at {
                    Err(DecodeError::LengthOverflow)
                } else {
                    match parse_members(bytes, at, count, (depth - 1) as nat, Seq::empty()) {
                        Err(e) => Err(e),
                        Ok((members, next)) => Ok((Doc::Object(members), next)),
                    }
                },
            },
            Family::Invalid => Err(DecodeError::InvalidTypeTag),
        }
    }
}

/// `count` items from `pos` on, added to those already read.
pub open spec fn parse_items(
    bytes: Seq<u8>,
    pos: int,
    count: nat,
    depth: nat,
    read: Seq<Doc>,
) -> Result<(Seq<Doc>, int), DecodeError>
    decreases depth, count + 1,
{
    if count == 0 {
        Ok((read, pos))
    } else {
        match parse(bytes, pos, depth) {
            Err(e) => Err(e),
            Ok((doc, next)) => parse_items(bytes, next, (count - 1) as nat, depth, read.push(doc)),
        }
    }
}

/// `count` pairs of key and value from `pos` on, put into the members
/// already read: a key that comes again replaces the value it had.
pub open spec fn parse_members(
    bytes: Seq<u8>,
    pos: int,
    count: nat,
    depth: nat,
    read: Seq<(Seq<char>, Doc)>,
) -> Result<(Seq<(Seq<char>, Doc)>, int), DecodeError>
    decreases depth, count + 1,
{
    if count == 0 {
        Ok((read, pos))
    } else {
        match parse_key(bytes, pos) {
            Err(e) => Err(e),
            Ok((key, at)) => match parse(bytes, at, depth) {
                Err(e) => Err(e),
                Ok((doc, next)) => parse_members(
                    bytes,
                    next,
                    (count - 1) as nat,
                    depth,
                    put(read, key, doc),
                ),
            },
        }
    }
}

/// What decoding a buffer gives, with collections nested no deeper than
/// `depth`: the tree of the one item at its front.
pub open spec fn decoding_within(bytes: Seq<u8>, depth: nat) -> Result<Doc, DecodeError> {
    match parse(bytes, 0, depth) {
        Err(e) => Err(e),
        Ok((doc, _)) => Ok(doc),
    }
}

/// What decoding a buffer gives under the default limit on nesting.
pub open spec fn decoding(bytes: Seq<u8>) -> Result<Doc, DecodeError> {
    decoding_within(bytes, DEFAULT_MAX_DEPTH as nat)
}

/// Reads the length field of `width` bytes behind the format byte at `pos`.
fn read_length(buf: &[u8], pos: usize, width: usize) -> (r: Result<(usize, usize), DecodeError>)
    requires
        pos < buf@.len(),
        width == 1 || width == 2 || width == 4,
    ensures
        match r {
            Ok((len, at)) => length_at(buf@, pos as int, width as int) == Ok::<
                (nat, int),
                DecodeError,
            >((len as nat, at as int)) && pos < at <= buf@.len(),
            Err(e) => length_at(buf@, pos as int, width as int) == Err::<
                (nat, int),
                DecodeError,
            >(e),
        },
{
    let total = buf.len();
    if width == 1 {
        match get_u8(buf, pos + 1) {
            Ok(len) => Ok((len as usize, pos + 2)),
            Err(e) => Err(e),
        }
    } else if width == 2 {
        match get_u16(buf, pos + 1) {
            Ok(len) => Ok((len as usize, pos + 3)),
            Err(e) => Err(e),
        }
    } else {
        match get_u32(buf, pos + 1) {
            Ok(len) => Ok((len as usize, pos + 5)),
            Err(e) => Err(e),
        }
    }
}

/// Decodes the integer item at `pos`.
pub fn decode_int(buf: &[u8], pos: usize) -> (r: Result<(i128, usize), DecodeError>)
    ensures
        match r {
            Ok((n, next)) => parse_int(buf@, pos as int) == Ok::<(int, int), DecodeError>(
                (n as int, next as int),
            ) && pos < next <= buf@.len() && crate::numeral::in_wire_range(n as int),
            Err(e) => parse_int(buf@, pos as int) == Err::<(int, int), DecodeError>(e),
        },
{
    if pos >= buf.len() {
        return Err(DecodeError::UnexpectedEof);
    }
    let tag = buf[pos];
    if tag <= POSITIVE_FIXINT_MAX {
        Ok((tag as i128, pos + 1))
    } else if tag >= NEGATIVE_FIXINT {
        Ok(((tag as i128) - 0x100, pos + 1))
    } else if tag == UINT8 || tag == INT8 {
        match get_u8(buf, pos + 1) {
            Ok(v) => if tag == UINT8 || v < 0x80 {
                Ok((v as i128, pos + 2))
            } else {
                Ok(((v as i128) - 0x100, pos + 2))
            },
            Err(e) => Err(e),
        }
    } else if tag == UINT16 || tag == INT16 {
        match get_u16(buf, pos + 1) {
            Ok(v) => if tag == UINT16 || v < 0x8000 {
                Ok((v as i128, pos + 3))
            } else {
                Ok(((v as i128) - 0x1_0000, pos + 3))
            },
            Err(e) => Err(e),
        }
    } else if tag == UINT32 || tag == INT32 {
        match get_u32(buf, pos + 1) {
            Ok(v) => if tag == UINT32 || v < 0x8000_0000 {
                Ok((v as i128, pos + 5))
            } else {
                Ok(((v as i128) - 0x1_0000_0000, pos + 5))
            },
            Err(e) => Err(e),
        }
    } else if tag == UINT64 || tag == INT64 {
        match get_u64(buf, pos + 1) {
            Ok(v) => if tag == UINT64 || v < 0x8000_0000_0000_0000 {
                Ok((v as i128, pos + 9))
            } else {
                Ok(((v as i128) - 0x1_0000_0000_0000_0000, pos + 9))
            },
            Err(e) => Err(e),
        }
    } else {
        Err(DecodeError::InvalidTypeTag)
    }
}

/// Decodes the floating-point item at `pos`: the bit pattern of its
/// double, that of a single widened.
pub fn decode_float_bits(buf: &[u8], pos: usize) -> (r: Result<(u64, usize), DecodeError>)
    ensures
        match r {
            Ok((bits, next)) => parse_float_bits(buf@, pos as int) == Ok::<
                (u64, int),
                DecodeError,
            >((bits, next as int)) && pos < next <= buf@.len(),
            Err(e) => parse_float_bits(buf@, pos as int) == Err::<(u64, int), DecodeError>(e),
        },
{
    if pos >= buf.len() {
        return Err(DecodeError::UnexpectedEof);
    }
    let tag = buf[pos];
    if tag == 0xca {
        match get_u32(buf, pos + 1) {
            Ok(single) => Ok((widen_single(single), pos + 5)),
            Err(e) => Err(e),
        }
    } else if tag == 0xcb {
        match get_u64(buf, pos + 1) {
            Ok(bits) => Ok((bits, pos + 9)),
            Err(e) => Err(e),
        }
    } else {
        Err(DecodeError::InvalidTypeTag)
    }
}

/// Decodes the string item at `pos`.
pub fn decode_str(buf: &[u8], pos: usize) -> (r: Result<(String, usize), DecodeError>)
    ensures
        match r {
            Ok((text, next)) => parse_str(buf@, pos as int) == Ok::<(Seq<char>, int), DecodeError>(
                (text@, next as int),
            ) && pos < next <= buf@.len(),
            Err(e) => parse_str(buf@, pos as int) == Err::<(Seq<char>, int), DecodeError>(e),
        },
{
    if pos >= buf.len() {
        return Err(DecodeError::UnexpectedEof);
    }
    let tag = buf[pos];
    let header = if tag >= FIXSTR && tag < 0xc0 {
        Ok(((tag - FIXSTR) as usize, pos + 1))
    } else if tag == STR8 {
        read_length(buf, pos, 1)
    } else if tag == STR16 {
        read_length(buf, pos, 2)
    } else if tag == 0xdb {
        read_length(buf, pos, 4)
    } else {
        Err(DecodeError::InvalidTypeTag)
    };
    match header {
        Err(e) => Err(e),
        Ok((len, at)) => match get_span(buf, at, len) {
            Err(e) => Err(e),
            Ok(payload) => match text_from_utf8(payload) {
                Some(text) => Ok((text, at + len)),
                None => Err(DecodeError::InvalidUtf8),
            },
        },
    }
}

/// Decodes the blob at `pos`.
pub fn decode_bin(buf: &[u8], pos: usize) -> (r: Result<(Vec<u8>, usize), DecodeError>)
    ensures
        match r {
            Ok((data, next)) => parse_bin(buf@, pos as int) == Ok::<(Seq<u8>, int), DecodeError>(
                (data@, next as int),
            ) && pos < next <= buf@.len(),
            Err(e) => parse_bin(buf@, pos as int) == Err::<(Seq<u8>, int), DecodeError>(e),
        },
{
    if pos >= buf.len() {
        return Err(DecodeError::UnexpectedEof);
    }
    let tag = buf[pos];
    let header = if tag == BIN8 {
        read_length(buf, pos, 1)
    } else if tag == BIN16 {
        read_length(buf, pos, 2)
    } else if tag == 0xc6 {
        read_length(buf, pos, 4)
    } else {
        Err(DecodeError::InvalidTypeTag)
    };
    match header {
        Err(e) => Err(e),
        Ok((len, at)) => match get_span(buf, at, len) {
            Err(e) => Err(e),
            Ok(data) => Ok((data, at + len)),
        },
    }
}

/// Decodes the extension item at `pos`.
pub fn decode_ext(buf: &[u8], pos: usize) -> (r: Result<(Ext, usize), DecodeError>)
    ensures
        match r {
            Ok((ext, next)) => parse_ext(buf@, pos as int) == Ok::<
                ((int, Seq<u8>), int),
                DecodeError,
            >(((ext.code as int, ext.data@), next as int)) && pos < next <= buf@.len(),
            Err(e) => parse_ext(buf@, pos as int) == Err::<((int, Seq<u8>), int), DecodeError>(
                e,
            ),
        },
{
    if pos >= buf.len() {
        return Err(DecodeError::UnexpectedEof);
    }
    let tag = buf[pos];
    let header = if tag == FIXEXT1 {
        Ok((1usize, pos + 1))
    } else if tag == FIXEXT2 {
        Ok((2usize, pos + 1))
    } else if tag == FIXEXT4 {
        Ok((4usize, pos + 1))
    } else if tag == FIXEXT8 {
        Ok((8usize, pos + 1))
    } else if tag == FIXEXT16 {
        Ok((16usize, pos + 1))
    } else if tag == EXT8 {
        read_length(buf, pos, 1)
    } else if tag == EXT16 {
        read_length(buf, pos, 2)
    } else if tag == 0xc9 {
        read_length(buf, pos, 4)
    } else {
        Err(DecodeError::InvalidTypeTag)
    };
    match header {
        Err(e) => Err(e),
        Ok((len, at)) => {
            if at >= buf.len() || buf.len() - at - 1 < len {
                return Err(DecodeError::UnexpectedEof);
            }
            let byte = buf[at];
            let code: i8 = if byte >= 0x80 {
                ((byte as i16) - 0x100) as i8
            } else {
                byte as i8
            };
            match get_span(buf, at + 1, len) {
                Err(e) => Err(e),
                Ok(data) => Ok((Ext { code, data }, at + 1 + len)),
            }
        },
    }
}

/// The value that stands for an extension item.
pub fn extension_value(ext: &Ext) -> (v: Value)
    ensures
        v@ == extension_doc(ext.code as int, ext.data@),
{
    if ext.code == TIMESTAMP_TYPE {
        match timestamp_from_payload(ext.data.as_slice()) {
            Some(ts) => timestamp_value(&ts),
            None => ext_value(ext.code, ext.data.as_slice()),
        }
    } else {
        ext_value(ext.code, ext.data.as_slice())
    }
}

/// Reads the header of the array or map item at `pos`.
fn decode_count(buf: &[u8], pos: usize) -> (r: Result<(usize, usize), DecodeError>)
    requires
        pos < buf@.len(),
        family_of(buf@[pos as int]) == Family::Array || family_of(buf@[pos as int])
            == Family::Mapping,
    ensures
        match r {
            Ok((count, at)) => count_at(buf@, pos as int) == Ok::<(nat, int), DecodeError>(
                (count as nat, at as int),
            ) && pos < at <= buf@.len(),
            Err(e) => count_at(buf@, pos as int) == Err::<(nat, int), DecodeError>(e),
        },
{
    let tag = buf[pos];
    if tag >= FIXARRAY && tag < FIXSTR {
        Ok(((tag - FIXARRAY) as usize, pos + 1))
    } else if tag >= FIXMAP && tag < FIXARRAY {
        Ok(((tag - FIXMAP) as usize, pos + 1))
    } else if tag == ARRAY16 || tag == MAP16 {
        read_length(buf, pos, 2)
    } else {
        read_length(buf, pos, 4)
    }
}

/// Decodes the key at `pos`.
fn decode_key(buf: &[u8], pos: usize) -> (r: Result<(String, usize), DecodeError>)
    ensures
        match r {
            Ok((key, next)) => parse_key(buf@, pos as int) == Ok::<(Seq<char>, int), DecodeError>(
                (key@, next as int),
            ) && pos < next <= buf@.len(),
            Err(e) => parse_key(buf@, pos as int) == Err::<(Seq<char>, int), DecodeError>(e),
        },
{
    if pos >= buf.len() {
        return Err(DecodeError::UnexpectedEof);
    }
    match classify(buf[pos]) {
        Family::Str => decode_str(buf, pos),
        Family::Integer => match decode_int(buf, pos) {
            Err(e) => Err(e),
            Ok((n, next)) => Ok((format_integer(n), next)),
        },
        _ => Err(DecodeError::InvalidTypeTag),
    }
}

/// Decodes the item at `pos`, with collections nested no deeper than
/// `depth`: the value and the position behind the item.
pub fn decode_at(buf: &[u8], pos: usize, depth: usize) -> (r: Result<(Value, usize), DecodeError>)
    ensures
        match r {
            Ok((value, next)) => parse(buf@, pos as int, depth as nat) == Ok::<
                (Doc, int),
                DecodeError,
            >((value@, next as int)) && pos < next <= buf@.len(),
            Err(e) => parse(buf@, pos as int, depth as nat) == Err::<(Doc, int), DecodeError>(e),
        },
    decreases depth,
{
    if pos >= buf.len() {
        return Err(DecodeError::UnexpectedEof);
    }
    let tag = buf[pos];
    match classify(tag) {
        Family::Nil => Ok((Value::Null, pos + 1)),
        Family::Bool => Ok((Value::Bool(tag == TRUE), pos + 1)),
        Family::Integer => match decode_int(buf, pos) {
            Err(e) => Err(e),
            Ok((n, next)) => Ok((Value::Number(format_integer(n)), next)),
        },
        Family::Float => match decode_float_bits(buf, pos) {
            Err(e) => Err(e),
            Ok((bits, next)) => Ok((Value::Number(format_float(bits)), next)),
        },
        Family::Str => match decode_str(buf, pos) {
            Err(e) => Err(e),
            Ok((text, next)) => Ok((Value::String(text), next)),
        },
        Family::Bin => match decode_bin(buf, pos) {
            Err(e) => Err(e),
            Ok((data, next)) => Ok((bytes_value(data.as_slice()), next)),
        },
        Family::Ext => match decode_ext(buf, pos) {
            Err(e) => Err(e),
            Ok((ext, next)) => Ok((extension_value(&ext), next)),
        },
        Family::Array => match decode_count(buf, pos) {
            Err(e) => Err(e),
            Ok((count, at)) => {
                if depth == 0 {
                    return Err(DecodeError::TooDeep);
                }
                if count > buf.len() - at {
                    return Err(DecodeError::LengthOverflow);
                }
                let mut items: Vec<Value> = Vec::new();
                let mut i: usize = 0;
                let mut cur: usize = at;
                assert(docs_of(items@) =~= Seq::<Doc>::empty());
                let ghost whole = parse_items(
                    buf@,
                    at as int,
                    count as nat,
                    (depth - 1) as nat,
                    Seq::empty(),
                );
                while i < count
                    invariant
                        i <= count,
                        pos < at <= cur <= buf@.len(),
                        depth > 0,
                        parse(buf@, pos as int, depth as nat) == (match whole {
                            Err(e) => Err::<(Doc, int), DecodeError>(e),
                            Ok((docs, next)) => Ok((Doc::Array(docs), next)),
                        }),
                        whole == parse_items(
                            buf@,
                            cur as int,
                            (count - i) as nat,
                            (depth - 1) as nat,
                            docs_of(items@),
                        ),
                    decreases count - i,
                {
                    let ghost before = docs_of(items@);
                    match decode_at(buf, cur, depth - 1) {
                        Err(e) => {
                            return Err(e);
                        },
                        Ok((item, next)) => {
                            let ghost doc = item@;
                            items.push(item);
                            assert(docs_of(items@) =~= before.push(doc));
                            cur = next;
                            i = i + 1;
                        },
                    }
                }
                Ok((Value::Array(items), cur))
            },
        },
        Family::Mapping => match decode_count(buf, pos) {
            Err(e) => Err(e),
            Ok((count, at)) => {
                if depth == 0 {
                    return Err(DecodeError::TooDeep);
                }
                if count > (buf.len() - at) / 2 {
                    return Err(DecodeError::LengthOverflow);
                }
                let mut members: Vec<(String, Value)> = Vec::new();
                let mut i: usize = 0;
                let mut cur: usize = at;
                assert(members_of(members@) =~= Seq::<(Seq<char>, Doc)>::empty());
                let ghost whole = parse_members(
                    buf@,
                    at as int,
                    count as nat,
                    (depth - 1) as nat,
                    Seq::empty(),
                );
                while i < count
                    invariant
                        i <= count,
                        pos < at <= cur <= buf@.len(),
                        depth > 0,
                        parse(buf@, pos as int, depth as nat) == (match whole {
                            Err(e) => Err::<(Doc, int), DecodeError>(e),
                            Ok((docs, next)) => Ok((Doc::Object(docs), next)),
                        }),
                        whole == parse_members(
                            buf@,
                            cur as int,
                            (count - i) as nat,
                            (depth - 1) as nat,
                            members_of(members@),
                        ),
                    decreases count - i,
                {
                    match decode_key(buf, cur) {
                        Err(e) => {
                            return Err(e);
                        },
                        Ok((key, mid)) => match decode_at(buf, mid, depth - 1) {
                            Err(e) => {
                                return Err(e);
                            },
                            Ok((item, next)) => {
                                put_member(&mut members, key, item);
                                cur = next;
                                i = i + 1;
                            },
                        },
                    }
                }
                Ok((Value::Object(members), cur))
            },
        },
        Family::Invalid => Err(DecodeError::InvalidTypeTag),
    }
}

/// Decodes the one item at the front of a buffer, with collections nested
/// no deeper than `max_depth`. What is behind the item is not read. The
/// value that comes out is well formed: no object of it holds a key twice,
/// and it can be encoded again.
pub fn decode_with_depth(bytes: &[u8], max_depth: usize) -> (r: Result<Value, DecodeError>)
    ensures
        match r {
            Ok(value) => decoding_within(bytes@, max_depth as nat) == Ok::<Doc, DecodeError>(
                value@,
            ) && value@.keys_unique() && value@.encodable(),
            Err(e) => decoding_within(bytes@, max_depth as nat) == Err::<Doc, DecodeError>(e),
        },
{
    match decode_at(bytes, 0, max_depth) {
        Ok((value, _)) => {
            proof {
                crate::round_trip::law_parsed_is_well_formed(bytes@, 0, max_depth as nat);
            }
            Ok(value)
        },
        Err(e) => Err(e),
    }
}

/// Decodes the one item at the front of a buffer, under the default limit
/// on nesting. What is behind the item is not read. The value that comes
/// out is well formed: no object of it holds a key twice, and it can be
/// encoded again.
pub fn decode_to_value(bytes: &[u8]) -> (r: Result<Value, DecodeError>)
    ensures
        match r {
            Ok(value) => decoding(bytes@) == Ok::<Doc, DecodeError>(value@)
                && value@.keys_unique() && value@.encodable(),
            Err(e) => decoding(bytes@) == Err::<Doc, DecodeError>(e),
        },
{
    decode_with_depth(bytes, DEFAULT_MAX_DEPTH)
}

/// Decodes the one item at the front of a buffer into a native value: what
/// rebuilding from the decoded tree gives, or why the buffer could not be
/// decoded, or why the tree could not be rebuilt.
pub fn decode_to<T: FromValue>(bytes: &[u8]) -> (r: Result<T, DecodeToError>)
    ensures
        match decoding(bytes@) {
            Err(e) => r matches Err(DecodeToError::Decode(d)) && d == e,
            Ok(doc) => match r {
                Ok(native) => T::reads(doc, ""@, Ok(native)),
                Err(DecodeToError::Transcode(e)) => T::reads(doc, ""@, Err(e@)),
                Err(DecodeToError::Decode(_)) => false,
            },
        },
{
    match decode_to_value(bytes) {
        Err(e) => Err(DecodeToError::Decode(e)),
        Ok(value) => match from_value::<T>(&value) {
            Ok(native) => Ok(native),
            Err(e) => Err(DecodeToError::Transcode(e)),
        },
    }
}

} // verus!
