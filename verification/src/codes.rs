//! The type-tag table: the format bytes of the wire format and the
//! predicates that classify them.

use vstd::prelude::*;

verus! {

pub const POSITIVE_FIXINT_MAX: u8 = 0x7f;

pub const FIXMAP: u8 = 0x80;

pub const FIXARRAY: u8 = 0x90;

pub const FIXSTR: u8 = 0xa0;

pub const NIL: u8 = 0xc0;

pub const NEVER_USED: u8 = 0xc1;

pub const FALSE: u8 = 0xc2;

pub const TRUE: u8 = 0xc3;

pub const BIN8: u8 = 0xc4;

pub const BIN16: u8 = 0xc5;

pub const BIN32: u8 = 0xc6;

pub const EXT8: u8 = 0xc7;

pub const EXT16: u8 = 0xc8;

pub const EXT32: u8 = 0xc9;

pub const FLOAT32: u8 = 0xca;

pub const FLOAT64: u8 = 0xcb;

pub const UINT8: u8 = 0xcc;

pub const UINT16: u8 = 0xcd;

pub const UINT32: u8 = 0xce;

pub const UINT64: u8 = 0xcf;

pub const INT8: u8 = 0xd0;

pub const INT16: u8 = 0xd1;

pub const INT32: u8 = 0xd2;

pub const INT64: u8 = 0xd3;

pub const FIXEXT1: u8 = 0xd4;

pub const FIXEXT2: u8 = 0xd5;

pub const FIXEXT4: u8 = 0xd6;

pub const FIXEXT8: u8 = 0xd7;

pub const FIXEXT16: u8 = 0xd8;

pub const STR8: u8 = 0xd9;

pub const STR16: u8 = 0xda;

pub const STR32: u8 = 0xdb;

pub const ARRAY16: u8 = 0xdc;

pub const ARRAY32: u8 = 0xdd;

pub const MAP16: u8 = 0xde;

pub const MAP32: u8 = 0xdf;

pub const NEGATIVE_FIXINT: u8 = 0xe0;

/// The largest length that the one-byte string format holds.
pub const FIXSTR_MAX_LEN: u8 = 31;

/// The largest count that the one-byte array and map formats hold.
pub const FIXCOLLECTION_MAX_LEN: u8 = 15;

/// The extension type code reserved for timestamps.
pub const TIMESTAMP_TYPE: i8 = -1;

/// The semantic category of a format byte.
#[derive(Debug, Clone, Copy, PartialEq, Eq, Structural)]
pub enum Family {
    Nil,
    Bool,
    Integer,
    Float,
    Str,
    Bin,
    Array,
    Mapping,
    Ext,
    /// The one byte that the format leaves unassigned.
    Invalid,
}

/// The category that the tag table gives to a format byte.
pub open spec fn family_of(tag: u8) -> Family {
    if tag <= 0x7f {
        Family::Integer
    } else if tag <= 0x8f {
        Family::Mapping
    } else if tag <= 0x9f {
        Family::Array
    } else if tag <= 0xbf {
        Family::Str
    } else if tag == 0xc0 {
        Family::Nil
    } else if tag == 0xc1 {
        Family::Invalid
    } else if tag <= 0xc3 {
        Family::Bool
    } else if tag <= 0xc6 {
        Family::Bin
    } else if tag <= 0xc9 {
        Family::Ext
    } else if tag <= 0xcb {
        Family::Float
    } else if tag <= 0xd3 {
        Family::Integer
    } else if tag <= 0xd8 {
        Family::Ext
    } else if tag <= 0xdb {
        Family::Str
    } else if tag <= 0xdd {
        Family::Array
    } else if tag <= 0xdf {
        Family::Mapping
    } else {
        Family::Integer
    }
}

pub open spec fn is_positive_fixint(tag: u8) -> bool {
    tag <= 0x7f
}

pub open spec fn is_negative_fixint(tag: u8) -> bool {
    tag >= 0xe0
}

pub open spec fn is_fixstr(tag: u8) -> bool {
    0xa0 <= tag <= 0xbf
}

pub open spec fn is_fixarray(tag: u8) -> bool {
    0x90 <= tag <= 0x9f
}

pub open spec fn is_fixmap(tag: u8) -> bool {
    0x80 <= tag <= 0x8f
}

pub open spec fn is_fixext(tag: u8) -> bool {
    0xd4 <= tag <= 0xd8
}

/// The payload length of a fixed-size extension format: 1, 2, 4, 8 or 16.
pub open spec fn fixext_len(tag: u8) -> nat
    recommends
        is_fixext(tag),
{
    if tag == 0xd4 {
        1
    } else if tag == 0xd5 {
        2
    } else if tag == 0xd6 {
        4
    } else if tag == 0xd7 {
        8
    } else {
        16
    }
}

/// The bytes behind the format byte that an item needs before anything
/// else can be read: the width of its number, or of its length field.
pub open spec fn header_width(tag: u8) -> nat {
    if tag == 0xcc || tag == 0xd0 || tag == 0xc4 || tag == 0xc7 || tag == 0xd9 {
        1
    } else if tag == 0xcd || tag == 0xd1 || tag == 0xc5 || tag == 0xc8 || tag == 0xda || tag
        == 0xdc || tag == 0xde {
        2
    } else if tag == 0xce || tag == 0xd2 || tag == 0xc6 || tag == 0xc9 || tag == 0xdb || tag
        == 0xdd || tag == 0xdf || tag == 0xca {
        4
    } else if tag == 0xcf || tag == 0xd3 || tag == 0xcb {
        8
    } else {
        0
    }
}

/// Classifies a format byte.
pub fn classify(tag: u8) -> (family: Family)
    ensures
        family == family_of(tag),
{
    if tag <= POSITIVE_FIXINT_MAX || tag >= NEGATIVE_FIXINT || (tag >= UINT8 && tag <= INT64) {
        Family::Integer
    } else if tag < FIXARRAY || tag == MAP16 || tag == MAP32 {
        Family::Mapping
    } else if tag < FIXSTR || tag == ARRAY16 || tag == ARRAY32 {
        Family::Array
    } else if tag < NIL || (tag >= STR8 && tag <= STR32) {
        Family::Str
    } else if tag == NIL {
        Family::Nil
    } else if tag == FALSE || tag == TRUE {
        Family::Bool
    } else if tag >= BIN8 && tag <= BIN32 {
        Family::Bin
    } else if tag == FLOAT32 || tag == FLOAT64 {
        Family::Float
    } else if tag == NEVER_USED {
        Family::Invalid
    } else {
        Family::Ext
    }
}

/// Every byte but one belongs to a family: the tag table leaves only
/// `0xc1` unassigned.
pub proof fn law_only_one_tag_is_invalid(tag: u8)
    ensures
        family_of(tag) == Family::Invalid <==> tag == 0xc1,
{
}

} // verus!
