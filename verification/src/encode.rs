//! The encoder: from a value tree to wire bytes, each item in the smallest
//! format that holds it.

use vstd::prelude::*;
use vstd::string::*;
use vstd::utf8::*;
use crate::bytes::{be16, be32, be64, get_span, put_u16, put_u32, put_u64, text_from_utf8};
use crate::codes::{
    ARRAY16, ARRAY32, FALSE, FIXARRAY, FIXMAP, FIXSTR, INT16, INT32, INT64, INT8, MAP16, MAP32,
    FLOAT32, FLOAT64, NIL, STR16, STR32, STR8, TRUE, UINT16, UINT32, UINT64, UINT8,
};
use crate::error::EncodeError;
use crate::ieee::{float_bits, is_float_numeral, lemma_float_text_is_no_integer, parse_float};
use crate::numeral::{in_wire_range, integer_value, is_integer_numeral, parse_integer, Numeral};
use crate::transvalue::ToValue;
use crate::value::{docs_of, members_of, Doc, Value};

verus! {

/// The wire form of an integer: the fixint range first, then the narrowest
/// unsigned form for a number that is not negative, the narrowest signed
/// form for one that is.
pub open spec fn int_wire(n: int) -> Seq<u8>
    recommends
        in_wire_range(n),
{
    if 0 <= n <= 0x7f {
        seq![n as u8]
    } else if -32 <= n < 0 {
        seq![(n + 0x100) as u8]
    } else if 0 <= n <= 0xff {
        seq![0xccu8, n as u8]
    } else if 0 <= n <= 0xffff {
        seq![0xcdu8] + be16(n as u16)
    } else if 0 <= n <= 0xffff_ffff {
        seq![0xceu8] + be32(n as u32)
    } else if 0 <= n {
        seq![0xcfu8] + be64(n as u64)
    } else if -0x80 <= n {
        seq![0xd0u8, (n + 0x100) as u8]
    } else if -0x8000 <= n {
        seq![0xd1u8] + be16((n + 0x1_0000) as u16)
    } else if -0x8000_0000 <= n {
        seq![0xd2u8] + be32((n + 0x1_0000_0000) as u32)
    } else {
        seq![0xd3u8] + be64((n + 0x1_0000_0000_0000_0000) as u64)
    }
}

/// The wire form of a double: the format byte and the eight bytes of its
/// pattern.
pub open spec fn float_wire(bits: u64) -> Seq<u8> {
    seq![0xcbu8] + be64(bits)
}

/// The wire form of a single: the format byte and the four bytes of its
/// pattern.
pub open spec fn single_wire(bits: u32) -> Seq<u8> {
    seq![0xcau8] + be32(bits)
}

/// The wire format has a form for a number kept as this text.
pub open spec fn number_encodable(t: Seq<char>) -> bool {
    (is_integer_numeral(t) && in_wire_range(integer_value(t))) || is_float_numeral(t)
}

/// The wire form of a number kept as text: that of the integer where the
/// text is an integer's, else that of the double, in 64 bits.
pub open spec fn number_wire(t: Seq<char>) -> Seq<u8>
    recommends
        number_encodable(t),
{
    if is_integer_numeral(t) {
        int_wire(integer_value(t))
    } else {
        float_wire(float_bits(t))
    }
}

/// The header of a string whose payload has `len` bytes.
pub open spec fn str_header(len: nat) -> Seq<u8>
    recommends
        len <= 0xffff_ffff,
{
    if len <= 31 {
        seq![(0xa0 + len) as u8]
    } else if len <= 0xff {
        seq![0xd9u8, len as u8]
    } else if len <= 0xffff {
        seq![0xdau8] + be16(len as u16)
    } else {
        seq![0xdbu8] + be32(len as u32)
    }
}

/// The wire form of a string: the header for its UTF-8 length, then its
/// UTF-8 bytes.
pub open spec fn str_wire(text: Seq<char>) -> Seq<u8> {
    str_header(encode_utf8(text).len()) + encode_utf8(text)
}

/// The header of an array of `count` items.
pub open spec fn array_header(count: nat) -> Seq<u8>
    recommends
        count <= 0xffff_ffff,
{
    if count <= 15 {
        seq![(0x90 + count) as u8]
    } else if count <= 0xffff {
        seq![0xdcu8] + be16(count as u16)
    } else {
        seq![0xddu8] + be32(count as u32)
    }
}

/// The header of a map of `count` pairs.
pub open spec fn map_header(count: nat) -> Seq<u8>
    recommends
        count <= 0xffff_ffff,
{
    if count <= 15 {
        seq![(0x80 + count) as u8]
    } else if count <= 0xffff {
        seq![0xdeu8] + be16(count as u16)
    } else {
        seq![0xdfu8] + be32(count as u32)
    }
}

/// The wire forms of the first `n` items, one after the other.
pub open spec fn items_wire(items: Seq<Doc>, n: nat) -> Seq<u8>
    decreases items, n,
{
    if n == 0 || n > items.len() {
        Seq::empty()
    } else {
        items_wire(items, (n - 1) as nat) + items[n - 1].wire()
    }
}

/// The wire forms of the first `n` members, one after the other: each key
/// as a string, then its value.
pub open spec fn members_wire(members: Seq<(Seq<char>, Doc)>, n: nat) -> Seq<u8>
    decreases members, n,
{
    if n == 0 || n > members.len() {
        Seq::empty()
    } else {
        members_wire(members, (n - 1) as nat) + str_wire(members[n - 1].0) + members[n
            - 1].1.wire()
    }
}

impl Doc {
    /// The wire format has a form for this tree: every number is the
    /// canonical text of an integer between the least signed and the
    /// greatest unsigned 64-bit number, or the numeral of a double, and no
    /// string is longer and no collection larger than 32 bits can count.
    pub open spec fn encodable(self) -> bool
        decreases self,
    {
        match self {
            Doc::Null => true,
            Doc::Bool(_) => true,
            Doc::Number(t) => number_encodable(t),
            Doc::Text(s) => encode_utf8(s).len() <= 0xffff_ffff,
            Doc::Array(items) => {
                &&& items.len() <= 0xffff_ffff
                &&& forall|i: int| 0 <= i < items.len() ==> (#[trigger] items[i]).encodable()
            },
            Doc::Object(members) => {
                &&& members.len() <= 0xffff_ffff
                &&& forall|i: int|
                    0 <= i < members.len() ==> {
                        &&& encode_utf8((#[trigger] members[i]).0).len() <= 0xffff_ffff
                        &&& members[i].1.encodable()
                    }
            },
        }
    }

    /// The wire form of this tree.
    pub open spec fn wire(self) -> Seq<u8>
        recommends
            self.encodable(),
        decreases self, 0nat,
    {
        match self {
            Doc::Null => seq![0xc0u8],
            Doc::Bool(b) => if b {
                seq![0xc3u8]
            } else {
                seq![0xc2u8]
            },
            Doc::Number(t) => number_wire(t),
            Doc::Text(s) => str_wire(s),
            Doc::Array(items) => array_header(items.len()) + items_wire(items, items.len()),
            Doc::Object(members) => map_header(members.len()) + members_wire(
                members,
                members.len(),
            ),
        }
    }
}

/// What encoding a tree gives: its wire form, or `ValueTooLarge` where the
/// wire format has no form for it.
pub open spec fn encoding(doc: Doc) -> Result<Seq<u8>, EncodeError> {
    if doc.encodable() {
        Ok(doc.wire())
    } else {
        Err(EncodeError::ValueTooLarge)
    }
}

/// `before` is how `after` begins.
pub open spec fn extends(after: Seq<u8>, before: Seq<u8>) -> bool {
    before.len() <= after.len() && after.subrange(0, before.len() as int) == before
}

/// Appends nil.
pub fn encode_nil(out: &mut Vec<u8>)
    ensures
        final(out)@ == old(out)@ + Doc::Null.wire(),
{
    out.push(NIL);
    assert(out@ =~= old(out)@ + Doc::Null.wire());
}

/// Appends a boolean.
pub fn encode_bool(out: &mut Vec<u8>, b: bool)
    ensures
        final(out)@ == old(out)@ + Doc::Bool(b).wire(),
{
    if b {
        out.push(TRUE);
    } else {
        out.push(FALSE);
    }
    assert(out@ =~= old(out)@ + Doc::Bool(b).wire());
}

/// Appends an unsigned integer in its smallest format.
pub fn encode_u64(out: &mut Vec<u8>, n: u64)
    ensures
        final(out)@ == old(out)@ + int_wire(n as int),
{
    if n <= 0x7f {
        out.push(n as u8);
    } else if n <= 0xff {
        out.push(UINT8);
        out.push(n as u8);
    } else if n <= 0xffff {
        out.push(UINT16);
        put_u16(out, n as u16);
    } else if n <= 0xffff_ffff {
        out.push(UINT32);
        put_u32(out, n as u32);
    } else {
        out.push(UINT64);
        put_u64(out, n);
    }
    assert(out@ =~= old(out)@ + int_wire(n as int));
}

/// Appends a signed integer in its smallest format.
pub fn encode_i64(out: &mut Vec<u8>, n: i64)
    ensures
        final(out)@ == old(out)@ + int_wire(n as int),
{
    if n >= 0 {
        encode_u64(out, n as u64);
    } else if n >= -32 {
        out.push((n + 0x100) as u8);
    } else if n >= -0x80 {
        out.push(INT8);
        out.push((n + 0x100) as u8);
    } else if n >= -0x8000 {
        out.push(INT16);
        put_u16(out, (n + 0x1_0000) as u16);
    } else if n >= -0x8000_0000 {
        out.push(INT32);
        put_u32(out, (n + 0x1_0000_0000) as u32);
    } else {
        out.push(INT64);
        put_u64(out, ((n as i128) + 0x1_0000_0000_0000_0000) as u64);
    }
    assert(out@ =~= old(out)@ + int_wire(n as int));
}

/// Appends a double, given by its bit pattern, in 64 bits.
pub fn encode_float_bits(out: &mut Vec<u8>, bits: u64)
    ensures
        final(out)@ == old(out)@ + float_wire(bits),
{
    out.push(FLOAT64);
    put_u64(out, bits);
    assert(out@ =~= old(out)@ + float_wire(bits));
}

/// Appends a single, given by its bit pattern, in 32 bits.
pub fn encode_single_bits(out: &mut Vec<u8>, bits: u32)
    ensures
        final(out)@ == old(out)@ + single_wire(bits),
{
    out.push(FLOAT32);
    put_u32(out, bits);
    assert(out@ =~= old(out)@ + single_wire(bits));
}

/// Appends the header of a string of `len` bytes, unless 32 bits cannot
/// count them.
pub fn encode_str_header(out: &mut Vec<u8>, len: usize) -> (r: Result<(), EncodeError>)
    ensures
        len <= 0xffff_ffff ==> r is Ok && final(out)@ == old(out)@ + str_header(len as nat),
        len > 0xffff_ffff ==> r == Err::<(), EncodeError>(EncodeError::ValueTooLarge) && final(out)@ == old(out)@,
{
    if len <= 31 {
        out.push(FIXSTR + (len as u8));
    } else if len <= 0xff {
        out.push(STR8);
        out.push(len as u8);
    } else if len <= 0xffff {
        out.push(STR16);
        put_u16(out, len as u16);
    } else if len <= 0xffff_ffff {
        out.push(STR32);
        put_u32(out, len as u32);
    } else {
        return Err(EncodeError::ValueTooLarge);
    }
    assert(out@ =~= old(out)@ + str_header(len as nat));
    Ok(())
}

/// Appends a string, unless it is longer than 32 bits can count.
pub fn encode_str(out: &mut Vec<u8>, text: &str) -> (r: Result<(), EncodeError>)
    ensures
        encode_utf8(text@).len() <= 0xffff_ffff ==> r is Ok && final(out)@ == old(out)@
            + str_wire(text@),
        encode_utf8(text@).len() > 0xffff_ffff ==> r == Err::<(), EncodeError>(
            EncodeError::ValueTooLarge,
        ) && final(out)@ == old(out)@,
{
    let payload = text.as_bytes();
    match encode_str_header(out, payload.len()) {
        Ok(()) => {
            out.extend_from_slice(payload);
            assert(out@ =~= old(out)@ + str_wire(text@));
            Ok(())
        },
        Err(e) => Err(e),
    }
}

/// Appends as a string the text that `payload` spells in UTF-8:
/// `InvalidUtf8` where the bytes spell none, `ValueTooLarge` where they are
/// more than 32 bits can count.
pub fn encode_str_bytes(out: &mut Vec<u8>, payload: &[u8]) -> (r: Result<(), EncodeError>)
    ensures
        r is Ok <==> vstd::utf8::valid_utf8(payload@) && payload@.len() <= 0xffff_ffff,
        r is Ok ==> final(out)@ == old(out)@ + str_header(payload@.len()) + payload@,
        r is Ok ==> final(out)@ == old(out)@ + str_wire(vstd::utf8::decode_utf8(payload@)),
        r is Err ==> final(out)@ == old(out)@,
        !vstd::utf8::valid_utf8(payload@) ==> r == Err::<(), EncodeError>(
            EncodeError::InvalidUtf8,
        ),
        vstd::utf8::valid_utf8(payload@) && payload@.len() > 0xffff_ffff ==> r == Err::<
            (),
            EncodeError,
        >(EncodeError::ValueTooLarge),
{
    let copy = match get_span(payload, 0, payload.len()) {
        Ok(copy) => copy,
        Err(_) => {
            return Err(EncodeError::InvalidUtf8);
        },
    };
    assert(copy@ =~= payload@);
    match text_from_utf8(copy) {
        None => Err(EncodeError::InvalidUtf8),
        Some(text) => {
            proof {
                vstd::utf8::decode_utf8_encode_utf8(payload@);
            }
            let r = encode_str(out, text.as_str());
            assert(r is Ok ==> out@ =~= old(out)@ + str_header(payload@.len()) + payload@);
            r
        },
    }
}

/// Appends the header of an array of `count` items, unless 32 bits cannot
/// count them.
pub fn encode_array_header(out: &mut Vec<u8>, count: usize) -> (r: Result<(), EncodeError>)
    ensures
        count <= 0xffff_ffff ==> r is Ok && final(out)@ == old(out)@ + array_header(
            count as nat,
        ),
        count > 0xffff_ffff ==> r == Err::<(), EncodeError>(EncodeError::ValueTooLarge)
            && final(out)@ == old(out)@,
{
    if count <= 15 {
        out.push(FIXARRAY + (count as u8));
    } else if count <= 0xffff {
        out.push(ARRAY16);
        put_u16(out, count as u16);
    } else if count <= 0xffff_ffff {
        out.push(ARRAY32);
        put_u32(out, count as u32);
    } else {
        return Err(EncodeError::ValueTooLarge);
    }
    assert(out@ =~= old(out)@ + array_header(count as nat));
    Ok(())
}

/// Appends the header of a map of `count` pairs, unless 32 bits cannot
/// count them.
pub fn encode_map_header(out: &mut Vec<u8>, count: usize) -> (r: Result<(), EncodeError>)
    ensures
        count <= 0xffff_ffff ==> r is Ok && final(out)@ == old(out)@ + map_header(count as nat),
        count > 0xffff_ffff ==> r == Err::<(), EncodeError>(EncodeError::ValueTooLarge)
            && final(out)@ == old(out)@,
{
    if count <= 15 {
        out.push(FIXMAP + (count as u8));
    } else if count <= 0xffff {
        out.push(MAP16);
        put_u16(out, count as u16);
    } else if count <= 0xffff_ffff {
        out.push(MAP32);
        put_u32(out, count as u32);
    } else {
        return Err(EncodeError::ValueTooLarge);
    }
    assert(out@ =~= old(out)@ + map_header(count as nat));
    Ok(())
}

/// Appends a number kept as text, where the text is the canonical text of an
/// integer that the wire format can carry, or the numeral of a double.
pub fn encode_number(out: &mut Vec<u8>, text: &str) -> (r: Result<(), EncodeError>)
    ensures
        Doc::Number(text@).encodable() ==> r is Ok && final(out)@ == old(out)@ + Doc::Number(
            text@,
        ).wire(),
        !Doc::Number(text@).encodable() ==> r == Err::<(), EncodeError>(
            EncodeError::ValueTooLarge,
        ) && final(out)@ == old(out)@,
{
    match parse_integer(text) {
        Numeral::Integer(n) => {
            if n >= 0 {
                encode_u64(out, n as u64);
            } else {
                encode_i64(out, n as i64);
            }
            Ok(())
        },
        Numeral::TooLarge => {
            proof {
                if is_float_numeral(text@) {
                    lemma_float_text_is_no_integer(float_bits(text@));
                }
            }
            Err(EncodeError::ValueTooLarge)
        },
        Numeral::Invalid => match parse_float(text) {
            Some(bits) => {
                proof {
                    crate::ieee::law_float_bits_inverts_text(bits);
                }
                encode_float_bits(out, bits);
                Ok(())
            },
            None => Err(EncodeError::ValueTooLarge),
        },
    }
}

/// Appends the wire form of a value. Where the value has none, what was
/// there before still stands at the front of the buffer.
pub fn encode_into(out: &mut Vec<u8>, value: &Value) -> (r: Result<(), EncodeError>)
    ensures
        value@.encodable() ==> r is Ok && final(out)@ == old(out)@ + value@.wire(),
        !value@.encodable() ==> r == Err::<(), EncodeError>(EncodeError::ValueTooLarge)
            && extends(final(out)@, old(out)@),
    decreases value,
{
    match value {
        Value::Null => {
            encode_nil(out);
            Ok(())
        },
        Value::Bool(b) => {
            encode_bool(out, *b);
            Ok(())
        },
        Value::Number(text) => {
            let r = encode_number(out, text.as_str());
            assert(out@.subrange(0, old(out)@.len() as int) =~= old(out)@);
            r
        },
        Value::String(text) => {
            let r = encode_str(out, text.as_str());
            assert(out@.subrange(0, old(out)@.len() as int) =~= old(out)@);
            r
        },
        Value::Array(items) => {
            let count = items.len();
            let ghost docs = docs_of(items@);
            assert(value@ == Doc::Array(docs));
            if encode_array_header(out, count).is_err() {
                assert(out@.subrange(0, old(out)@.len() as int) =~= old(out)@);
                return Err(EncodeError::ValueTooLarge);
            }
            let mut i: usize = 0;
            while i < count
                invariant
                    i <= count,
                    count == items@.len(),
                    count <= 0xffff_ffff,
                    docs == docs_of(items@),
                    value == Value::Array(*items),
                    forall|k: int| 0 <= k < i ==> (#[trigger] docs[k]).encodable(),
                    out@ == old(out)@ + array_header(count as nat) + items_wire(docs, i as nat),
                decreases count - i,
            {
                let ghost before = out@;
                proof {
                    vstd::std_specs::vec::axiom_vec_index_decreases(*items, i as int);
                    assert(value->Array_0 == *items);
                }
                let r = encode_into(out, &items[i]);
                assert(docs[i as int] == items@[i as int]@);
                if r.is_err() {
                    assert(!docs[i as int].encodable());
                    assert(out@.subrange(0, old(out)@.len() as int) =~= old(out)@) by {
                        assert(before.subrange(0, old(out)@.len() as int) =~= old(out)@);
                        assert(out@.subrange(0, before.len() as int) == before);
                    }
                    return Err(EncodeError::ValueTooLarge);
                }
                i = i + 1;
                assert(out@ =~= old(out)@ + array_header(count as nat) + items_wire(
                    docs,
                    i as nat,
                ));
            }
            assert(out@ =~= old(out)@ + value@.wire());
            Ok(())
        },
        Value::Object(members) => {
            let count = members.len();
            let ghost docs = members_of(members@);
            assert(value@ == Doc::Object(docs));
            if encode_map_header(out, count).is_err() {
                assert(out@.subrange(0, old(out)@.len() as int) =~= old(out)@);
                return Err(EncodeError::ValueTooLarge);
            }
            let mut i: usize = 0;
            while i < count
                invariant
                    i <= count,
                    count == members@.len(),
                    count <= 0xffff_ffff,
                    docs == members_of(members@),
                    value == Value::Object(*members),
                    forall|k: int|
                        0 <= k < i ==> encode_utf8((#[trigger] docs[k]).0).len() <= 0xffff_ffff
                            && docs[k].1.encodable(),
                    out@ == old(out)@ + map_header(count as nat) + members_wire(docs, i as nat),
                decreases count - i,
            {
                let ghost before = out@;
                assert(docs[i as int] == (members@[i as int].0@, members@[i as int].1@));
                let rk = encode_str(out, members[i].0.as_str());
                if rk.is_err() {
                    assert(out@.subrange(0, old(out)@.len() as int) =~= old(out)@);
                    return Err(EncodeError::ValueTooLarge);
                }
                let ghost middle = out@;
                proof {
                    vstd::std_specs::vec::axiom_vec_index_decreases(*members, i as int);
                    assert(value->Object_0 == *members);
                }
                let rv = encode_into(out, &members[i].1);
                if rv.is_err() {
                    assert(out@.subrange(0, old(out)@.len() as int) =~= old(out)@) by {
                        assert(middle.subrange(0, old(out)@.len() as int) =~= old(out)@);
                        assert(out@.subrange(0, middle.len() as int) == middle);
                    }
                    return Err(EncodeError::ValueTooLarge);
                }
                i = i + 1;
                assert(out@ =~= old(out)@ + map_header(count as nat) + members_wire(
                    docs,
                    i as nat,
                ));
            }
            assert(out@ =~= old(out)@ + value@.wire());
            Ok(())
        },
    }
}

/// Encodes a value: its wire form, or `ValueTooLarge` where the wire format
/// has no form for it.
pub fn encode_value(value: &Value) -> (r: Result<Vec<u8>, EncodeError>)
    ensures
        match r {
            Ok(bytes) => encoding(value@) == Ok::<Seq<u8>, EncodeError>(bytes@),
            Err(e) => encoding(value@) == Err::<Seq<u8>, EncodeError>(e),
        },
{
    let mut out: Vec<u8> = Vec::new();
    match encode_into(&mut out, value) {
        Ok(()) => {
            assert(out@ =~= value@.wire());
            Ok(out)
        },
        Err(e) => Err(e),
    }
}

/// Encodes a native value: the wire form of the tree it projects to, or
/// `ValueTooLarge` where the wire format has no form for that tree.
pub fn encode<T: ToValue>(native: &T) -> (r: Result<Vec<u8>, EncodeError>)
    ensures
        match r {
            Ok(bytes) => encoding(native.projection()) == Ok::<Seq<u8>, EncodeError>(bytes@),
            Err(e) => encoding(native.projection()) == Err::<Seq<u8>, EncodeError>(e),
        },
{
    let value = native.to_value();
    encode_value(&value)
}

/// The formats that the wire has for integers.
pub enum IntFormat {
    PositiveFixint,
    NegativeFixint,
    Uint8,
    Uint16,
    Uint32,
    Uint64,
    Int8,
    Int16,
    Int32,
    Int64,
}

impl IntFormat {
    /// The format can represent `n`.
    pub open spec fn holds(self, n: int) -> bool {
        match self {
            IntFormat::PositiveFixint => 0 <= n <= 0x7f,
            IntFormat::NegativeFixint => -32 <= n < 0,
            IntFormat::Uint8 => 0 <= n <= 0xff,
            IntFormat::Uint16 => 0 <= n <= 0xffff,
            IntFormat::Uint32 => 0 <= n <= 0xffff_ffff,
            IntFormat::Uint64 => 0 <= n <= 0xffff_ffff_ffff_ffff,
            IntFormat::Int8 => -0x80 <= n <= 0x7f,
            IntFormat::Int16 => -0x8000 <= n <= 0x7fff,
            IntFormat::Int32 => -0x8000_0000 <= n <= 0x7fff_ffff,
            IntFormat::Int64 => -0x8000_0000_0000_0000 <= n <= 0x7fff_ffff_ffff_ffff,
        }
    }

    /// The bytes that an item of the format takes, the format byte included.
    pub open spec fn size(self) -> nat {
        match self {
            IntFormat::PositiveFixint => 1,
            IntFormat::NegativeFixint => 1,
            IntFormat::Uint8 => 2,
            IntFormat::Uint16 => 3,
            IntFormat::Uint32 => 5,
            IntFormat::Uint64 => 9,
            IntFormat::Int8 => 2,
            IntFormat::Int16 => 3,
            IntFormat::Int32 => 5,
            IntFormat::Int64 => 9,
        }
    }

    /// `tag` is a format byte of the format.
    pub open spec fn has_tag(self, tag: u8) -> bool {
        match self {
            IntFormat::PositiveFixint => tag <= 0x7f,
            IntFormat::NegativeFixint => tag >= 0xe0,
            IntFormat::Uint8 => tag == 0xcc,
            IntFormat::Uint16 => tag == 0xcd,
            IntFormat::Uint32 => tag == 0xce,
            IntFormat::Uint64 => tag == 0xcf,
            IntFormat::Int8 => tag == 0xd0,
            IntFormat::Int16 => tag == 0xd1,
            IntFormat::Int32 => tag == 0xd2,
            IntFormat::Int64 => tag == 0xd3,
        }
    }
}

/// The format that the encoder chooses for `n`.
pub open spec fn chosen_format(n: int) -> IntFormat {
    if 0 <= n <= 0x7f {
        IntFormat::PositiveFixint
    } else if -32 <= n < 0 {
        IntFormat::NegativeFixint
    } else if 0 <= n <= 0xff {
        IntFormat::Uint8
    } else if 0 <= n <= 0xffff {
        IntFormat::Uint16
    } else if 0 <= n <= 0xffff_ffff {
        IntFormat::Uint32
    } else if 0 <= n {
        IntFormat::Uint64
    } else if -0x80 <= n {
        IntFormat::Int8
    } else if -0x8000 <= n {
        IntFormat::Int16
    } else if -0x8000_0000 <= n {
        IntFormat::Int32
    } else {
        IntFormat::Int64
    }
}

/// Size selection is minimal: the encoded form of an integer is an item of
/// a format that can represent it, and no format that can represent it
/// takes fewer bytes.
pub proof fn law_int_wire_is_shortest(n: int, other: IntFormat)
    requires
        in_wire_range(n),
        other.holds(n),
    ensures
        chosen_format(n).holds(n),
        chosen_format(n).has_tag(int_wire(n)[0]),
        int_wire(n).len() == chosen_format(n).size(),
        int_wire(n).len() <= other.size(),
{
}

} // verus!
