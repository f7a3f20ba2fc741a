//! Decoding inverts encoding: the laws that tie `parse` to the wire forms.

use vstd::prelude::*;
use vstd::utf8::encode_utf8;
use crate::binary::{bin_header, bin_wire, bytes_docs};
use crate::bytes::{
    be16, be32, be64, law_be16_round_trip, law_be32_round_trip, law_be64_round_trip, occurs_at,
};
use crate::codes::{family_of, header_width, Family};
use crate::decode::{
    count_at, decoding_within, extension_doc, length_at, parse, parse_bin, parse_ext,
    parse_float_bits, parse_int, parse_items, parse_key, parse_members, parse_str, span_at,
    str_header_at,
};
use crate::encode::{
    array_header, encoding, float_wire, int_wire, items_wire, map_header, members_wire,
    str_header, str_wire,
};
use crate::error::DecodeError;
use crate::ext::{byte_code, code_byte, ext_doc, ext_header, ext_wire};
use crate::ieee::{float_bits, float_text, is_float_numeral};
use crate::numeral::{
    in_wire_range, integer_text, integer_value, is_integer_numeral, law_decimal_is_numeral,
    law_integer_text_is_numeral, law_numeral_is_integer_text, lemma_integer_text_len,
    lemma_numeral_is_ascii,
};
use crate::time::{read_timestamp, timestamp_doc};
use crate::value::{has_key, key_index, keys_distinct, lemma_first_key, put, Doc};

verus! {

/// Where two parts stand one behind the other, each stands in its place.
pub proof fn lemma_occurs_split(bytes: Seq<u8>, pos: int, a: Seq<u8>, b: Seq<u8>)
    requires
        occurs_at(bytes, pos, a + b),
    ensures
        occurs_at(bytes, pos, a),
        occurs_at(bytes, pos + a.len(), b),
{
    let whole = bytes.subrange(pos, pos + (a + b).len());
    assert(bytes.subrange(pos, pos + a.len()) =~= whole.subrange(0, a.len() as int));
    assert(whole.subrange(0, a.len() as int) =~= a);
    assert(bytes.subrange(pos + a.len(), pos + a.len() + b.len()) =~= whole.subrange(
        a.len() as int,
        (a + b).len() as int,
    ));
    assert(whole.subrange(a.len() as int, (a + b).len() as int) =~= b);
}

/// The first byte of a part that stands in the buffer.
proof fn lemma_occurs_first(bytes: Seq<u8>, pos: int, part: Seq<u8>)
    requires
        occurs_at(bytes, pos, part),
        part.len() >= 1,
    ensures
        pos < bytes.len(),
        bytes[pos] == part[0],
{
    assert(bytes.subrange(pos, pos + part.len())[0] == bytes[pos]);
}

/// The second byte of a part that stands in the buffer.
proof fn lemma_occurs_second(bytes: Seq<u8>, pos: int, part: Seq<u8>)
    requires
        occurs_at(bytes, pos, part),
        part.len() >= 2,
    ensures
        pos + 1 < bytes.len(),
        bytes[pos + 1] == part[1],
{
    assert(bytes.subrange(pos, pos + part.len())[1] == bytes[pos + 1]);
}

/// Decoding inverts the encoding of an integer.
pub proof fn law_int_round_trip(n: int, bytes: Seq<u8>, pos: int)
    requires
        in_wire_range(n),
        occurs_at(bytes, pos, int_wire(n)),
    ensures
        parse_int(bytes, pos) == Ok::<(int, int), DecodeError>((n, pos + int_wire(n).len())),
        family_of(bytes[pos]) == Family::Integer,
{
    let w = int_wire(n);
    lemma_occurs_first(bytes, pos, w);
    if 0 <= n <= 0x7f {
    } else if -32 <= n < 0 {
    } else if 0 <= n <= 0xff {
        lemma_occurs_second(bytes, pos, w);
    } else if 0 <= n <= 0xffff {
        lemma_occurs_split(bytes, pos, seq![0xcdu8], be16(n as u16));
        law_be16_round_trip(bytes, pos + 1, n as u16);
    } else if 0 <= n <= 0xffff_ffff {
        lemma_occurs_split(bytes, pos, seq![0xceu8], be32(n as u32));
        law_be32_round_trip(bytes, pos + 1, n as u32);
    } else if 0 <= n {
        lemma_occurs_split(bytes, pos, seq![0xcfu8], be64(n as u64));
        law_be64_round_trip(bytes, pos + 1, n as u64);
    } else if -0x80 <= n {
        lemma_occurs_second(bytes, pos, w);
    } else if -0x8000 <= n {
        lemma_occurs_split(bytes, pos, seq![0xd1u8], be16((n + 0x1_0000) as u16));
        law_be16_round_trip(bytes, pos + 1, (n + 0x1_0000) as u16);
    } else if -0x8000_0000 <= n {
        lemma_occurs_split(bytes, pos, seq![0xd2u8], be32((n + 0x1_0000_0000) as u32));
        law_be32_round_trip(bytes, pos + 1, (n + 0x1_0000_0000) as u32);
    } else {
        lemma_occurs_split(
            bytes,
            pos,
            seq![0xd3u8],
            be64((n + 0x1_0000_0000_0000_0000) as u64),
        );
        law_be64_round_trip(bytes, pos + 1, (n + 0x1_0000_0000_0000_0000) as u64);
    }
}

/// Decoding inverts the encoding of a double.
pub proof fn law_float_round_trip(bits: u64, bytes: Seq<u8>, pos: int)
    requires
        occurs_at(bytes, pos, float_wire(bits)),
    ensures
        parse_float_bits(bytes, pos) == Ok::<(u64, int), DecodeError>(
            (bits, pos + float_wire(bits).len()),
        ),
        family_of(bytes[pos]) == Family::Float,
{
    lemma_occurs_first(bytes, pos, float_wire(bits));
    lemma_occurs_split(bytes, pos, seq![0xcbu8], be64(bits));
    law_be64_round_trip(bytes, pos + 1, bits);
}

/// Reading a length field inverts writing it.
proof fn lemma_length_16(len: nat, tag: u8, bytes: Seq<u8>, pos: int)
    requires
        len <= 0xffff,
        occurs_at(bytes, pos, seq![tag] + be16(len as u16)),
    ensures
        bytes[pos] == tag,
        length_at(bytes, pos, 2) == Ok::<(nat, int), DecodeError>((len, pos + 3)),
{
    lemma_occurs_first(bytes, pos, seq![tag] + be16(len as u16));
    lemma_occurs_split(bytes, pos, seq![tag], be16(len as u16));
    law_be16_round_trip(bytes, pos + 1, len as u16);
}

/// Reading a length field inverts writing it.
proof fn lemma_length_32(len: nat, tag: u8, bytes: Seq<u8>, pos: int)
    requires
        len <= 0xffff_ffff,
        occurs_at(bytes, pos, seq![tag] + be32(len as u32)),
    ensures
        bytes[pos] == tag,
        length_at(bytes, pos, 4) == Ok::<(nat, int), DecodeError>((len, pos + 5)),
{
    lemma_occurs_first(bytes, pos, seq![tag] + be32(len as u32));
    lemma_occurs_split(bytes, pos, seq![tag], be32(len as u32));
    law_be32_round_trip(bytes, pos + 1, len as u32);
}

/// Reading a length field inverts writing it.
proof fn lemma_length_8(len: nat, tag: u8, bytes: Seq<u8>, pos: int)
    requires
        len <= 0xff,
        occurs_at(bytes, pos, seq![tag, len as u8]),
    ensures
        bytes[pos] == tag,
        length_at(bytes, pos, 1) == Ok::<(nat, int), DecodeError>((len, pos + 2)),
{
    lemma_occurs_first(bytes, pos, seq![tag, len as u8]);
    lemma_occurs_second(bytes, pos, seq![tag, len as u8]);
}

/// Reading the header of a string inverts writing it.
proof fn lemma_str_header(len: nat, bytes: Seq<u8>, pos: int)
    requires
        len <= 0xffff_ffff,
        occurs_at(bytes, pos, str_header(len)),
    ensures
        str_header_at(bytes, pos) == Ok::<(nat, int), DecodeError>(
            (len, pos + str_header(len).len()),
        ),
        family_of(bytes[pos]) == Family::Str,
{
    if len <= 31 {
        lemma_occurs_first(bytes, pos, str_header(len));
    } else if len <= 0xff {
        lemma_length_8(len, 0xd9, bytes, pos);
    } else if len <= 0xffff {
        lemma_length_16(len, 0xda, bytes, pos);
    } else {
        lemma_length_32(len, 0xdb, bytes, pos);
    }
}

/// Decoding inverts the encoding of a string.
pub proof fn law_str_round_trip(text: Seq<char>, bytes: Seq<u8>, pos: int)
    requires
        encode_utf8(text).len() <= 0xffff_ffff,
        occurs_at(bytes, pos, str_wire(text)),
    ensures
        parse_str(bytes, pos) == Ok::<(Seq<char>, int), DecodeError>(
            (text, pos + str_wire(text).len()),
        ),
        family_of(bytes[pos]) == Family::Str,
{
    let payload = encode_utf8(text);
    let header = str_header(payload.len());
    lemma_occurs_split(bytes, pos, header, payload);
    lemma_str_header(payload.len(), bytes, pos);
    vstd::utf8::encode_utf8_valid_utf8(text);
    vstd::utf8::encode_utf8_decode_utf8(text);
    let at = pos + header.len();
    assert(span_at(bytes, at, payload.len()) == Ok::<(Seq<u8>, int), DecodeError>(
        (payload, at + payload.len()),
    ));
}

/// Decoding inverts the encoding of a blob.
pub proof fn law_bin_round_trip(data: Seq<u8>, bytes: Seq<u8>, pos: int)
    requires
        data.len() <= 0xffff_ffff,
        occurs_at(bytes, pos, bin_wire(data)),
    ensures
        parse_bin(bytes, pos) == Ok::<(Seq<u8>, int), DecodeError>(
            (data, pos + bin_wire(data).len()),
        ),
        family_of(bytes[pos]) == Family::Bin,
{
    let header = bin_header(data.len());
    lemma_occurs_split(bytes, pos, header, data);
    if data.len() <= 0xff {
        lemma_length_8(data.len(), 0xc4, bytes, pos);
    } else if data.len() <= 0xffff {
        lemma_length_16(data.len(), 0xc5, bytes, pos);
    } else {
        lemma_length_32(data.len(), 0xc6, bytes, pos);
    }
}

/// Decoding inverts the encoding of an extension item.
pub proof fn law_ext_round_trip(code: int, data: Seq<u8>, bytes: Seq<u8>, pos: int)
    requires
        -128 <= code <= 127,
        data.len() <= 0xffff_ffff,
        occurs_at(bytes, pos, ext_wire(code, data)),
    ensures
        parse_ext(bytes, pos) == Ok::<((int, Seq<u8>), int), DecodeError>(
            ((code, data), pos + ext_wire(code, data).len()),
        ),
        family_of(bytes[pos]) == Family::Ext,
{
    let header = ext_header(data.len());
    let len = data.len();
    assert(ext_wire(code, data) =~= header + (seq![code_byte(code)] + data));
    lemma_occurs_split(bytes, pos, header, seq![code_byte(code)] + data);
    let at = pos + header.len();
    lemma_occurs_split(bytes, at, seq![code_byte(code)], data);
    lemma_occurs_first(bytes, at, seq![code_byte(code)]);
    assert(byte_code(code_byte(code)) == code);
    if len == 1 || len == 2 || len == 4 || len == 8 || len == 16 {
        lemma_occurs_first(bytes, pos, header);
    } else if len <= 0xff {
        lemma_length_8(len, 0xc7, bytes, pos);
    } else if len <= 0xffff {
        lemma_length_16(len, 0xc8, bytes, pos);
    } else {
        lemma_length_32(len, 0xc9, bytes, pos);
    }
}

/// Reading the header of an array inverts writing it.
proof fn lemma_array_header(count: nat, bytes: Seq<u8>, pos: int)
    requires
        count <= 0xffff_ffff,
        occurs_at(bytes, pos, array_header(count)),
    ensures
        count_at(bytes, pos) == Ok::<(nat, int), DecodeError>(
            (count, pos + array_header(count).len()),
        ),
        family_of(bytes[pos]) == Family::Array,
{
    if count <= 15 {
        lemma_occurs_first(bytes, pos, array_header(count));
    } else if count <= 0xffff {
        lemma_length_16(count, 0xdc, bytes, pos);
    } else {
        lemma_length_32(count, 0xdd, bytes, pos);
    }
}

/// Reading the header of a map inverts writing it.
proof fn lemma_map_header(count: nat, bytes: Seq<u8>, pos: int)
    requires
        count <= 0xffff_ffff,
        occurs_at(bytes, pos, map_header(count)),
    ensures
        count_at(bytes, pos) == Ok::<(nat, int), DecodeError>(
            (count, pos + map_header(count).len()),
        ),
        family_of(bytes[pos]) == Family::Mapping,
{
    if count <= 15 {
        lemma_occurs_first(bytes, pos, map_header(count));
    } else if count <= 0xffff {
        lemma_length_16(count, 0xde, bytes, pos);
    } else {
        lemma_length_32(count, 0xdf, bytes, pos);
    }
}

/// Every wire form has a format byte.
pub proof fn lemma_wire_nonempty(doc: Doc)
    ensures
        doc.wire().len() >= 1,
{
}

/// The wire forms of `n` items have `n` bytes at least.
proof fn lemma_items_wire_len(items: Seq<Doc>, n: nat)
    requires
        n <= items.len(),
    ensures
        items_wire(items, n).len() >= n,
    decreases n,
{
    if n > 0 {
        lemma_items_wire_len(items, (n - 1) as nat);
        lemma_wire_nonempty(items[n - 1]);
    }
}

/// The wire forms of `n` members have two bytes each at least.
proof fn lemma_members_wire_len(members: Seq<(Seq<char>, Doc)>, n: nat)
    requires
        n <= members.len(),
    ensures
        members_wire(members, n).len() >= 2 * n,
    decreases n,
{
    if n > 0 {
        lemma_members_wire_len(members, (n - 1) as nat);
        lemma_wire_nonempty(members[n - 1].1);
        assert(str_wire(members[n - 1].0).len() >= 1);
    }
}

/// Each item stands behind the items before it.
proof fn lemma_item_occurs(items: Seq<Doc>, n: nat, k: nat, bytes: Seq<u8>, start: int)
    requires
        k < n <= items.len(),
        occurs_at(bytes, start, items_wire(items, n)),
    ensures
        occurs_at(bytes, start + items_wire(items, k).len(), items[k as int].wire()),
        occurs_at(bytes, start, items_wire(items, k)),
    decreases n,
{
    lemma_occurs_split(bytes, start, items_wire(items, (n - 1) as nat), items[n - 1].wire());
    if k < n - 1 {
        lemma_item_occurs(items, (n - 1) as nat, k, bytes, start);
    }
}

/// Each member stands behind the members before it: its key, then its value.
proof fn lemma_member_occurs(
    members: Seq<(Seq<char>, Doc)>,
    n: nat,
    k: nat,
    bytes: Seq<u8>,
    start: int,
)
    requires
        k < n <= members.len(),
        occurs_at(bytes, start, members_wire(members, n)),
    ensures
        occurs_at(bytes, start + members_wire(members, k).len(), str_wire(members[k as int].0)),
        occurs_at(
            bytes,
            start + members_wire(members, k).len() + str_wire(members[k as int].0).len(),
            members[k as int].1.wire(),
        ),
    decreases n,
{
    let before = members_wire(members, (n - 1) as nat);
    let key = str_wire(members[n - 1].0);
    let value = members[n - 1].1.wire();
    lemma_occurs_split(bytes, start, before + key, value);
    lemma_occurs_split(bytes, start, before, key);
    if k < n - 1 {
        lemma_member_occurs(members, (n - 1) as nat, k, bytes, start);
    }
}

/// Putting a key that the members do not hold adds it at the end.
proof fn lemma_put_fresh(members: Seq<(Seq<char>, Doc)>, k: int)
    requires
        0 <= k < members.len(),
        keys_distinct(members),
    ensures
        put(members.take(k), members[k].0, members[k].1) == members.take(k + 1),
{
    let head = members.take(k);
    let key = members[k].0;
    if has_key(head, key) {
        let i = choose|i: int| 0 <= i < head.len() && (#[trigger] head[i]).0 == key;
        assert(head[i] == members[i]);
        assert(members[i].0 != members[k].0);
    }
    assert(head.push(members[k]) =~= members.take(k + 1));
}

/// Decoding inverts encoding: where the wire form of a tree stands in a
/// buffer, parsing at that place gives the tree back and ends behind it.
/// This holds of every tree that has a wire form, holds no key twice in
/// one object, and nests no deeper than the limit.
pub proof fn law_parse_inverts_wire(doc: Doc, bytes: Seq<u8>, pos: int, depth: nat)
    requires
        doc.encodable(),
        doc.keys_unique(),
        doc.nests_within(depth),
        occurs_at(bytes, pos, doc.wire()),
    ensures
        parse(bytes, pos, depth) == Ok::<(Doc, int), DecodeError>((doc, pos + doc.wire().len())),
    decreases doc, 0nat,
{
    match doc {
        Doc::Null => {
            lemma_occurs_first(bytes, pos, doc.wire());
        },
        Doc::Bool(b) => {
            lemma_occurs_first(bytes, pos, doc.wire());
        },
        Doc::Number(t) => {
            if is_integer_numeral(t) {
                crate::ieee::lemma_float_text_is_no_integer(float_bits(t));
                law_int_round_trip(integer_value(t), bytes, pos);
                law_numeral_is_integer_text(t);
            } else {
                law_float_round_trip(float_bits(t), bytes, pos);
            }
        },
        Doc::Text(s) => {
            law_str_round_trip(s, bytes, pos);
        },
        Doc::Array(items) => {
            let header = array_header(items.len());
            let body = items_wire(items, items.len());
            lemma_occurs_split(bytes, pos, header, body);
            lemma_array_header(items.len(), bytes, pos);
            lemma_items_wire_len(items, items.len());
            let at = pos + header.len();
            lemma_parse_items(items, 0, bytes, at, (depth - 1) as nat);
            assert(items.take(0) =~= Seq::<Doc>::empty());
        },
        Doc::Object(members) => {
            let header = map_header(members.len());
            let body = members_wire(members, members.len());
            lemma_occurs_split(bytes, pos, header, body);
            lemma_map_header(members.len(), bytes, pos);
            lemma_members_wire_len(members, members.len());
            let at = pos + header.len();
            lemma_parse_members(members, 0, bytes, at, (depth - 1) as nat);
            assert(members.take(0) =~= Seq::<(Seq<char>, Doc)>::empty());
        },
    }
}

/// Parsing the items of an array from the `k`th on gives the array back.
proof fn lemma_parse_items(items: Seq<Doc>, k: nat, bytes: Seq<u8>, start: int, depth: nat)
    requires
        k <= items.len(),
        forall|i: int|
            0 <= i < items.len() ==> (#[trigger] items[i]).encodable() && items[i].keys_unique()
                && items[i].nests_within(depth),
        occurs_at(bytes, start, items_wire(items, items.len())),
    ensures
        parse_items(
            bytes,
            start + items_wire(items, k).len(),
            (items.len() - k) as nat,
            depth,
            items.take(k as int),
        ) == Ok::<(Seq<Doc>, int), DecodeError>(
            (items, start + items_wire(items, items.len()).len()),
        ),
    decreases items, items.len() - k,
{
    if k == items.len() {
        assert(items.take(k as int) =~= items);
    } else {
        lemma_item_occurs(items, items.len(), k, bytes, start);
        law_parse_inverts_wire(items[k as int], bytes, start + items_wire(items, k).len(), depth);
        lemma_parse_items(items, k + 1, bytes, start, depth);
        assert(items.take(k as int).push(items[k as int]) =~= items.take(k as int + 1));
    }
}

/// Parsing the members of an object from the `k`th on gives the object back.
proof fn lemma_parse_members(
    members: Seq<(Seq<char>, Doc)>,
    k: nat,
    bytes: Seq<u8>,
    start: int,
    depth: nat,
)
    requires
        k <= members.len(),
        keys_distinct(members),
        forall|i: int|
            0 <= i < members.len() ==> encode_utf8((#[trigger] members[i]).0).len()
                <= 0xffff_ffff && members[i].1.encodable() && members[i].1.keys_unique()
                && members[i].1.nests_within(depth),
        occurs_at(bytes, start, members_wire(members, members.len())),
    ensures
        parse_members(
            bytes,
            start + members_wire(members, k).len(),
            (members.len() - k) as nat,
            depth,
            members.take(k as int),
        ) == Ok::<(Seq<(Seq<char>, Doc)>, int), DecodeError>(
            (members, start + members_wire(members, members.len()).len()),
        ),
    decreases members, members.len() - k,
{
    if k == members.len() {
        assert(members.take(k as int) =~= members);
    } else {
        let key_at = start + members_wire(members, k).len();
        let key = members[k as int].0;
        let value_at = key_at + str_wire(key).len();
        lemma_member_occurs(members, members.len(), k, bytes, start);
        law_str_round_trip(key, bytes, key_at);
        assert(parse_key(bytes, key_at) == Ok::<(Seq<char>, int), DecodeError>((key, value_at)));
        law_parse_inverts_wire(members[k as int].1, bytes, value_at, depth);
        lemma_put_fresh(members, k as int);
        lemma_parse_members(members, k + 1, bytes, start, depth);
    }
}

/// The members of a tree that the decoder may build: no key twice, every
/// key short enough for the wire, every value with unique keys and a wire
/// form.
pub open spec fn members_well_formed(members: Seq<(Seq<char>, Doc)>) -> bool {
    &&& keys_distinct(members)
    &&& forall|i: int|
        0 <= i < members.len() ==> encode_utf8((#[trigger] members[i]).0).len() <= 0xffff_ffff
            && members[i].1.encodable() && members[i].1.keys_unique()
}

/// Putting a well-formed member into well-formed members leaves them so,
/// and adds one member at most.
proof fn lemma_put_well_formed(members: Seq<(Seq<char>, Doc)>, key: Seq<char>, doc: Doc)
    requires
        members_well_formed(members),
        encode_utf8(key).len() <= 0xffff_ffff,
        doc.encodable(),
        doc.keys_unique(),
    ensures
        members_well_formed(put(members, key, doc)),
        put(members, key, doc).len() <= members.len() + 1,
{
    let after = put(members, key, doc);
    if has_key(members, key) {
        lemma_first_key(members, key);
        let at = key_index(members, key);
        assert forall|i: int, j: int| 0 <= i < j < after.len() implies (#[trigger] after[i]).0 != (
        #[trigger] after[j]).0 by {
            assert(members[i].0 != members[j].0);
        }
    } else {
        assert forall|i: int, j: int| 0 <= i < j < after.len() implies (#[trigger] after[i]).0 != (
        #[trigger] after[j]).0 by {
            if j == members.len() {
                assert(members[i].0 != key);
            } else {
                assert(members[i].0 != members[j].0);
            }
        }
    }
}

/// The tree that stands for a blob has a wire form.
proof fn lemma_bytes_docs_well_formed(data: Seq<u8>)
    requires
        data.len() <= 0xffff_ffff,
    ensures
        Doc::Array(bytes_docs(data)).encodable(),
        Doc::Array(bytes_docs(data)).keys_unique(),
{
    let items = bytes_docs(data);
    assert forall|i: int| 0 <= i < items.len() implies (#[trigger] items[i]).encodable()
        && items[i].keys_unique() by {
        law_decimal_is_numeral(data[i] as nat);
    }
}

/// A short ASCII key is short enough for the wire.
proof fn lemma_ascii_key(key: Seq<char>)
    requires
        vstd::utf8::is_ascii_chars(key),
        key.len() <= 0xffff_ffff,
    ensures
        encode_utf8(key).len() <= 0xffff_ffff,
{
    vstd::utf8::is_ascii_chars_encode_utf8(key);
}

/// The tree that stands for an extension item has unique keys and a wire
/// form.
proof fn lemma_extension_doc_well_formed(code: int, data: Seq<u8>)
    requires
        -128 <= code <= 127,
        data.len() <= 0xffff_ffff,
    ensures
        extension_doc(code, data).encodable(),
        extension_doc(code, data).keys_unique(),
{
    reveal_strlit("seconds");
    reveal_strlit("nanoseconds");
    reveal_strlit("type");
    reveal_strlit("data");
    lemma_ascii_key("seconds"@);
    lemma_ascii_key("nanoseconds"@);
    lemma_ascii_key("type"@);
    lemma_ascii_key("data"@);
    assert("seconds"@.len() != "nanoseconds"@.len());
    assert("type"@[0] != "data"@[0]);
    lemma_bytes_docs_well_formed(data);
    law_integer_text_is_numeral(code);
    if code == -1 && read_timestamp(data) is Some {
        let stamp = read_timestamp(data)->Some_0;
        assert(-0x8000_0000_0000_0000 <= stamp.0 <= 0x7fff_ffff_ffff_ffff);
        assert(stamp.1 < 1_000_000_000);
        law_integer_text_is_numeral(stamp.0);
        law_integer_text_is_numeral(stamp.1 as int);
        let members = timestamp_doc(stamp.0, stamp.1)->Object_0;
        assert(extension_doc(code, data) == Doc::Object(members));
        assert(members.len() == 2);
        assert(members[0] == ("seconds"@, Doc::Number(integer_text(stamp.0))));
        assert(members[1] == ("nanoseconds"@, Doc::Number(integer_text(stamp.1 as int))));
        assert(keys_distinct(members));
        assert forall|i: int| 0 <= i < members.len() implies encode_utf8(
            (#[trigger] members[i]).0,
        ).len() <= 0xffff_ffff && members[i].1.encodable() && members[i].1.keys_unique() by {
            if i == 0 {
            } else {
                assert(i == 1);
            }
        }
    } else {
        let members = ext_doc(code, data)->Object_0;
        assert(extension_doc(code, data) == Doc::Object(members));
        assert(members.len() == 2);
        assert(members[0] == ("type"@, Doc::Number(integer_text(code))));
        assert(members[1] == ("data"@, Doc::Array(bytes_docs(data))));
        assert(keys_distinct(members));
        assert forall|i: int| 0 <= i < members.len() implies encode_utf8(
            (#[trigger] members[i]).0,
        ).len() <= 0xffff_ffff && members[i].1.encodable() && members[i].1.keys_unique() by {
            if i == 0 {
            } else {
                assert(i == 1);
            }
        }
    }
}

/// What the decoder builds is well formed: no object of it holds a key
/// twice, and it has a wire form. The item it was built from ends within
/// the buffer.
pub proof fn law_parsed_is_well_formed(bytes: Seq<u8>, pos: int, depth: nat)
    requires
        parse(bytes, pos, depth) is Ok,
    ensures
        parse(bytes, pos, depth)->Ok_0.0.keys_unique(),
        parse(bytes, pos, depth)->Ok_0.0.encodable(),
        pos < parse(bytes, pos, depth)->Ok_0.1 <= bytes.len(),
    decreases depth, 0nat,
{
    let tag = bytes[pos];
    match family_of(tag) {
        Family::Integer => {
            let n = parse_int(bytes, pos)->Ok_0.0;
            law_integer_text_is_numeral(n);
        },
        Family::Float => {
            let bits = parse_float_bits(bytes, pos)->Ok_0.0;
            if crate::ieee::is_canonical(bits) {
                assert(is_float_numeral(float_text(bits)));
            } else {
                assert(float_text(bits) == float_text(0x7ff8_0000_0000_0000u64));
                assert(crate::ieee::is_canonical(0x7ff8_0000_0000_0000u64));
                assert(is_float_numeral(float_text(0x7ff8_0000_0000_0000u64)));
            }
        },
        Family::Str => {
            lemma_parsed_str(bytes, pos);
        },
        Family::Bin => {
            lemma_bytes_docs_well_formed(parse_bin(bytes, pos)->Ok_0.0);
        },
        Family::Ext => {
            let ext = parse_ext(bytes, pos)->Ok_0.0;
            lemma_extension_doc_well_formed(ext.0, ext.1);
        },
        Family::Array => {
            let header = count_at(bytes, pos)->Ok_0;
            lemma_parsed_items(bytes, header.1, header.0, (depth - 1) as nat, Seq::empty());
        },
        Family::Mapping => {
            let header = count_at(bytes, pos)->Ok_0;
            assert(keys_distinct(Seq::<(Seq<char>, Doc)>::empty()));
            lemma_parsed_members(bytes, header.1, header.0, (depth - 1) as nat, Seq::empty());
        },
        _ => {},
    }
}

/// The text of a decoded string is short enough for the wire.
proof fn lemma_parsed_str(bytes: Seq<u8>, pos: int)
    requires
        parse_str(bytes, pos) is Ok,
    ensures
        encode_utf8(parse_str(bytes, pos)->Ok_0.0).len() <= 0xffff_ffff,
        pos < parse_str(bytes, pos)->Ok_0.1 <= bytes.len(),
{
    let header = str_header_at(bytes, pos)->Ok_0;
    let payload = bytes.subrange(header.1, header.1 + header.0);
    vstd::utf8::decode_utf8_encode_utf8(payload);
}

/// The key that the decoder reads is short enough for the wire.
proof fn lemma_parsed_key(bytes: Seq<u8>, pos: int)
    requires
        parse_key(bytes, pos) is Ok,
    ensures
        encode_utf8(parse_key(bytes, pos)->Ok_0.0).len() <= 0xffff_ffff,
        pos < parse_key(bytes, pos)->Ok_0.1 <= bytes.len(),
{
    if family_of(bytes[pos]) == Family::Str {
        lemma_parsed_str(bytes, pos);
    } else {
        let n = parse_int(bytes, pos)->Ok_0.0;
        law_integer_text_is_numeral(n);
        lemma_numeral_is_ascii(integer_text(n));
        lemma_integer_text_len(n);
        lemma_ascii_key(integer_text(n));
    }
}

/// The items that the decoder reads are well formed.
proof fn lemma_parsed_items(bytes: Seq<u8>, pos: int, count: nat, depth: nat, read: Seq<Doc>)
    requires
        parse_items(bytes, pos, count, depth, read) is Ok,
        0 <= pos <= bytes.len(),
        forall|i: int|
            0 <= i < read.len() ==> (#[trigger] read[i]).encodable() && read[i].keys_unique(),
    ensures
        ({
            let (items, next) = parse_items(bytes, pos, count, depth, read)->Ok_0;
            &&& items.len() == read.len() + count
            &&& pos <= next <= bytes.len()
            &&& forall|i: int|
                0 <= i < items.len() ==> (#[trigger] items[i]).encodable()
                    && items[i].keys_unique()
        }),
    decreases depth, count + 1,
{
    if count > 0 {
        law_parsed_is_well_formed(bytes, pos, depth);
        let (doc, next) = parse(bytes, pos, depth)->Ok_0;
        let more = read.push(doc);
        assert forall|i: int| 0 <= i < more.len() implies (#[trigger] more[i]).encodable()
            && more[i].keys_unique() by {
            if i < read.len() {
                assert(more[i] == read[i]);
            }
        }
        lemma_parsed_items(bytes, next, (count - 1) as nat, depth, more);
    }
}

/// The members that the decoder reads are well formed.
proof fn lemma_parsed_members(
    bytes: Seq<u8>,
    pos: int,
    count: nat,
    depth: nat,
    read: Seq<(Seq<char>, Doc)>,
)
    requires
        parse_members(bytes, pos, count, depth, read) is Ok,
        0 <= pos <= bytes.len(),
        members_well_formed(read),
    ensures
        ({
            let (members, next) = parse_members(bytes, pos, count, depth, read)->Ok_0;
            &&& members.len() <= read.len() + count
            &&& pos <= next <= bytes.len()
            &&& members_well_formed(members)
        }),
    decreases depth, count + 1,
{
    if count > 0 {
        lemma_parsed_key(bytes, pos);
        let (key, at) = parse_key(bytes, pos)->Ok_0;
        law_parsed_is_well_formed(bytes, at, depth);
        let (doc, next) = parse(bytes, at, depth)->Ok_0;
        lemma_put_well_formed(read, key, doc);
        lemma_parsed_members(bytes, next, (count - 1) as nat, depth, put(read, key, doc));
    }
}

/// A buffer that ends inside the number or the length field of its item
/// fails with `UnexpectedEof`, whatever the limit on nesting.
pub proof fn law_truncated_header_is_eof(bytes: Seq<u8>, depth: nat)
    requires
        bytes.len() >= 1,
        bytes.len() < 1 + header_width(bytes[0]),
    ensures
        decoding_within(bytes, depth) == Err::<Doc, DecodeError>(DecodeError::UnexpectedEof),
{
}

/// The empty buffer fails with `UnexpectedEof`.
pub proof fn law_empty_is_eof(depth: nat)
    ensures
        decoding_within(Seq::<u8>::empty(), depth) == Err::<Doc, DecodeError>(
            DecodeError::UnexpectedEof,
        ),
{
}

/// Round trip: decoding what a tree encodes to gives the tree back. This
/// holds of every tree that has a wire form, holds no key twice in one
/// object, and nests no deeper than the limit.
pub proof fn law_decoding_inverts_encoding(doc: Doc, depth: nat)
    requires
        doc.encodable(),
        doc.keys_unique(),
        doc.nests_within(depth),
    ensures
        encoding(doc) is Ok,
        decoding_within(encoding(doc)->Ok_0, depth) == Ok::<Doc, DecodeError>(doc),
{
    let bytes = doc.wire();
    assert(bytes.subrange(0, bytes.len() as int) =~= bytes);
    law_parse_inverts_wire(doc, bytes, 0, depth);
}

} // verus!
