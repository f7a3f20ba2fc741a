use rust_msgpack::binary::{bytes_value, encode_bin};
use rust_msgpack::decode::{
    decode_at, decode_bin, decode_ext, decode_float_bits, decode_int, decode_str,
    decode_to_value, decode_with_depth, DEFAULT_MAX_DEPTH,
};
use rust_msgpack::encode::{
    encode_array_header, encode_bool, encode_float_bits, encode_i64, encode_into,
    encode_map_header, encode_nil, encode_single_bits, encode_str, encode_str_bytes, encode_u64,
    encode_value,
};
use rust_msgpack::error::{DecodeError, EncodeError};
use rust_msgpack::ext::{encode_ext, ext_value, Ext};
use rust_msgpack::time::{
    decode_timestamp, encode_timestamp, timestamp_from_payload, timestamp_value, Timestamp,
};
use rust_msgpack::value::Value;

fn number(text: &str) -> Value {
    Value::Number(text.to_string())
}

fn string(text: &str) -> Value {
    Value::String(text.to_string())
}

fn object(members: Vec<(&str, Value)>) -> Value {
    Value::Object(members.into_iter().map(|(k, v)| (k.to_string(), v)).collect())
}

fn encoded(value: &Value) -> Vec<u8> {
    encode_value(value).unwrap()
}

#[test]
fn lib_it_works() {
    assert_eq!(2 + 2, 4);
}

#[test]
fn nil_and_booleans() {
    assert_eq!(encoded(&Value::Null), vec![0xc0]);
    assert_eq!(encoded(&Value::Bool(false)), vec![0xc2]);
    assert_eq!(encoded(&Value::Bool(true)), vec![0xc3]);
    let mut out = vec![0x01];
    encode_nil(&mut out);
    encode_bool(&mut out, true);
    assert_eq!(out, vec![0x01, 0xc0, 0xc3]);
    assert_eq!(decode_to_value(&[0xc0]), Ok(Value::Null));
    assert_eq!(decode_to_value(&[0xc2]), Ok(Value::Bool(false)));
    assert_eq!(decode_to_value(&[0xc3]), Ok(Value::Bool(true)));
}

#[test]
fn unsigned_integers_take_the_smallest_format() {
    assert_eq!(encoded(&number("0")), vec![0x00]);
    assert_eq!(encoded(&number("127")), vec![0x7f]);
    assert_eq!(encoded(&number("128")), vec![0xcc, 0x80]);
    assert_eq!(encoded(&number("255")), vec![0xcc, 0xff]);
    assert_eq!(encoded(&number("256")), vec![0xcd, 0x01, 0x00]);
    assert_eq!(encoded(&number("65535")), vec![0xcd, 0xff, 0xff]);
    assert_eq!(encoded(&number("65536")), vec![0xce, 0x00, 0x01, 0x00, 0x00]);
    assert_eq!(encoded(&number("4294967295")), vec![0xce, 0xff, 0xff, 0xff, 0xff]);
    assert_eq!(
        encoded(&number("4294967296")),
        vec![0xcf, 0x00, 0x00, 0x00, 0x01, 0x00, 0x00, 0x00, 0x00]
    );
    assert_eq!(
        encoded(&number("18446744073709551615")),
        vec![0xcf, 0xff, 0xff, 0xff, 0xff, 0xff, 0xff, 0xff, 0xff]
    );
    assert_eq!(
        encoded(&number("81985529216486895")),
        vec![0xcf, 0x01, 0x23, 0x45, 0x67, 0x89, 0xab, 0xcd, 0xef]
    );
}

#[test]
fn signed_integers_take_the_smallest_format() {
    assert_eq!(encoded(&number("-1")), vec![0xff]);
    assert_eq!(encoded(&number("-32")), vec![0xe0]);
    assert_eq!(encoded(&number("-33")), vec![0xd0, 0xdf]);
    assert_eq!(encoded(&number("-128")), vec![0xd0, 0x80]);
    assert_eq!(encoded(&number("-129")), vec![0xd1, 0xff, 0x7f]);
    assert_eq!(encoded(&number("-32768")), vec![0xd1, 0x80, 0x00]);
    assert_eq!(encoded(&number("-32769")), vec![0xd2, 0xff, 0xff, 0x7f, 0xff]);
    assert_eq!(encoded(&number("-2147483648")), vec![0xd2, 0x80, 0x00, 0x00, 0x00]);
    assert_eq!(
        encoded(&number("-2147483649")),
        vec![0xd3, 0xff, 0xff, 0xff, 0xff, 0x7f, 0xff, 0xff, 0xff]
    );
    assert_eq!(
        encoded(&number("-9223372036854775808")),
        vec![0xd3, 0x80, 0x00, 0x00, 0x00, 0x00, 0x00, 0x00, 0x00]
    );
}

#[test]
fn integer_entry_points_agree_with_the_value_encoder() {
    for n in [0u64, 1, 127, 128, 255, 256, 65535, 65536, 4294967295, 4294967296, u64::MAX] {
        let mut out = Vec::new();
        encode_u64(&mut out, n);
        assert_eq!(out, encoded(&number(&n.to_string())));
    }
    for n in [0i64, 5, -1, -32, -33, -128, -129, -32768, -32769, i64::MIN, i64::MAX] {
        let mut out = Vec::new();
        encode_i64(&mut out, n);
        assert_eq!(out, encoded(&number(&n.to_string())));
    }
}

#[test]
fn numbers_without_a_wire_form_are_too_large() {
    for text in ["", "-", "+1", "007", "-0", "-01", "1e5", "1.5", "abc", "12a", " 1", "१"] {
        assert_eq!(encode_value(&number(text)), Err(EncodeError::ValueTooLarge), "{:?}", text);
    }
    assert_eq!(encode_value(&number("18446744073709551616")), Err(EncodeError::ValueTooLarge));
    assert_eq!(encode_value(&number("-9223372036854775809")), Err(EncodeError::ValueTooLarge));
    assert_eq!(
        encode_value(&number("99999999999999999999999999999999999999999999")),
        Err(EncodeError::ValueTooLarge)
    );
    let nested = Value::Array(vec![number("1"), object(vec![("k", number("x"))])]);
    assert_eq!(encode_value(&nested), Err(EncodeError::ValueTooLarge));
}

#[test]
fn a_failed_encoding_keeps_what_was_written_before() {
    let mut out = vec![0xaa, 0xbb];
    let bad = Value::Array(vec![number("1"), number("nope")]);
    assert_eq!(encode_into(&mut out, &bad), Err(EncodeError::ValueTooLarge));
    assert_eq!(&out[..2], &[0xaa, 0xbb]);
    let mut out = vec![0xaa];
    assert_eq!(encode_into(&mut out, &number("7")), Ok(()));
    assert_eq!(out, vec![0xaa, 0x07]);
}

#[test]
fn strings_take_the_smallest_format() {
    assert_eq!(encoded(&string("")), vec![0xa0]);
    assert_eq!(encoded(&string("a")), vec![0xa1, 0x61]);
    assert_eq!(encoded(&string("é")), vec![0xa2, 0xc3, 0xa9]);
    let s31 = "x".repeat(31);
    let e = encoded(&string(&s31));
    assert_eq!(e[0], 0xbf);
    assert_eq!(e.len(), 32);
    let s32 = "x".repeat(32);
    let e = encoded(&string(&s32));
    assert_eq!(&e[..2], &[0xd9, 0x20]);
    assert_eq!(e.len(), 34);
    let s255 = "x".repeat(255);
    let e = encoded(&string(&s255));
    assert_eq!(&e[..2], &[0xd9, 0xff]);
    let s256 = "x".repeat(256);
    let e = encoded(&string(&s256));
    assert_eq!(&e[..3], &[0xda, 0x01, 0x00]);
    assert_eq!(e.len(), 259);
    let s65535 = "x".repeat(65535);
    let e = encoded(&string(&s65535));
    assert_eq!(&e[..3], &[0xda, 0xff, 0xff]);
    let s65536 = "x".repeat(65536);
    let e = encoded(&string(&s65536));
    assert_eq!(&e[..5], &[0xdb, 0x00, 0x01, 0x00, 0x00]);
    assert_eq!(e.len(), 65541);
    assert_eq!(decode_to_value(&e), Ok(string(&s65536)));
    let mut out = Vec::new();
    assert_eq!(encode_str(&mut out, "hi"), Ok(()));
    assert_eq!(out, vec![0xa2, b'h', b'i']);
}

#[test]
fn bytes_are_encoded_as_a_string_only_where_they_spell_text() {
    let mut out = vec![0x00];
    assert_eq!(encode_str_bytes(&mut out, b"hi"), Ok(()));
    assert_eq!(out, vec![0x00, 0xa2, b'h', b'i']);
    assert_eq!(encode_str_bytes(&mut out, "\u{e9}\u{2603}".as_bytes()), Ok(()));
    assert_eq!(out, vec![0x00, 0xa2, b'h', b'i', 0xa5, 0xc3, 0xa9, 0xe2, 0x98, 0x83]);
    let before = out.clone();
    for bad in [&[0xffu8][..], &[0xc3], &[0xc3, 0x28], &[0xe2, 0x98], &[0xed, 0xa0, 0x80], &[0xc0, 0x80], &[0xf4, 0x90, 0x80, 0x80]] {
        assert_eq!(encode_str_bytes(&mut out, bad), Err(EncodeError::InvalidUtf8));
        assert_eq!(out, before);
    }
    let mut out = Vec::new();
    assert_eq!(encode_str_bytes(&mut out, &[]), Ok(()));
    assert_eq!(out, vec![0xa0]);
}

#[test]
fn arrays_and_maps_take_the_smallest_format() {
    assert_eq!(encoded(&Value::Array(vec![])), vec![0x90]);
    assert_eq!(encoded(&object(vec![])), vec![0x80]);
    assert_eq!(
        encoded(&Value::Array(vec![number("1"), Value::Null, string("a")])),
        vec![0x93, 0x01, 0xc0, 0xa1, 0x61]
    );
    let a15 = Value::Array(vec![Value::Null; 15]);
    assert_eq!(encoded(&a15)[0], 0x9f);
    let a16 = Value::Array(vec![Value::Null; 16]);
    assert_eq!(&encoded(&a16)[..3], &[0xdc, 0x00, 0x10]);
    let a65536 = Value::Array(vec![Value::Null; 65536]);
    let e = encoded(&a65536);
    assert_eq!(&e[..5], &[0xdd, 0x00, 0x01, 0x00, 0x00]);
    assert_eq!(e.len(), 5 + 65536);
    assert_eq!(decode_to_value(&e), Ok(a65536));
    let m16 = Value::Object((0..16).map(|i| (format!("k{}", i), Value::Null)).collect());
    let e = encoded(&m16);
    assert_eq!(&e[..3], &[0xde, 0x00, 0x10]);
    assert_eq!(decode_to_value(&e), Ok(m16));
    let mut out = Vec::new();
    assert_eq!(encode_array_header(&mut out, 3), Ok(()));
    assert_eq!(encode_map_header(&mut out, 70000), Ok(()));
    assert_eq!(out, vec![0x93, 0xdf, 0x00, 0x01, 0x11, 0x70]);
}

#[test]
fn a_string_and_a_blob_of_the_same_bytes_differ() {
    for len in [0usize, 1, 31, 32, 255, 256, 65535, 65536] {
        let text = "a".repeat(len);
        let mut as_str = Vec::new();
        encode_str(&mut as_str, &text).unwrap();
        let mut as_bin = Vec::new();
        encode_bin(&mut as_bin, text.as_bytes()).unwrap();
        assert_ne!(as_str[0], as_bin[0]);
        assert!(as_bin[0] >= 0xc4 && as_bin[0] <= 0xc6);
        assert!(as_str[0] & 0xe0 == 0xa0 || (0xd9..=0xdb).contains(&as_str[0]));
        assert_eq!(&as_str[as_str.len() - len..], &as_bin[as_bin.len() - len..]);
    }
}

#[test]
fn blobs() {
    let mut out = Vec::new();
    encode_bin(&mut out, &[]).unwrap();
    assert_eq!(out, vec![0xc4, 0x00]);
    let mut out = Vec::new();
    encode_bin(&mut out, &[1, 2, 3]).unwrap();
    assert_eq!(out, vec![0xc4, 0x03, 1, 2, 3]);
    assert_eq!(decode_bin(&out, 0), Ok((vec![1, 2, 3], 5)));
    assert_eq!(
        decode_to_value(&out),
        Ok(Value::Array(vec![number("1"), number("2"), number("3")]))
    );
    assert_eq!(bytes_value(&[0, 255]), Value::Array(vec![number("0"), number("255")]));
    let big = vec![7u8; 256];
    let mut out = Vec::new();
    encode_bin(&mut out, &big).unwrap();
    assert_eq!(&out[..3], &[0xc5, 0x01, 0x00]);
    assert_eq!(decode_bin(&out, 0), Ok((big, 259)));
    let huge = vec![9u8; 65536];
    let mut out = Vec::new();
    encode_bin(&mut out, &huge).unwrap();
    assert_eq!(&out[..5], &[0xc6, 0x00, 0x01, 0x00, 0x00]);
    assert_eq!(decode_bin(&out, 0), Ok((huge, 65541)));
    assert_eq!(decode_bin(&[0xa0], 0), Err(DecodeError::InvalidTypeTag));
    assert_eq!(decode_bin(&[0xc4, 0x02, 0x01], 0), Err(DecodeError::UnexpectedEof));
}

#[test]
fn extension_items() {
    let cases: Vec<(usize, Vec<u8>)> = vec![
        (1, vec![0xd4]),
        (2, vec![0xd5]),
        (4, vec![0xd6]),
        (8, vec![0xd7]),
        (16, vec![0xd8]),
        (0, vec![0xc7, 0x00]),
        (3, vec![0xc7, 0x03]),
        (17, vec![0xc7, 0x11]),
        (255, vec![0xc7, 0xff]),
        (256, vec![0xc8, 0x01, 0x00]),
        (65536, vec![0xc9, 0x00, 0x01, 0x00, 0x00]),
    ];
    for (len, header) in cases {
        let data = vec![0x5a; len];
        let mut out = Vec::new();
        encode_ext(&mut out, 5, &data).unwrap();
        let mut expected = header.clone();
        expected.push(0x05);
        expected.extend_from_slice(&data);
        assert_eq!(out, expected, "length {}", len);
        let (ext, next) = decode_ext(&out, 0).unwrap();
        assert_eq!(ext.code, 5);
        assert_eq!(ext.data, data);
        assert_eq!(next, out.len());
    }
    let mut out = Vec::new();
    encode_ext(&mut out, -128, &[1]).unwrap();
    assert_eq!(out, vec![0xd4, 0x80, 0x01]);
    let (ext, _) = decode_ext(&out, 0).unwrap();
    assert_eq!(ext.code, -128);
    assert_eq!(
        decode_to_value(&[0xd5, 0x07, 0x01, 0x02]),
        Ok(object(vec![
            ("type", number("7")),
            ("data", Value::Array(vec![number("1"), number("2")])),
        ]))
    );
    assert_eq!(ext_value(-3, &[9]), object(vec![
        ("type", number("-3")),
        ("data", Value::Array(vec![number("9")])),
    ]));
    assert_eq!(decode_ext(&[0xd6, 0x01, 0x00], 0).map(|_| ()), Err(DecodeError::UnexpectedEof));
    assert_eq!(decode_ext(&[0xc7], 0).map(|_| ()), Err(DecodeError::UnexpectedEof));
    assert_eq!(decode_ext(&[0xc0], 0).map(|_| ()), Err(DecodeError::InvalidTypeTag));
    let e = Ext { code: 1, data: vec![] };
    assert_eq!(e.code, 1);
}

#[test]
fn timestamps_take_the_shortest_form() {
    let stamp = |seconds: i64, nanoseconds: u32| Timestamp { seconds, nanoseconds };
    let wire = |ts: Timestamp| {
        let mut out = Vec::new();
        encode_timestamp(&mut out, &ts).unwrap();
        out
    };
    assert_eq!(wire(stamp(0, 0)), vec![0xd6, 0xff, 0, 0, 0, 0]);
    assert_eq!(wire(stamp(1, 0)), vec![0xd6, 0xff, 0, 0, 0, 1]);
    assert_eq!(wire(stamp(0xffff_ffff, 0)), vec![0xd6, 0xff, 0xff, 0xff, 0xff, 0xff]);
    assert_eq!(wire(stamp(0x1_0000_0000, 0)), vec![0xd7, 0xff, 0, 0, 0, 1, 0, 0, 0, 0]);
    assert_eq!(wire(stamp(1, 1)), vec![0xd7, 0xff, 0, 0, 0, 4, 0, 0, 0, 1]);
    assert_eq!(
        wire(stamp(0x3_ffff_ffff, 999_999_999)),
        vec![0xd7, 0xff, 0xee, 0x6b, 0x27, 0xff, 0xff, 0xff, 0xff, 0xff]
    );
    assert_eq!(
        wire(stamp(0x4_0000_0000, 5)),
        vec![0xc7, 12, 0xff, 0, 0, 0, 5, 0, 0, 0, 4, 0, 0, 0, 0]
    );
    assert_eq!(
        wire(stamp(-1, 0)),
        vec![0xc7, 12, 0xff, 0, 0, 0, 0, 0xff, 0xff, 0xff, 0xff, 0xff, 0xff, 0xff, 0xff]
    );
    assert_eq!(
        wire(stamp(i64::MIN, 1)),
        vec![0xc7, 12, 0xff, 0, 0, 0, 1, 0x80, 0, 0, 0, 0, 0, 0, 0]
    );
    let mut out = vec![0x01];
    assert_eq!(
        encode_timestamp(&mut out, &stamp(0, 1_000_000_000)),
        Err(EncodeError::ValueTooLarge)
    );
    assert_eq!(out, vec![0x01]);
    assert!(stamp(0, 999_999_999).is_valid());
    assert!(!stamp(0, 1_000_000_000).is_valid());
}

#[test]
fn timestamps_round_trip() {
    let samples = [
        (0i64, 0u32),
        (1, 0),
        (0xffff_ffff, 0),
        (0x1_0000_0000, 0),
        (1, 1),
        (0x3_ffff_ffff, 999_999_999),
        (0x4_0000_0000, 0),
        (0x4_0000_0000, 7),
        (-1, 0),
        (-1, 999_999_999),
        (i64::MIN, 0),
        (i64::MAX, 999_999_999),
        (1_700_000_000, 123_456_789),
    ];
    for (seconds, nanoseconds) in samples {
        let ts = Timestamp { seconds, nanoseconds };
        let mut out = Vec::new();
        encode_timestamp(&mut out, &ts).unwrap();
        let expected_len = if nanoseconds == 0 && (0..=0xffff_ffff).contains(&seconds) {
            6
        } else if (0..0x4_0000_0000).contains(&seconds) {
            10
        } else {
            15
        };
        assert_eq!(out.len(), expected_len);
        assert_eq!(decode_timestamp(&out, 0), Ok((ts, out.len())));
        assert_eq!(decode_to_value(&out), Ok(timestamp_value(&ts)));
    }
    assert_eq!(
        timestamp_value(&Timestamp { seconds: -5, nanoseconds: 6 }),
        object(vec![("seconds", number("-5")), ("nanoseconds", number("6"))])
    );
}

#[test]
fn payloads_that_hold_no_timestamp() {
    assert_eq!(timestamp_from_payload(&[]), None);
    assert_eq!(timestamp_from_payload(&[0, 0, 0]), None);
    assert_eq!(timestamp_from_payload(&[0; 5]), None);
    assert_eq!(
        timestamp_from_payload(&[0, 0, 0, 9]),
        Some(Timestamp { seconds: 9, nanoseconds: 0 })
    );
    assert_eq!(timestamp_from_payload(&[0xff; 8]), None);
    assert_eq!(
        timestamp_from_payload(&[0xee, 0x6b, 0x27, 0xff, 0xff, 0xff, 0xff, 0xff]),
        Some(Timestamp { seconds: 0x3_ffff_ffff, nanoseconds: 999_999_999 })
    );
    assert_eq!(timestamp_from_payload(&[0xee, 0x6b, 0x28, 0x00, 0, 0, 0, 0]), None);
    assert_eq!(
        timestamp_from_payload(&[0x3b, 0x9a, 0xca, 0x00, 0, 0, 0, 0, 0, 0, 0, 0]),
        None
    );
    assert_eq!(
        timestamp_from_payload(&[0x3b, 0x9a, 0xc9, 0xff, 0xff, 0xff, 0xff, 0xff, 0xff, 0xff, 0xff, 0xfe]),
        Some(Timestamp { seconds: -2, nanoseconds: 999_999_999 })
    );
    assert_eq!(decode_timestamp(&[0xd6, 0x01, 0, 0, 0, 1], 0), Err(DecodeError::InvalidTypeTag));
    assert_eq!(decode_timestamp(&[0xd4, 0xff, 0], 0), Err(DecodeError::InvalidTypeTag));
    assert_eq!(decode_timestamp(&[0xd6, 0xff, 0, 0], 0), Err(DecodeError::UnexpectedEof));
    assert_eq!(decode_timestamp(&[0xc0], 0), Err(DecodeError::InvalidTypeTag));
    assert_eq!(
        decode_to_value(&[0xd4, 0xff, 0x2a]),
        Ok(object(vec![("type", number("-1")), ("data", Value::Array(vec![number("42")]))]))
    );
}

#[test]
fn integers_decode_from_every_format() {
    assert_eq!(decode_int(&[0x00], 0), Ok((0, 1)));
    assert_eq!(decode_int(&[0x7f], 0), Ok((127, 1)));
    assert_eq!(decode_int(&[0xe0], 0), Ok((-32, 1)));
    assert_eq!(decode_int(&[0xff], 0), Ok((-1, 1)));
    assert_eq!(decode_int(&[0xcc, 0x05], 0), Ok((5, 2)));
    assert_eq!(decode_int(&[0xcc, 0xff], 0), Ok((255, 2)));
    assert_eq!(decode_int(&[0xcd, 0x00, 0x05], 0), Ok((5, 3)));
    assert_eq!(decode_int(&[0xcd, 0x12, 0x34], 0), Ok((0x1234, 3)));
    assert_eq!(decode_int(&[0xce, 0x12, 0x34, 0x56, 0x78], 0), Ok((0x12345678, 5)));
    assert_eq!(
        decode_int(&[0xcf, 0xff, 0xff, 0xff, 0xff, 0xff, 0xff, 0xff, 0xff], 0),
        Ok((u64::MAX as i128, 9))
    );
    assert_eq!(decode_int(&[0xd0, 0x7f], 0), Ok((127, 2)));
    assert_eq!(decode_int(&[0xd0, 0x80], 0), Ok((-128, 2)));
    assert_eq!(decode_int(&[0xd1, 0xff, 0xfe], 0), Ok((-2, 3)));
    assert_eq!(decode_int(&[0xd2, 0x80, 0x00, 0x00, 0x00], 0), Ok((-2147483648, 5)));
    assert_eq!(
        decode_int(&[0xd3, 0x80, 0, 0, 0, 0, 0, 0, 0], 0),
        Ok((i64::MIN as i128, 9))
    );
    assert_eq!(decode_int(&[0xd3, 0, 0, 0, 0, 0, 0, 0, 9], 0), Ok((9, 9)));
    assert_eq!(decode_int(&[0xc0, 0x05], 1), Ok((5, 2)));
    assert_eq!(decode_int(&[0xc0], 0), Err(DecodeError::InvalidTypeTag));
    assert_eq!(decode_int(&[0xcd, 0x00], 0), Err(DecodeError::UnexpectedEof));
    assert_eq!(decode_int(&[], 0), Err(DecodeError::UnexpectedEof));
    assert_eq!(decode_int(&[0x01], usize::MAX), Err(DecodeError::UnexpectedEof));
    assert_eq!(decode_to_value(&[0xd1, 0x00, 0x05]), Ok(number("5")));
    assert_eq!(decode_to_value(&[0xd3, 0xff, 0xff, 0xff, 0xff, 0xff, 0xff, 0xff, 0xff]), Ok(number("-1")));
}

#[test]
fn strings_decode_and_are_checked() {
    assert_eq!(decode_str(&[0xa0], 0), Ok((String::new(), 1)));
    assert_eq!(decode_str(&[0xa2, 0xc3, 0xa9], 0), Ok(("é".to_string(), 3)));
    assert_eq!(decode_str(&[0xd9, 0x01, 0x41], 0), Ok(("A".to_string(), 3)));
    assert_eq!(decode_str(&[0xda, 0x00, 0x01, 0x41], 0), Ok(("A".to_string(), 4)));
    assert_eq!(decode_str(&[0xdb, 0x00, 0x00, 0x00, 0x01, 0x41], 0), Ok(("A".to_string(), 6)));
    assert_eq!(
        decode_str(&[0xa4, 0xf0, 0x9f, 0x98, 0x80], 0),
        Ok(("\u{1f600}".to_string(), 5))
    );
    assert_eq!(decode_str(&[0xa1, 0xff], 0), Err(DecodeError::InvalidUtf8));
    assert_eq!(decode_str(&[0xa2, 0xc3, 0x28], 0), Err(DecodeError::InvalidUtf8));
    assert_eq!(decode_str(&[0xa3, 0xed, 0xa0, 0x80], 0), Err(DecodeError::InvalidUtf8));
    assert_eq!(decode_str(&[0xa2, 0xc0, 0x80], 0), Err(DecodeError::InvalidUtf8));
    assert_eq!(decode_str(&[0xa2, 0x61], 0), Err(DecodeError::UnexpectedEof));
    assert_eq!(decode_str(&[0xc4, 0x00], 0), Err(DecodeError::InvalidTypeTag));
    assert_eq!(decode_to_value(&[0xa1, 0x80]), Err(DecodeError::InvalidUtf8));
    assert_eq!(decode_to_value(&[0xa3, b'a', b'b', b'c']), Ok(string("abc")));
}

#[test]
fn every_decode_error_has_its_input() {
    assert_eq!(decode_to_value(&[]), Err(DecodeError::UnexpectedEof));
    assert_eq!(decode_to_value(&[0xc1]), Err(DecodeError::InvalidTypeTag));
    assert_eq!(decode_to_value(&[0xa1, 0xff]), Err(DecodeError::InvalidUtf8));
    assert_eq!(decode_to_value(&[0x91]), Err(DecodeError::LengthOverflow));
    assert_eq!(decode_to_value(&[0xdc, 0xff, 0xff, 0xc0]), Err(DecodeError::LengthOverflow));
    assert_eq!(decode_to_value(&[0x81, 0xa1]), Err(DecodeError::LengthOverflow));
    assert_eq!(decode_to_value(&[0x81, 0xa1, 0x61]), Err(DecodeError::UnexpectedEof));
    assert_eq!(decode_to_value(&[0x92, 0xa1, 0x61]), Err(DecodeError::UnexpectedEof));
    assert_eq!(decode_to_value(&[0x92, 0x01, 0xc1]), Err(DecodeError::InvalidTypeTag));
    assert_eq!(decode_with_depth(&[0x90], 0), Err(DecodeError::TooDeep));
    assert_eq!(decode_with_depth(&[0x80], 0), Err(DecodeError::TooDeep));
    assert_eq!(decode_with_depth(&[0x91, 0x90], 1), Err(DecodeError::TooDeep));
    assert_eq!(
        decode_with_depth(&[0x91, 0x90], 2),
        Ok(Value::Array(vec![Value::Array(vec![])]))
    );
    assert_eq!(decode_with_depth(&[0x01], 0), Ok(number("1")));
}

#[test]
fn a_buffer_cut_inside_a_length_field_is_an_unexpected_end() {
    assert_eq!(decode_to_value(&[0xda, 0x00]), Err(DecodeError::UnexpectedEof));
    for tag in [0xd9u8, 0xda, 0xdb, 0xc4, 0xc5, 0xc6, 0xc7, 0xc8, 0xc9, 0xdc, 0xdd, 0xde, 0xdf] {
        assert_eq!(decode_to_value(&[tag]), Err(DecodeError::UnexpectedEof), "{:#x}", tag);
    }
    for tag in [0xdau8, 0xdb, 0xc5, 0xc6, 0xc8, 0xc9, 0xdc, 0xdd, 0xde, 0xdf] {
        assert_eq!(decode_to_value(&[tag, 0x00]), Err(DecodeError::UnexpectedEof), "{:#x}", tag);
    }
    for tag in [0xdbu8, 0xc6, 0xc9, 0xdd, 0xdf] {
        assert_eq!(
            decode_to_value(&[tag, 0x00, 0x00, 0x01]),
            Err(DecodeError::UnexpectedEof),
            "{:#x}",
            tag
        );
    }
    for tag in [0xccu8, 0xcd, 0xce, 0xcf, 0xd0, 0xd1, 0xd2, 0xd3, 0xca, 0xcb] {
        assert_eq!(decode_to_value(&[tag]), Err(DecodeError::UnexpectedEof), "{:#x}", tag);
    }
    assert_eq!(decode_with_depth(&[0xdc, 0x00], 0), Err(DecodeError::UnexpectedEof));
}

#[test]
fn nesting_is_limited() {
    assert_eq!(DEFAULT_MAX_DEPTH, 128);
    let mut deep = vec![0x91u8; 128];
    deep.push(0xc0);
    let mut expected = Value::Null;
    for _ in 0..128 {
        expected = Value::Array(vec![expected]);
    }
    assert_eq!(decode_to_value(&deep), Ok(expected.clone()));
    assert_eq!(encoded(&expected), deep);
    let mut deeper = vec![0x91u8; 129];
    deeper.push(0xc0);
    assert_eq!(decode_to_value(&deeper), Err(DecodeError::TooDeep));
    assert_eq!(
        decode_with_depth(&deeper, 129),
        Ok(Value::Array(vec![expected]))
    );
    let hostile = vec![0x91u8; 100_000];
    assert_eq!(decode_to_value(&hostile), Err(DecodeError::TooDeep));
    let maps = vec![0x81u8, 0xa1, b'k', 0x81, 0xa1, b'k', 0xc0];
    assert_eq!(decode_with_depth(&maps, 1), Err(DecodeError::TooDeep));
    assert_eq!(
        decode_with_depth(&maps, 2),
        Ok(object(vec![("k", object(vec![("k", Value::Null)]))]))
    );
}

#[test]
fn map_keys_are_strings_or_integers() {
    assert_eq!(decode_to_value(&[0x81, 0x01, 0xc0]), Ok(object(vec![("1", Value::Null)])));
    assert_eq!(decode_to_value(&[0x81, 0xff, 0xc3]), Ok(object(vec![("-1", Value::Bool(true))])));
    assert_eq!(
        decode_to_value(&[0x81, 0xcd, 0x01, 0x00, 0x02]),
        Ok(object(vec![("256", number("2"))]))
    );
    for key in [0xc0u8, 0xc2, 0xc3, 0x90, 0x80] {
        assert_eq!(decode_to_value(&[0x81, key, 0xc0]), Err(DecodeError::InvalidTypeTag));
    }
    assert_eq!(decode_to_value(&[0x81, 0xc4, 0x00, 0xc0]), Err(DecodeError::InvalidTypeTag));
    assert_eq!(decode_to_value(&[0x81, 0xd4, 0x01, 0x00, 0xc0]), Err(DecodeError::InvalidTypeTag));
    assert_eq!(
        decode_to_value(&[0x81, 0xcb, 0, 0, 0, 0, 0, 0, 0, 0, 0xc0]),
        Err(DecodeError::InvalidTypeTag)
    );
    assert_eq!(decode_to_value(&[0x81, 0xc1, 0xc0]), Err(DecodeError::InvalidTypeTag));
}

#[test]
fn a_key_that_comes_again_replaces_its_value() {
    let bytes = [0x83, 0xa1, b'a', 0x01, 0xa1, b'b', 0x02, 0xa1, b'a', 0x03];
    let decoded = decode_to_value(&bytes).unwrap();
    match &decoded {
        Value::Object(members) => {
            assert_eq!(members.len(), 2);
            assert_eq!(members[0], ("a".to_string(), number("3")));
            assert_eq!(members[1], ("b".to_string(), number("2")));
        }
        other => panic!("not an object: {:?}", other),
    }
    let bytes = [0x82, 0x01, 0xc2, 0xa1, b'1', 0xc3];
    assert_eq!(decode_to_value(&bytes), Ok(object(vec![("1", Value::Bool(true))])));
}

#[test]
fn only_the_first_item_is_read() {
    assert_eq!(decode_to_value(&[0x01, 0x02, 0xc1]), Ok(number("1")));
    assert_eq!(decode_at(&[0x01, 0x02, 0xc1], 1, 4), Ok((number("2"), 2)));
    assert_eq!(decode_at(&[0x01, 0x02, 0xc1], 2, 4), Err(DecodeError::InvalidTypeTag));
    assert_eq!(decode_at(&[0x01, 0x02, 0xc1], 3, 4), Err(DecodeError::UnexpectedEof));
    assert_eq!(decode_at(&[0x92, 0x01, 0xa1, b'x', 0xff], 0, 1).map(|r| r.1), Ok(4));
}

#[test]
fn doubles_are_carried_by_their_bits() {
    let mut out = Vec::new();
    encode_float_bits(&mut out, 1.5f64.to_bits());
    assert_eq!(out, vec![0xcb, 0x3f, 0xf8, 0, 0, 0, 0, 0, 0]);
    assert_eq!(decode_float_bits(&out, 0), Ok((1.5f64.to_bits(), 9)));
    assert_eq!(decode_to_value(&out), Ok(number("0x1.8000000000000p0")));
    assert_eq!(encoded(&number("0x1.8000000000000p0")), out);
    let mut out = Vec::new();
    encode_single_bits(&mut out, 1.5f32.to_bits());
    assert_eq!(out, vec![0xca, 0x3f, 0xc0, 0, 0]);
    assert_eq!(decode_float_bits(&out, 0), Ok((1.5f64.to_bits(), 5)));
    assert_eq!(decode_to_value(&out), Ok(number("0x1.8000000000000p0")));
    assert_eq!(decode_float_bits(&[0xca, 0, 0, 0], 0), Err(DecodeError::UnexpectedEof));
    assert_eq!(decode_float_bits(&[0xcb, 0, 0, 0, 0, 0, 0, 0], 0), Err(DecodeError::UnexpectedEof));
    assert_eq!(decode_float_bits(&[0xc0], 0), Err(DecodeError::InvalidTypeTag));
    for x in [0.0f64, -0.0, 0.1, -2.5, 1e300, 5e-324, f64::MAX, f64::MIN_POSITIVE, f64::INFINITY, f64::NEG_INFINITY] {
        let mut wire = Vec::new();
        encode_float_bits(&mut wire, x.to_bits());
        let value = decode_to_value(&wire).unwrap();
        assert_eq!(encoded(&value), wire, "{}", x);
    }
    let mut wire = Vec::new();
    encode_float_bits(&mut wire, 0x7ff0_0000_0000_0001);
    assert_eq!(decode_to_value(&wire), Ok(number("NaN")));
    assert_eq!(encoded(&number("NaN")), vec![0xcb, 0x7f, 0xf8, 0, 0, 0, 0, 0, 0]);
    assert_eq!(encoded(&number("inf")), vec![0xcb, 0x7f, 0xf0, 0, 0, 0, 0, 0, 0]);
    assert_eq!(encoded(&number("-inf")), vec![0xcb, 0xff, 0xf0, 0, 0, 0, 0, 0, 0]);
}

#[test]
fn the_example_record() {
    let record = object(vec![
        ("name", string("a")),
        ("age", number("1")),
        (
            "sub",
            object(vec![("a", number("0")), ("b", Value::Bool(false)), ("c", object(vec![]))]),
        ),
    ]);
    let first = encoded(&record);
    let second = encoded(&record);
    assert_eq!(first, second);
    assert_eq!(
        first,
        vec![
            0x83, 0xa4, b'n', b'a', b'm', b'e', 0xa1, b'a', 0xa3, b'a', b'g', b'e', 0x01, 0xa3,
            b's', b'u', b'b', 0x83, 0xa1, b'a', 0x00, 0xa1, b'b', 0xc2, 0xa1, b'c', 0x80,
        ]
    );
    let decoded = decode_to_value(&first).unwrap();
    assert_eq!(
        decoded.render(),
        "{\"name\": \"a\", \"age\": 1, \"sub\": {\"a\": 0, \"b\": false, \"c\": {}}}"
    );
    assert_eq!(decoded, record);
    let reordered = object(vec![
        (
            "sub",
            object(vec![("c", object(vec![])), ("a", number("0")), ("b", Value::Bool(false))]),
        ),
        ("age", number("1")),
        ("name", string("a")),
    ]);
    assert_eq!(decoded, reordered);
    assert_eq!(decode_to_value(&encoded(&reordered)).unwrap(), record);
}

#[test]
fn values_round_trip() {
    let samples = vec![
        Value::Null,
        Value::Bool(true),
        number("0"),
        number("-1"),
        number("18446744073709551615"),
        number("-9223372036854775808"),
        number("0x1.999999999999ap-4"),
        number("-0x0.0000000000001p-1022"),
        string(""),
        string("snowman \u{2603} and more"),
        Value::Array(vec![]),
        object(vec![]),
        Value::Array(vec![number("1"), string("two"), Value::Array(vec![Value::Null])]),
        object(vec![
            ("list", Value::Array((0..40).map(|i| number(&(i * 1000).to_string())).collect())),
            ("nested", object(vec![("deep", object(vec![("deeper", Value::Bool(false))]))])),
            ("text", string(&"long ".repeat(100))),
            ("", Value::Null),
        ]),
    ];
    for value in samples {
        let bytes = encoded(&value);
        let back = decode_to_value(&bytes).unwrap();
        assert_eq!(back, value);
        assert_eq!(back.render(), value.render());
        assert_eq!(encoded(&back), bytes);
    }
}
