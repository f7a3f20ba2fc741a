use rust_msgpack::decode::decode_to;
use rust_msgpack::encode::encode;
use rust_msgpack::error::{DecodeError, DecodeToError, EncodeError, Kind, TranscodeError};
use rust_msgpack::ext::Ext;
use rust_msgpack::time::Timestamp;
use rust_msgpack::transvalue::{
    field, from_value, join_field, join_index, kind_mismatch, kind_of, object_members,
    read_integer, FromValue, ToValue,
};
use rust_msgpack::value::Value;

fn number(text: &str) -> Value {
    Value::Number(text.to_string())
}

fn string(text: &str) -> Value {
    Value::String(text.to_string())
}

fn object(members: Vec<(&str, Value)>) -> Value {
    Value::Object(members.into_iter().map(|(k, v)| (k.to_string(), v)).collect())
}

fn mismatch(path: &str, expected: Kind, actual: Kind) -> TranscodeError {
    TranscodeError::FieldKindMismatch { path: path.to_string(), expected, actual }
}

#[derive(Debug, Default, PartialEq, Clone)]
struct Dict(Vec<(String, String)>);

impl ToValue for Dict {
    fn to_value(&self) -> Value {
        Value::Object(self.0.iter().map(|(k, v)| (k.clone(), v.to_value())).collect())
    }
}

impl FromValue for Dict {
    fn from_value_at(value: &Value, path: &str) -> Result<Self, TranscodeError> {
        let members = object_members(value, path)?;
        let mut out = Vec::new();
        for (key, item) in members {
            out.push((key.clone(), String::from_value_at(item, &join_field(path, key))?));
        }
        Ok(Dict(out))
    }
}

#[derive(Debug, Default, PartialEq, Clone)]
struct Sub {
    a: i32,
    b: bool,
    c: Dict,
}

impl ToValue for Sub {
    fn to_value(&self) -> Value {
        Value::Object(vec![
            ("a".to_string(), self.a.to_value()),
            ("b".to_string(), self.b.to_value()),
            ("c".to_string(), self.c.to_value()),
        ])
    }
}

impl FromValue for Sub {
    fn from_value_at(value: &Value, path: &str) -> Result<Self, TranscodeError> {
        let members = object_members(value, path)?;
        Ok(Sub {
            a: field(members, "a", path)?,
            b: field(members, "b", path)?,
            c: field(members, "c", path)?,
        })
    }
}

#[derive(Debug, Default, PartialEq, Clone)]
struct Student {
    name: String,
    age: i32,
    sub: Sub,
}

impl ToValue for Student {
    fn to_value(&self) -> Value {
        Value::Object(vec![
            ("name".to_string(), self.name.to_value()),
            ("age".to_string(), self.age.to_value()),
            ("sub".to_string(), self.sub.to_value()),
        ])
    }
}

impl FromValue for Student {
    fn from_value_at(value: &Value, path: &str) -> Result<Self, TranscodeError> {
        let members = object_members(value, path)?;
        Ok(Student {
            name: field(members, "name", path)?,
            age: field(members, "age", path)?,
            sub: field(members, "sub", path)?,
        })
    }
}

fn example() -> Student {
    Student { name: "a".to_string(), age: 1, sub: Sub { a: 0, b: false, c: Dict(vec![]) } }
}

#[test]
fn a_record_projects_to_the_object_of_its_fields() {
    assert_eq!(
        example().to_value(),
        object(vec![
            ("name", string("a")),
            ("age", number("1")),
            (
                "sub",
                object(vec![("a", number("0")), ("b", Value::Bool(false)), ("c", object(vec![]))]),
            ),
        ])
    );
    assert_eq!(
        example().to_value().render(),
        "{\"name\": \"a\", \"age\": 1, \"sub\": {\"a\": 0, \"b\": false, \"c\": {}}}"
    );
}

#[test]
fn a_record_round_trips_through_the_tree_and_the_wire() {
    let students = vec![
        example(),
        Student::default(),
        Student {
            name: "huangjian".to_string(),
            age: 10000,
            sub: Sub {
                a: 100,
                b: true,
                c: Dict(vec![("language".to_string(), "Rust".to_string())]),
            },
        },
        Student { name: "\u{2603}".to_string(), age: i32::MIN, sub: Sub { a: i32::MAX, b: true, c: Dict(vec![]) } },
    ];
    for student in students {
        assert_eq!(from_value::<Student>(&student.to_value()), Ok(student.clone()));
        let bytes = encode(&student).unwrap();
        assert_eq!(bytes, encode(&student).unwrap());
        assert_eq!(decode_to::<Student>(&bytes), Ok(student));
    }
    assert_eq!(
        encode(&example()).unwrap(),
        vec![
            0x83, 0xa4, b'n', b'a', b'm', b'e', 0xa1, b'a', 0xa3, b'a', b'g', b'e', 0x01, 0xa3,
            b's', b'u', b'b', 0x83, 0xa1, b'a', 0x00, 0xa1, b'b', 0xc2, 0xa1, b'c', 0x80,
        ]
    );
}

#[test]
fn a_missing_field_takes_its_default() {
    let only_name = object(vec![("name", string("n"))]);
    assert_eq!(
        from_value::<Student>(&only_name),
        Ok(Student { name: "n".to_string(), age: 0, sub: Sub::default() })
    );
    assert_eq!(from_value::<Student>(&object(vec![])), Ok(Student::default()));
    let partial_sub = object(vec![("sub", object(vec![("b", Value::Bool(true))]))]);
    assert_eq!(
        from_value::<Student>(&partial_sub),
        Ok(Student { name: String::new(), age: 0, sub: Sub { a: 0, b: true, c: Dict(vec![]) } })
    );
    let extra = object(vec![("age", number("3")), ("unknown", Value::Null)]);
    assert_eq!(
        from_value::<Student>(&extra),
        Ok(Student { name: String::new(), age: 3, sub: Sub::default() })
    );
    assert_eq!(decode_to::<Student>(&[0x81, 0xa3, b'a', b'g', b'e', 0x09]).map(|s| s.age), Ok(9));
    let members = vec![("x".to_string(), number("5"))];
    assert_eq!(field::<u8>(&members, "x", ""), Ok(5));
    assert_eq!(field::<u8>(&members, "y", ""), Ok(0));
    assert_eq!(field::<String>(&members, "y", ""), Ok(String::new()));
    assert_eq!(field::<Vec<u8>>(&members, "y", ""), Ok(vec![]));
    assert_eq!(field::<bool>(&members, "y", "p"), Ok(false));
    assert_eq!(from_value::<Timestamp>(&object(vec![])), Ok(Timestamp { seconds: 0, nanoseconds: 0 }));
    assert_eq!(
        from_value::<Timestamp>(&object(vec![("seconds", number("12"))])),
        Ok(Timestamp { seconds: 12, nanoseconds: 0 })
    );
}

#[test]
fn a_value_of_another_kind_fails_with_its_path() {
    assert_eq!(
        from_value::<Student>(&Value::Array(vec![])),
        Err(mismatch("", Kind::Object, Kind::Array))
    );
    assert_eq!(
        from_value::<Student>(&object(vec![("name", number("1"))])),
        Err(mismatch("name", Kind::String, Kind::Number))
    );
    assert_eq!(
        from_value::<Student>(&object(vec![("sub", Value::Null)])),
        Err(mismatch("sub", Kind::Object, Kind::Null))
    );
    assert_eq!(
        from_value::<Student>(&object(vec![("sub", object(vec![("b", string("yes"))]))])),
        Err(mismatch("sub.b", Kind::Bool, Kind::String))
    );
    assert_eq!(
        from_value::<Student>(&object(vec![(
            "sub",
            object(vec![("c", object(vec![("k", Value::Bool(true))]))])
        )])),
        Err(mismatch("sub.c.k", Kind::String, Kind::Bool))
    );
    assert_eq!(
        from_value::<Vec<bool>>(&Value::Array(vec![Value::Bool(true), Value::Null])),
        Err(mismatch("[1]", Kind::Bool, Kind::Null))
    );
    assert_eq!(
        Vec::<Vec<u8>>::from_value_at(
            &Value::Array(vec![Value::Array(vec![]), Value::Array(vec![number("1"), object(vec![])])]),
            "grid"
        ),
        Err(mismatch("grid[1][1]", Kind::Number, Kind::Object))
    );
    assert_eq!(from_value::<bool>(&number("1")), Err(mismatch("", Kind::Bool, Kind::Number)));
    assert_eq!(from_value::<String>(&Value::Bool(true)), Err(mismatch("", Kind::String, Kind::Bool)));
    assert_eq!(from_value::<Vec<u8>>(&string("x")), Err(mismatch("", Kind::Array, Kind::String)));
    assert_eq!(from_value::<i64>(&Value::Null), Err(mismatch("", Kind::Number, Kind::Null)));
    assert_eq!(kind_mismatch(&Value::Null, "p.q", Kind::Array), mismatch("p.q", Kind::Array, Kind::Null));
    assert_eq!(kind_of(&object(vec![])), Kind::Object);
    assert_eq!(kind_of(&string("")), Kind::String);
}

#[test]
fn numbers_are_parsed_into_the_native_width() {
    assert_eq!(from_value::<i8>(&number("-128")), Ok(-128i8));
    assert_eq!(from_value::<i8>(&number("127")), Ok(127i8));
    assert_eq!(from_value::<i16>(&number("-32768")), Ok(i16::MIN));
    assert_eq!(from_value::<i32>(&number("2147483647")), Ok(i32::MAX));
    assert_eq!(from_value::<i64>(&number("-9223372036854775808")), Ok(i64::MIN));
    assert_eq!(from_value::<u8>(&number("255")), Ok(255u8));
    assert_eq!(from_value::<u16>(&number("65535")), Ok(u16::MAX));
    assert_eq!(from_value::<u32>(&number("4294967295")), Ok(u32::MAX));
    assert_eq!(from_value::<u64>(&number("18446744073709551615")), Ok(u64::MAX));
    let overflow = |path: &str| TranscodeError::NumberOverflow { path: path.to_string() };
    assert_eq!(from_value::<i8>(&number("128")), Err(overflow("")));
    assert_eq!(from_value::<i8>(&number("-129")), Err(overflow("")));
    assert_eq!(from_value::<i16>(&number("32768")), Err(overflow("")));
    assert_eq!(from_value::<i32>(&number("2147483648")), Err(overflow("")));
    assert_eq!(from_value::<i64>(&number("9223372036854775808")), Err(overflow("")));
    assert_eq!(from_value::<u8>(&number("256")), Err(overflow("")));
    assert_eq!(from_value::<u8>(&number("-1")), Err(overflow("")));
    assert_eq!(from_value::<u16>(&number("65536")), Err(overflow("")));
    assert_eq!(from_value::<u32>(&number("4294967296")), Err(overflow("")));
    assert_eq!(from_value::<u64>(&number("18446744073709551616")), Err(overflow("")));
    assert_eq!(from_value::<u64>(&number("-1")), Err(overflow("")));
    assert_eq!(
        from_value::<u64>(&number("340282366920938463463374607431768211456")),
        Err(overflow(""))
    );
    let nan = |path: &str| TranscodeError::NotANumber { path: path.to_string() };
    assert_eq!(from_value::<i32>(&number("abc")), Err(nan("")));
    assert_eq!(from_value::<i32>(&number("")), Err(nan("")));
    assert_eq!(from_value::<i32>(&number("01")), Err(nan("")));
    assert_eq!(from_value::<i32>(&number("1.5")), Err(nan("")));
    assert_eq!(from_value::<i32>(&number("0x1.8000000000000p0")), Err(nan("")));
    assert_eq!(
        from_value::<Student>(&object(vec![("age", number("99999999999"))])),
        Err(overflow("age"))
    );
    assert_eq!(
        from_value::<Student>(&object(vec![("sub", object(vec![("a", number("x"))]))])),
        Err(nan("sub.a"))
    );
    assert_eq!(read_integer(&number("5"), "p", 0, 10), Ok(5));
    assert_eq!(read_integer(&number("11"), "p", 0, 10), Err(overflow("p")));
    assert_eq!(read_integer(&number("-1"), "p", 0, 10), Err(overflow("p")));
    assert_eq!(read_integer(&number("ten"), "p", 0, 10), Err(nan("p")));
    assert_eq!(read_integer(&string("5"), "p", 0, 10), Err(mismatch("p", Kind::Number, Kind::String)));
}

#[test]
fn natives_project_and_come_back() {
    assert_eq!(true.to_value(), Value::Bool(true));
    assert_eq!(from_value::<bool>(&false.to_value()), Ok(false));
    assert_eq!((-7i8).to_value(), number("-7"));
    assert_eq!(40000u16.to_value(), number("40000"));
    assert_eq!(i64::MIN.to_value(), number("-9223372036854775808"));
    assert_eq!(u64::MAX.to_value(), number("18446744073709551615"));
    for n in [i32::MIN, -1, 0, 1, i32::MAX] {
        assert_eq!(from_value::<i32>(&n.to_value()), Ok(n));
    }
    for n in [0u64, 1, u64::MAX] {
        assert_eq!(from_value::<u64>(&n.to_value()), Ok(n));
    }
    for n in [i16::MIN, i16::MAX] {
        assert_eq!(from_value::<i16>(&n.to_value()), Ok(n));
    }
    for n in [0u32, u32::MAX] {
        assert_eq!(from_value::<u32>(&n.to_value()), Ok(n));
    }
    let text = "text with \u{1f600}".to_string();
    assert_eq!(text.to_value(), string("text with \u{1f600}"));
    assert_eq!(from_value::<String>(&text.to_value()), Ok(text));
    let list = vec![vec![1u8, 2], vec![], vec![255]];
    assert_eq!(
        list.to_value(),
        Value::Array(vec![
            Value::Array(vec![number("1"), number("2")]),
            Value::Array(vec![]),
            Value::Array(vec![number("255")]),
        ])
    );
    assert_eq!(from_value::<Vec<Vec<u8>>>(&list.to_value()), Ok(list));
    let tree = object(vec![("k", Value::Array(vec![Value::Null]))]);
    assert_eq!(tree.to_value(), tree);
    assert_eq!(from_value::<Value>(&tree), Ok(tree.clone()));
    let stamp = Timestamp { seconds: -3, nanoseconds: 17 };
    assert_eq!(
        stamp.to_value(),
        object(vec![("seconds", number("-3")), ("nanoseconds", number("17"))])
    );
    assert_eq!(from_value::<Timestamp>(&stamp.to_value()), Ok(stamp));
    let ext = Ext { code: -9, data: vec![0, 1, 254] };
    assert_eq!(
        ext.to_value(),
        object(vec![
            ("type", number("-9")),
            ("data", Value::Array(vec![number("0"), number("1"), number("254")])),
        ])
    );
    let back = from_value::<Ext>(&ext.to_value()).unwrap();
    assert_eq!((back.code, back.data), (-9, vec![0, 1, 254]));
    assert_eq!(
        from_value::<Ext>(&object(vec![("type", number("200"))])).map(|e| e.code),
        Err(TranscodeError::NumberOverflow { path: "type".to_string() })
    );
    assert_eq!(
        Ext::from_value_at(&object(vec![("data", Value::Array(vec![number("256")]))]), "x")
            .map(|e| e.code),
        Err(TranscodeError::NumberOverflow { path: "x.data[0]".to_string() })
    );
}

#[test]
fn paths_are_joined_with_dots_and_brackets() {
    assert_eq!(join_field("", "a"), "a");
    assert_eq!(join_field("a", "b"), "a.b");
    assert_eq!(join_field("a.b", ""), "a.b.");
    assert_eq!(join_index("", 0), "[0]");
    assert_eq!(join_index("a", 12), "a[12]");
    assert_eq!(join_field(&join_index("a", 3), "b"), "a[3].b");
}

#[test]
fn decoding_into_a_native_value_reports_either_failure() {
    assert_eq!(decode_to::<bool>(&[0xc3]), Ok(true));
    assert_eq!(decode_to::<u8>(&[0xcc, 0xff]), Ok(255));
    assert_eq!(decode_to::<String>(&[0xa1, b'z']), Ok("z".to_string()));
    assert_eq!(decode_to::<Vec<i32>>(&[0x92, 0x01, 0xff]), Ok(vec![1, -1]));
    assert_eq!(decode_to::<bool>(&[]), Err(DecodeToError::Decode(DecodeError::UnexpectedEof)));
    assert_eq!(decode_to::<bool>(&[0xc1]), Err(DecodeToError::Decode(DecodeError::InvalidTypeTag)));
    assert_eq!(
        decode_to::<bool>(&[0xc0]),
        Err(DecodeToError::Transcode(mismatch("", Kind::Bool, Kind::Null)))
    );
    assert_eq!(
        decode_to::<u8>(&[0xcd, 0x01, 0x00]),
        Err(DecodeToError::Transcode(TranscodeError::NumberOverflow { path: String::new() }))
    );
    assert_eq!(
        decode_to::<Timestamp>(&[0xd6, 0xff, 0, 0, 0, 5]),
        Ok(Timestamp { seconds: 5, nanoseconds: 0 })
    );
    assert_eq!(encode(&true), Ok(vec![0xc3]));
    assert_eq!(encode(&300u16), Ok(vec![0xcd, 0x01, 0x2c]));
    assert_eq!(encode(&vec![1u8, 2]), Ok(vec![0x92, 0x01, 0x02]));
    assert_eq!(encode(&Value::Number("no".to_string())), Err(EncodeError::ValueTooLarge));
}
