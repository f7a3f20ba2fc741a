//! The transcoding protocol: how a native value becomes a value tree, and a
//! value tree a native value.
//!
//! A field that an object does not hold is filled with the default of its
//! type. A value of another kind than the native type reads is a failure
//! that names the path of the field; so is a number that does not fit.

use vstd::prelude::*;
use vstd::string::*;
use crate::binary::bytes_docs;
use crate::error::{outcome, Fault, Kind, TranscodeError};
use crate::ext::{ext_doc, ext_value, Ext};
use crate::numeral::{
    decimal, format_integer, in_wire_range, integer_text, integer_value, is_integer_numeral,
    law_integer_text_is_numeral, parse_integer, Numeral,
};
use crate::time::{timestamp_doc, timestamp_value, Timestamp};
use crate::value::{
    docs_of, find_key, has_key, is_key_index, lemma_key_index_unique, members_of, value_of, Doc,
    Value,
};

verus! {

/// A native type that projects into the value tree.
pub trait ToValue {
    /// The tree that a native value projects to.
    open spec fn projection(&self) -> Doc {
        arbitrary()
    }

    /// Projects the native value into a tree of its own.
    fn to_value(&self) -> (v: Value)
        ensures
            v@ == self.projection(),
    ;
}

/// A native type that is rebuilt from the value tree.
pub trait FromValue: Sized {
    /// `out` is what rebuilding from the tree `doc`, which stands at
    /// `path`, may give.
    open spec fn reads(doc: Doc, path: Seq<char>, out: Result<Self, Fault>) -> bool {
        true
    }

    /// Rebuilds a native value from the tree that stands at `path`.
    fn from_value_at(value: &Value, path: &str) -> (r: Result<Self, TranscodeError>)
        ensures
            Self::reads(value@, path@, outcome(r)),
    ;
}

/// Rebuilding inverts projecting: from the tree that a native value
/// projects to, rebuilding never fails, and what it gives projects to the
/// same tree.
pub open spec fn inverts<T: ToValue + FromValue>() -> bool {
    forall|t: T, path: Seq<char>, out: Result<T, Fault>| #[trigger]
        T::reads(t.projection(), path, out) ==> (out matches Ok(u) && u.projection()
            == t.projection())
}

impl Doc {
    /// The variant of the tree.
    pub open spec fn kind(self) -> Kind {
        match self {
            Doc::Null => Kind::Null,
            Doc::Bool(_) => Kind::Bool,
            Doc::Number(_) => Kind::Number,
            Doc::Text(_) => Kind::String,
            Doc::Array(_) => Kind::Array,
            Doc::Object(_) => Kind::Object,
        }
    }
}

/// The variant of a value.
pub fn kind_of(value: &Value) -> (kind: Kind)
    ensures
        kind == value@.kind(),
{
    match value {
        Value::Null => Kind::Null,
        Value::Bool(_) => Kind::Bool,
        Value::Number(_) => Kind::Number,
        Value::String(_) => Kind::String,
        Value::Array(_) => Kind::Array,
        Value::Object(_) => Kind::Object,
    }
}

/// The failure of a tree that is of another kind than the one expected.
pub open spec fn mismatch(doc: Doc, path: Seq<char>, expected: Kind) -> Fault {
    Fault::FieldKindMismatch { path, expected, actual: doc.kind() }
}

/// The failure of a value that is of another kind than the one expected.
pub fn kind_mismatch(value: &Value, path: &str, expected: Kind) -> (e: TranscodeError)
    ensures
        e@ == mismatch(value@, path@, expected),
{
    TranscodeError::FieldKindMismatch {
        path: path.to_string(),
        expected,
        actual: kind_of(value),
    }
}

/// The path of a field: its name at the root, else the path of the value
/// that holds it, a dot and its name.
pub open spec fn field_path(path: Seq<char>, name: Seq<char>) -> Seq<char> {
    if path.len() == 0 {
        name
    } else {
        path + "."@ + name
    }
}

/// The path of an item of an array: the path of the array and the index in
/// square brackets.
pub open spec fn index_path(path: Seq<char>, index: nat) -> Seq<char> {
    path + "["@ + decimal(index) + "]"@
}

/// The path of a field.
pub fn join_field(path: &str, name: &str) -> (child: String)
    ensures
        child@ == field_path(path@, name@),
{
    if path.is_empty() {
        name.to_string()
    } else {
        let mut child = path.to_string();
        child.append(".");
        child.append(name);
        child
    }
}

/// The path of an item of an array.
pub fn join_index(path: &str, index: usize) -> (child: String)
    ensures
        child@ == index_path(path@, index as nat),
{
    let mut child = path.to_string();
    child.append("[");
    crate::numeral::push_decimal(&mut child, index as u128);
    child.append("]");
    child
}

/// What reading a tree as an integer between `lo` and `hi` gives.
pub open spec fn integer_reading(doc: Doc, path: Seq<char>, lo: int, hi: int) -> Result<
    int,
    Fault,
> {
    match doc {
        Doc::Number(t) => if !is_integer_numeral(t) {
            Err(Fault::NotANumber { path })
        } else if lo <= integer_value(t) <= hi {
            Ok(integer_value(t))
        } else {
            Err(Fault::NumberOverflow { path })
        },
        _ => Err(mismatch(doc, path, Kind::Number)),
    }
}

/// Reads a value as an integer between `lo` and `hi`.
pub fn read_integer(value: &Value, path: &str, lo: i128, hi: i128) -> (r: Result<
    i128,
    TranscodeError,
>)
    requires
        in_wire_range(lo as int),
        in_wire_range(hi as int),
    ensures
        match r {
            Ok(n) => integer_reading(value@, path@, lo as int, hi as int) == Ok::<int, Fault>(
                n as int,
            ),
            Err(e) => integer_reading(value@, path@, lo as int, hi as int) == Err::<int, Fault>(
                e@,
            ),
        },
{
    match value {
        Value::Number(text) => match parse_integer(text.as_str()) {
            Numeral::Integer(n) => if lo <= n && n <= hi {
                Ok(n)
            } else {
                Err(TranscodeError::NumberOverflow { path: path.to_string() })
            },
            Numeral::TooLarge => Err(TranscodeError::NumberOverflow { path: path.to_string() }),
            Numeral::Invalid => Err(TranscodeError::NotANumber { path: path.to_string() }),
        },
        _ => Err(kind_mismatch(value, path, Kind::Number)),
    }
}

/// Reading the canonical text of an integer gives the integer back, where
/// it lies between the bounds.
pub proof fn law_integer_reading_inverts(n: int, path: Seq<char>, lo: int, hi: int)
    requires
        lo <= n <= hi,
    ensures
        integer_reading(Doc::Number(integer_text(n)), path, lo, hi) == Ok::<int, Fault>(n),
{
    law_integer_text_is_numeral(n);
}

impl ToValue for bool {
    open spec fn projection(&self) -> Doc {
        Doc::Bool(*self)
    }

    fn to_value(&self) -> (v: Value) {
        Value::Bool(*self)
    }
}

impl FromValue for bool {
    open spec fn reads(doc: Doc, path: Seq<char>, out: Result<bool, Fault>) -> bool {
        out == (match doc {
            Doc::Bool(b) => Ok::<bool, Fault>(b),
            _ => Err(mismatch(doc, path, Kind::Bool)),
        })
    }

    fn from_value_at(value: &Value, path: &str) -> (r: Result<bool, TranscodeError>) {
        match value {
            Value::Bool(b) => Ok(*b),
            _ => Err(kind_mismatch(value, path, Kind::Bool)),
        }
    }
}

/// Rebuilding a boolean inverts projecting it.
pub proof fn law_bool_inverts()
    ensures
        inverts::<bool>(),
        forall|t: bool, path: Seq<char>, out: Result<bool, Fault>| #[trigger]
            bool::reads(t.projection(), path, out) ==> out == Ok::<bool, Fault>(t),
{
}

impl ToValue for String {
    open spec fn projection(&self) -> Doc {
        Doc::Text(self@)
    }

    fn to_value(&self) -> (v: Value) {
        Value::String(self.clone())
    }
}

impl FromValue for String {
    open spec fn reads(doc: Doc, path: Seq<char>, out: Result<String, Fault>) -> bool {
        match doc {
            Doc::Text(s) => out matches Ok(text) && text@ == s,
            _ => out == Err::<String, Fault>(mismatch(doc, path, Kind::String)),
        }
    }

    fn from_value_at(value: &Value, path: &str) -> (r: Result<String, TranscodeError>) {
        match value {
            Value::String(s) => Ok(s.clone()),
            _ => Err(kind_mismatch(value, path, Kind::String)),
        }
    }
}

/// Rebuilding a string inverts projecting it.
pub proof fn law_string_inverts()
    ensures
        inverts::<String>(),
{
}

impl ToValue for Value {
    open spec fn projection(&self) -> Doc {
        self@
    }

    fn to_value(&self) -> (v: Value) {
        self.clone()
    }
}

impl FromValue for Value {
    open spec fn reads(doc: Doc, path: Seq<char>, out: Result<Value, Fault>) -> bool {
        out matches Ok(v) && v@ == doc
    }

    fn from_value_at(value: &Value, path: &str) -> (r: Result<Value, TranscodeError>) {
        Ok(value.clone())
    }
}

/// Rebuilding a value tree as a value tree gives the same tree.
pub proof fn law_value_inverts()
    ensures
        inverts::<Value>(),
{
}

impl ToValue for i8 {
    open spec fn projection(&self) -> Doc {
        Doc::Number(integer_text(*self as int))
    }

    fn to_value(&self) -> (v: Value) {
        Value::Number(format_integer(*self as i128))
    }
}

impl FromValue for i8 {
    open spec fn reads(doc: Doc, path: Seq<char>, out: Result<i8, Fault>) -> bool {
        out == (match integer_reading(doc, path, -0x80, 0x7f) {
            Ok(n) => Ok::<i8, Fault>(n as i8),
            Err(f) => Err(f),
        })
    }

    fn from_value_at(value: &Value, path: &str) -> (r: Result<i8, TranscodeError>) {
        match read_integer(value, path, -0x80, 0x7f) {
            Ok(n) => Ok(n as i8),
            Err(e) => Err(e),
        }
    }
}

/// Rebuilding an integer of this width inverts projecting it.
pub proof fn law_i8_inverts()
    ensures
        inverts::<i8>(),
        forall|t: i8, path: Seq<char>, out: Result<i8, Fault>| #[trigger]
            i8::reads(t.projection(), path, out) ==> out == Ok::<i8, Fault>(t),
{
    assert forall|t: i8, path: Seq<char>, out: Result<i8, Fault>| #[trigger]
        i8::reads(t.projection(), path, out) implies out == Ok::<i8, Fault>(t) by {
        law_integer_reading_inverts(t as int, path, -0x80, 0x7f);
    }
}

impl ToValue for i16 {
    open spec fn projection(&self) -> Doc {
        Doc::Number(integer_text(*self as int))
    }

    fn to_value(&self) -> (v: Value) {
        Value::Number(format_integer(*self as i128))
    }
}

impl FromValue for i16 {
    open spec fn reads(doc: Doc, path: Seq<char>, out: Result<i16, Fault>) -> bool {
        out == (match integer_reading(doc, path, -0x8000, 0x7fff) {
            Ok(n) => Ok::<i16, Fault>(n as i16),
            Err(f) => Err(f),
        })
    }

    fn from_value_at(value: &Value, path: &str) -> (r: Result<i16, TranscodeError>) {
        match read_integer(value, path, -0x8000, 0x7fff) {
            Ok(n) => Ok(n as i16),
            Err(e) => Err(e),
        }
    }
}

/// Rebuilding an integer of this width inverts projecting it.
pub proof fn law_i16_inverts()
    ensures
        inverts::<i16>(),
        forall|t: i16, path: Seq<char>, out: Result<i16, Fault>| #[trigger]
            i16::reads(t.projection(), path, out) ==> out == Ok::<i16, Fault>(t),
{
    assert forall|t: i16, path: Seq<char>, out: Result<i16, Fault>| #[trigger]
        i16::reads(t.projection(), path, out) implies out == Ok::<i16, Fault>(t) by {
        law_integer_reading_inverts(t as int, path, -0x8000, 0x7fff);
    }
}

impl ToValue for i32 {
    open spec fn projection(&self) -> Doc {
        Doc::Number(integer_text(*self as int))
    }

    fn to_value(&self) -> (v: Value) {
        Value::Number(format_integer(*self as i128))
    }
}

impl FromValue for i32 {
    open spec fn reads(doc: Doc, path: Seq<char>, out: Result<i32, Fault>) -> bool {
        out == (match integer_reading(doc, path, -0x8000_0000, 0x7fff_ffff) {
            Ok(n) => Ok::<i32, Fault>(n as i32),
            Err(f) => Err(f),
        })
    }

    fn from_value_at(value: &Value, path: &str) -> (r: Result<i32, TranscodeError>) {
        match read_integer(value, path, -0x8000_0000, 0x7fff_ffff) {
            Ok(n) => Ok(n as i32),
            Err(e) => Err(e),
        }
    }
}

/// Rebuilding an integer of this width inverts projecting it.
pub proof fn law_i32_inverts()
    ensures
        inverts::<i32>(),
        forall|t: i32, path: Seq<char>, out: Result<i32, Fault>| #[trigger]
            i32::reads(t.projection(), path, out) ==> out == Ok::<i32, Fault>(t),
{
    assert forall|t: i32, path: Seq<char>, out: Result<i32, Fault>| #[trigger]
        i32::reads(t.projection(), path, out) implies out == Ok::<i32, Fault>(t) by {
        law_integer_reading_inverts(t as int, path, -0x8000_0000, 0x7fff_ffff);
    }
}

impl ToValue for i64 {
    open spec fn projection(&self) -> Doc {
        Doc::Number(integer_text(*self as int))
    }

    fn to_value(&self) -> (v: Value) {
        Value::Number(format_integer(*self as i128))
    }
}

impl FromValue for i64 {
    open spec fn reads(doc: Doc, path: Seq<char>, out: Result<i64, Fault>) -> bool {
        out == (match integer_reading(doc, path, -0x8000_0000_0000_0000, 0x7fff_ffff_ffff_ffff) {
            Ok(n) => Ok::<i64, Fault>(n as i64),
            Err(f) => Err(f),
        })
    }

    fn from_value_at(value: &Value, path: &str) -> (r: Result<i64, TranscodeError>) {
        match read_integer(value, path, -0x8000_0000_0000_0000, 0x7fff_ffff_ffff_ffff) {
            Ok(n) => Ok(n as i64),
            Err(e) => Err(e),
        }
    }
}

/// Rebuilding an integer of this width inverts projecting it.
pub proof fn law_i64_inverts()
    ensures
        inverts::<i64>(),
        forall|t: i64, path: Seq<char>, out: Result<i64, Fault>| #[trigger]
            i64::reads(t.projection(), path, out) ==> out == Ok::<i64, Fault>(t),
{
    assert forall|t: i64, path: Seq<char>, out: Result<i64, Fault>| #[trigger]
        i64::reads(t.projection(), path, out) implies out == Ok::<i64, Fault>(t) by {
        law_integer_reading_inverts(t as int, path, -0x8000_0000_0000_0000, 0x7fff_ffff_ffff_ffff);
    }
}

impl ToValue for u8 {
    open spec fn projection(&self) -> Doc {
        Doc::Number(integer_text(*self as int))
    }

    fn to_value(&self) -> (v: Value) {
        Value::Number(format_integer(*self as i128))
    }
}

impl FromValue for u8 {
    open spec fn reads(doc: Doc, path: Seq<char>, out: Result<u8, Fault>) -> bool {
        out == (match integer_reading(doc, path, 0, 0xff) {
            Ok(n) => Ok::<u8, Fault>(n as u8),
            Err(f) => Err(f),
        })
    }

    fn from_value_at(value: &Value, path: &str) -> (r: Result<u8, TranscodeError>) {
        match read_integer(value, path, 0, 0xff) {
            Ok(n) => Ok(n as u8),
            Err(e) => Err(e),
        }
    }
}

/// Rebuilding an integer of this width inverts projecting it.
pub proof fn law_u8_inverts()
    ensures
        inverts::<u8>(),
        forall|t: u8, path: Seq<char>, out: Result<u8, Fault>| #[trigger]
            u8::reads(t.projection(), path, out) ==> out == Ok::<u8, Fault>(t),
{
    assert forall|t: u8, path: Seq<char>, out: Result<u8, Fault>| #[trigger]
        u8::reads(t.projection(), path, out) implies out == Ok::<u8, Fault>(t) by {
        law_integer_reading_inverts(t as int, path, 0, 0xff);
    }
}

impl ToValue for u16 {
    open spec fn projection(&self) -> Doc {
        Doc::Number(integer_text(*self as int))
    }

    fn to_value(&self) -> (v: Value) {
        Value::Number(format_integer(*self as i128))
    }
}

impl FromValue for u16 {
    open spec fn reads(doc: Doc, path: Seq<char>, out: Result<u16, Fault>) -> bool {
        out == (match integer_reading(doc, path, 0, 0xffff) {
            Ok(n) => Ok::<u16, Fault>(n as u16),
            Err(f) => Err(f),
        })
    }

    fn from_value_at(value: &Value, path: &str) -> (r: Result<u16, TranscodeError>) {
        match read_integer(value, path, 0, 0xffff) {
            Ok(n) => Ok(n as u16),
            Err(e) => Err(e),
        }
    }
}

/// Rebuilding an integer of this width inverts projecting it.
pub proof fn law_u16_inverts()
    ensures
        inverts::<u16>(),
        forall|t: u16, path: Seq<char>, out: Result<u16, Fault>| #[trigger]
            u16::reads(t.projection(), path, out) ==> out == Ok::<u16, Fault>(t),
{
    assert forall|t: u16, path: Seq<char>, out: Result<u16, Fault>| #[trigger]
        u16::reads(t.projection(), path, out) implies out == Ok::<u16, Fault>(t) by {
        law_integer_reading_inverts(t as int, path, 0, 0xffff);
    }
}

impl ToValue for u32 {
    open spec fn projection(&self) -> Doc {
        Doc::Number(integer_text(*self as int))
    }

    fn to_value(&self) -> (v: Value) {
        Value::Number(format_integer(*self as i128))
    }
}

impl FromValue for u32 {
    open spec fn reads(doc: Doc, path: Seq<char>, out: Result<u32, Fault>) -> bool {
        out == (match integer_reading(doc, path, 0, 0xffff_ffff) {
            Ok(n) => Ok::<u32, Fault>(n as u32),
            Err(f) => Err(f),
        })
    }

    fn from_value_at(value: &Value, path: &str) -> (r: Result<u32, TranscodeError>) {
        match read_integer(value, path, 0, 0xffff_ffff) {
            Ok(n) => Ok(n as u32),
            Err(e) => Err(e),
        }
    }
}

/// Rebuilding an integer of this width inverts projecting it.
pub proof fn law_u32_inverts()
    ensures
        inverts::<u32>(),
        forall|t: u32, path: Seq<char>, out: Result<u32, Fault>| #[trigger]
            u32::reads(t.projection(), path, out) ==> out == Ok::<u32, Fault>(t),
{
    assert forall|t: u32, path: Seq<char>, out: Result<u32, Fault>| #[trigger]
        u32::reads(t.projection(), path, out) implies out == Ok::<u32, Fault>(t) by {
        law_integer_reading_inverts(t as int, path, 0, 0xffff_ffff);
    }
}

impl ToValue for u64 {
    open spec fn projection(&self) -> Doc {
        Doc::Number(integer_text(*self as int))
    }

    fn to_value(&self) -> (v: Value) {
        Value::Number(format_integer(*self as i128))
    }
}

impl FromValue for u64 {
    open spec fn reads(doc: Doc, path: Seq<char>, out: Result<u64, Fault>) -> bool {
        out == (match integer_reading(doc, path, 0, 0xffff_ffff_ffff_ffff) {
            Ok(n) => Ok::<u64, Fault>(n as u64),
            Err(f) => Err(f),
        })
    }

    fn from_value_at(value: &Value, path: &str) -> (r: Result<u64, TranscodeError>) {
        match read_integer(value, path, 0, 0xffff_ffff_ffff_ffff) {
            Ok(n) => Ok(n as u64),
            Err(e) => Err(e),
        }
    }
}

/// Rebuilding an integer of this width inverts projecting it.
pub proof fn law_u64_inverts()
    ensures
        inverts::<u64>(),
        forall|t: u64, path: Seq<char>, out: Result<u64, Fault>| #[trigger]
            u64::reads(t.projection(), path, out) ==> out == Ok::<u64, Fault>(t),
{
    assert forall|t: u64, path: Seq<char>, out: Result<u64, Fault>| #[trigger]
        u64::reads(t.projection(), path, out) implies out == Ok::<u64, Fault>(t) by {
        law_integer_reading_inverts(t as int, path, 0, 0xffff_ffff_ffff_ffff);
    }
}

impl<T: ToValue> ToValue for Vec<T> {
    open spec fn projection(&self) -> Doc {
        Doc::Array(Seq::new(self@.len(), |i: int| self@[i].projection()))
    }

    fn to_value(&self) -> (v: Value) {
        let mut items: Vec<Value> = Vec::new();
        let mut i: usize = 0;
        while i < self.len()
            invariant
                i <= self@.len(),
                items@.len() == i,
                forall|k: int| 0 <= k < i ==> (#[trigger] items@[k])@ == self@[k].projection(),
            decreases self@.len() - i,
        {
            items.push(self[i].to_value());
            i = i + 1;
        }
        assert(docs_of(items@) =~= self.projection()->Array_0);
        Value::Array(items)
    }
}

/// `read` is what rebuilding each item of an array may give.
pub open spec fn items_read<T: FromValue>(items: Seq<Doc>, path: Seq<char>, read: Seq<T>) -> bool {
    &&& read.len() == items.len()
    &&& forall|i: int|
        0 <= i < items.len() ==> T::reads(
            #[trigger] items[i],
            index_path(path, i as nat),
            Ok(read[i]),
        )
}

/// Rebuilding from the tree `doc`, which stands at `path`, may succeed.
pub open spec fn reads_well<T: FromValue>(doc: Doc, path: Seq<char>) -> bool {
    exists|native: T| T::reads(doc, path, Ok(native))
}

/// `fault` is how rebuilding the item at `index` may fail, and every item
/// before it may be rebuilt.
pub open spec fn fails_at<T: FromValue>(
    items: Seq<Doc>,
    path: Seq<char>,
    fault: Fault,
    index: int,
) -> bool {
    &&& 0 <= index < items.len()
    &&& T::reads(items[index], index_path(path, index as nat), Err(fault))
    &&& forall|k: int|
        0 <= k < index ==> reads_well::<T>(#[trigger] items[k], index_path(path, k as nat))
}

/// `fault` is how rebuilding the items of an array may fail: at the first
/// item that cannot be rebuilt.
pub open spec fn item_fails<T: FromValue>(items: Seq<Doc>, path: Seq<char>, fault: Fault) -> bool {
    exists|index: int| #[trigger] fails_at::<T>(items, path, fault, index)
}

impl<T: FromValue> FromValue for Vec<T> {
    open spec fn reads(doc: Doc, path: Seq<char>, out: Result<Vec<T>, Fault>) -> bool {
        match doc {
            Doc::Array(items) => {
                ||| (out is Ok && items_read::<T>(items, path, out->Ok_0@))
                ||| (out is Err && item_fails::<T>(items, path, out->Err_0))
            },
            _ => out == Err::<Vec<T>, Fault>(mismatch(doc, path, Kind::Array)),
        }
    }

    fn from_value_at(value: &Value, path: &str) -> (r: Result<Vec<T>, TranscodeError>) {
        match value {
            Value::Array(items) => {
                let ghost docs = docs_of(items@);
                let mut out: Vec<T> = Vec::new();
                let mut i: usize = 0;
                while i < items.len()
                    invariant
                        i <= items@.len(),
                        out@.len() == i,
                        docs == docs_of(items@),
                        value@ == Doc::Array(docs),
                        forall|k: int|
                            0 <= k < i ==> T::reads(
                                #[trigger] docs[k],
                                index_path(path@, k as nat),
                                Ok(out@[k]),
                            ),
                    decreases items@.len() - i,
                {
                    let child = join_index(path, i);
                    assert(docs[i as int] == items@[i as int]@);
                    match T::from_value_at(&items[i], child.as_str()) {
                        Ok(t) => {
                            out.push(t);
                        },
                        Err(e) => {
                            proof {
                                let failed: Result<T, TranscodeError> = Err(e);
                                assert(outcome(failed) == Err::<T, Fault>(e@));
                                assert forall|k: int| 0 <= k < i implies reads_well::<T>(
                                    #[trigger] docs[k],
                                    index_path(path@, k as nat),
                                ) by {
                                    assert(T::reads(
                                        docs[k],
                                        index_path(path@, k as nat),
                                        Ok(out@[k]),
                                    ));
                                }
                                assert(T::reads(
                                    docs[i as int],
                                    index_path(path@, i as nat),
                                    Err(e@),
                                ));
                                assert(fails_at::<T>(docs, path@, e@, i as int));
                                assert(item_fails::<T>(docs, path@, e@));
                            }
                            return Err(e);
                        },
                    }
                    i = i + 1;
                }
                assert(items_read::<T>(docs, path@, out@));
                Ok(out)
            },
            _ => Err(kind_mismatch(value, path, Kind::Array)),
        }
    }
}

/// Rebuilding a vector inverts projecting it, where rebuilding an item
/// inverts projecting one.
pub proof fn law_vec_inverts<T: ToValue + FromValue>()
    requires
        inverts::<T>(),
    ensures
        inverts::<Vec<T>>(),
{
    assert forall|t: Vec<T>, path: Seq<char>, out: Result<Vec<T>, Fault>| #[trigger]
        Vec::<T>::reads(t.projection(), path, out) implies (out matches Ok(u) && u.projection()
        == t.projection()) by {
        let items = t.projection()->Array_0;
        match out {
            Ok(u) => {
                assert(items_read::<T>(items, path, u@));
                assert forall|i: int| 0 <= i < items.len() implies u@[i].projection()
                    == t@[i].projection() by {
                    assert(T::reads(items[i], index_path(path, i as nat), Ok(u@[i])));
                    assert(items[i] == t@[i].projection());
                }
                assert(u.projection()->Array_0 =~= items);
            },
            Err(f) => {
                assert(item_fails::<T>(items, path, f));
                let i = choose|i: int| #[trigger] fails_at::<T>(items, path, f, i);
                assert(items[i] == t@[i].projection());
            },
        }
    }
}

/// The members of an object, or the failure of a value that is none.
pub fn object_members<'a>(value: &'a Value, path: &str) -> (r: Result<
    &'a Vec<(String, Value)>,
    TranscodeError,
>)
    ensures
        match r {
            Ok(members) => value@ == Doc::Object(members_of(members@)),
            Err(e) => !(value@ is Object) && e@ == mismatch(value@, path@, Kind::Object),
        },
{
    match value {
        Value::Object(members) => Ok(members),
        _ => Err(kind_mismatch(value, path, Kind::Object)),
    }
}

/// Rebuilds the field `name` of the object that stands at `path`: from the
/// value that the members give to the name, or, where no member has the
/// name, as the default of the field's type.
pub fn field<T: FromValue + Default>(members: &Vec<(String, Value)>, name: &str, path: &str) -> (r:
    Result<T, TranscodeError>)
    ensures
        has_key(members_of(members@), name@) ==> T::reads(
            value_of(members_of(members@), name@),
            field_path(path@, name@),
            outcome(r),
        ),
        !has_key(members_of(members@), name@) ==> (r matches Ok(t) && call_ensures(
            T::default,
            (),
            t,
        )),
{
    let key = name.to_string();
    match find_key(members, &key) {
        Some(i) => {
            proof {
                lemma_key_index_unique(members_of(members@), name@, i as int);
                assert(members_of(members@)[i as int].1 == members@[i as int].1@);
            }
            let child = join_field(path, name);
            T::from_value_at(&members[i].1, child.as_str())
        },
        None => Ok(T::default()),
    }
}

/// What reading the integer field `name` of an object gives: zero, the
/// default, where no member has the name.
pub open spec fn integer_field(
    members: Seq<(Seq<char>, Doc)>,
    name: Seq<char>,
    path: Seq<char>,
    lo: int,
    hi: int,
) -> Result<int, Fault> {
    if has_key(members, name) {
        integer_reading(value_of(members, name), field_path(path, name), lo, hi)
    } else {
        Ok(0)
    }
}

impl ToValue for Timestamp {
    open spec fn projection(&self) -> Doc {
        timestamp_doc(self.seconds as int, self.nanoseconds as nat)
    }

    fn to_value(&self) -> (v: Value) {
        timestamp_value(self)
    }
}

impl FromValue for Timestamp {
    open spec fn reads(doc: Doc, path: Seq<char>, out: Result<Timestamp, Fault>) -> bool {
        out == (match doc {
            Doc::Object(members) => match integer_field(
                members,
                "seconds"@,
                path,
                -0x8000_0000_0000_0000,
                0x7fff_ffff_ffff_ffff,
            ) {
                Err(f) => Err::<Timestamp, Fault>(f),
                Ok(seconds) => match integer_field(
                    members,
                    "nanoseconds"@,
                    path,
                    0,
                    0xffff_ffff,
                ) {
                    Err(f) => Err(f),
                    Ok(nanos) => Ok(
                        Timestamp { seconds: seconds as i64, nanoseconds: nanos as u32 },
                    ),
                },
            },
            _ => Err(mismatch(doc, path, Kind::Object)),
        })
    }

    fn from_value_at(value: &Value, path: &str) -> (r: Result<Timestamp, TranscodeError>) {
        let members = match object_members(value, path) {
            Ok(members) => members,
            Err(e) => {
                return Err(e);
            },
        };
        let seconds = match field::<i64>(members, "seconds", path) {
            Ok(seconds) => seconds,
            Err(e) => {
                return Err(e);
            },
        };
        let nanoseconds = match field::<u32>(members, "nanoseconds", path) {
            Ok(nanoseconds) => nanoseconds,
            Err(e) => {
                return Err(e);
            },
        };
        Ok(Timestamp { seconds, nanoseconds })
    }
}

/// Rebuilding a timestamp inverts projecting it.
pub proof fn law_timestamp_inverts()
    ensures
        inverts::<Timestamp>(),
        forall|t: Timestamp, path: Seq<char>, out: Result<Timestamp, Fault>| #[trigger]
            Timestamp::reads(t.projection(), path, out) ==> out == Ok::<Timestamp, Fault>(t),
{
    assert forall|t: Timestamp, path: Seq<char>, out: Result<Timestamp, Fault>| #[trigger]
        Timestamp::reads(t.projection(), path, out) implies out == Ok::<Timestamp, Fault>(t) by {
        let members = t.projection()->Object_0;
        reveal_strlit("seconds");
        reveal_strlit("nanoseconds");
        assert("seconds"@.len() != "nanoseconds"@.len());
        assert(is_key_index(members, "seconds"@, 0));
        assert(is_key_index(members, "nanoseconds"@, 1)) by {
            assert(members[0].0 != "nanoseconds"@);
        }
        lemma_key_index_unique(members, "seconds"@, 0);
        lemma_key_index_unique(members, "nanoseconds"@, 1);
        law_integer_reading_inverts(
            t.seconds as int,
            field_path(path, "seconds"@),
            -0x8000_0000_0000_0000,
            0x7fff_ffff_ffff_ffff,
        );
        crate::numeral::law_decimal_is_numeral(t.nanoseconds as nat);
    }
}

impl ToValue for Ext {
    open spec fn projection(&self) -> Doc {
        ext_doc(self.code as int, self.data@)
    }

    fn to_value(&self) -> (v: Value) {
        ext_value(self.code, self.data.as_slice())
    }
}

impl FromValue for Ext {
    open spec fn reads(doc: Doc, path: Seq<char>, out: Result<Ext, Fault>) -> bool {
        match doc {
            Doc::Object(members) => match integer_field(members, "type"@, path, -0x80, 0x7f) {
                Err(f) => out == Err::<Ext, Fault>(f),
                Ok(code) => if has_key(members, "data"@) {
                    ||| (out is Ok && out->Ok_0.code == code && Vec::<u8>::reads(
                        value_of(members, "data"@),
                        field_path(path, "data"@),
                        Ok(out->Ok_0.data),
                    ))
                    ||| (out is Err && Vec::<u8>::reads(
                        value_of(members, "data"@),
                        field_path(path, "data"@),
                        Err(out->Err_0),
                    ))
                } else {
                    out is Ok && out->Ok_0.code == code && out->Ok_0.data@.len() == 0
                },
            },
            _ => out == Err::<Ext, Fault>(mismatch(doc, path, Kind::Object)),
        }
    }

    fn from_value_at(value: &Value, path: &str) -> (r: Result<Ext, TranscodeError>) {
        let members = match object_members(value, path) {
            Ok(members) => members,
            Err(e) => {
                return Err(e);
            },
        };
        let code = match field::<i8>(members, "type", path) {
            Ok(code) => code,
            Err(e) => {
                return Err(e);
            },
        };
        match field::<Vec<u8>>(members, "data", path) {
            Ok(data) => Ok(Ext { code, data }),
            Err(e) => Err(e),
        }
    }
}

/// Rebuilding an extension value inverts projecting it.
pub proof fn law_ext_inverts()
    ensures
        inverts::<Ext>(),
{
    assert forall|t: Ext, path: Seq<char>, out: Result<Ext, Fault>| #[trigger]
        Ext::reads(t.projection(), path, out) implies (out matches Ok(u) && u.projection()
        == t.projection()) by {
        let members = t.projection()->Object_0;
        let items = bytes_docs(t.data@);
        let at = field_path(path, "data"@);
        reveal_strlit("type");
        reveal_strlit("data");
        assert("type"@[0] != "data"@[0]);
        assert(is_key_index(members, "type"@, 0));
        assert(is_key_index(members, "data"@, 1)) by {
            assert(members[0].0 != "data"@);
        }
        lemma_key_index_unique(members, "type"@, 0);
        lemma_key_index_unique(members, "data"@, 1);
        law_integer_reading_inverts(t.code as int, field_path(path, "type"@), -0x80, 0x7f);
        assert(value_of(members, "data"@) == Doc::Array(items));
        assert forall|i: int| 0 <= i < items.len() implies integer_reading(
            #[trigger] items[i],
            index_path(at, i as nat),
            0,
            0xff,
        ) == Ok::<int, Fault>(t.data@[i] as int) by {
            law_integer_reading_inverts(t.data@[i] as int, index_path(at, i as nat), 0, 0xff);
        }
        match out {
            Ok(u) => {
                assert(items_read::<u8>(items, at, u.data@));
                assert forall|i: int| 0 <= i < items.len() implies u.data@[i] == t.data@[i] by {
                    assert(u8::reads(items[i], index_path(at, i as nat), Ok(u.data@[i])));
                }
                assert(u.data@ =~= t.data@);
            },
            Err(f) => {
                assert(item_fails::<u8>(items, at, f));
                let i = choose|i: int| #[trigger] fails_at::<u8>(items, at, f, i);
                assert(u8::reads(items[i], index_path(at, i as nat), Err(f)));
                assert(false);
            },
        }
    }
}

/// Rebuilds a native value from a tree that stands at the root.
pub fn from_value<T: FromValue>(value: &Value) -> (r: Result<T, TranscodeError>)
    ensures
        T::reads(value@, ""@, outcome(r)),
{
    T::from_value_at(value, "")
}

} // verus!
