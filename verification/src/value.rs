//! The canonical value tree and its mathematical model.

use vstd::prelude::*;
use vstd::std_specs::cmp::PartialEqSpecImpl;

verus! {

/// The mathematical model of a value tree: what a [`Value`] denotes once
/// strings are read as sequences of characters and vectors as sequences.
pub enum Doc {
    Null,
    Bool(bool),
    Number(Seq<char>),
    Text(Seq<char>),
    Array(Seq<Doc>),
    Object(Seq<(Seq<char>, Doc)>),
}

/// A canonical value: the pivot between wire bytes and native data.
///
/// An object keeps its members in insertion order; in a well-formed value no
/// key occurs twice, and equality does not depend on the order.
#[derive(Debug)]
pub enum Value {
    Null,
    Bool(bool),
    Number(String),
    String(String),
    Array(Vec<Value>),
    Object(Vec<(String, Value)>),
}

/// The models of the items of an array, in order.
pub open spec fn docs_of(items: Seq<Value>) -> Seq<Doc>
    decreases items, 0nat,
{
    Seq::new(items.len(), |i: int| if 0 <= i < items.len() { doc_of(items[i]) } else { Doc::Null })
}

/// The models of the members of an object, in order.
pub open spec fn members_of(members: Seq<(String, Value)>) -> Seq<(Seq<char>, Doc)>
    decreases members, 0nat,
{
    Seq::new(
        members.len(),
        |i: int| if 0 <= i < members.len() {
            (members[i].0@, doc_of(members[i].1))
        } else {
            (Seq::empty(), Doc::Null)
        },
    )
}

/// The model of a value.
pub open spec fn doc_of(v: Value) -> Doc
    decreases v, 1nat,
{
    match v {
        Value::Null => Doc::Null,
        Value::Bool(b) => Doc::Bool(b),
        Value::Number(n) => Doc::Number(n@),
        Value::String(s) => Doc::Text(s@),
        Value::Array(items) => Doc::Array(docs_of(items@)),
        Value::Object(members) => Doc::Object(members_of(members@)),
    }
}

/// Some member has the key.
pub open spec fn has_key(members: Seq<(Seq<char>, Doc)>, key: Seq<char>) -> bool {
    exists|i: int| 0 <= i < members.len() && (#[trigger] members[i]).0 == key
}

/// `i` is where the key first occurs.
pub open spec fn is_key_index(members: Seq<(Seq<char>, Doc)>, key: Seq<char>, i: int) -> bool {
    &&& 0 <= i < members.len()
    &&& members[i].0 == key
    &&& forall|k: int| 0 <= k < i ==> (#[trigger] members[k]).0 != key
}

/// Where the key first occurs, if some member has it.
pub open spec fn key_index(members: Seq<(Seq<char>, Doc)>, key: Seq<char>) -> int {
    choose|i: int| is_key_index(members, key, i)
}

/// The members after `key` was given the value `doc`: the member that had
/// the key holds `doc` in its old place, or a new member stands at the end.
pub open spec fn put(members: Seq<(Seq<char>, Doc)>, key: Seq<char>, doc: Doc) -> Seq<
    (Seq<char>, Doc),
> {
    if has_key(members, key) {
        members.update(key_index(members, key), (key, doc))
    } else {
        members.push((key, doc))
    }
}

/// No key occurs twice.
pub open spec fn keys_distinct(members: Seq<(Seq<char>, Doc)>) -> bool {
    forall|i: int, j: int|
        0 <= i < j < members.len() ==> (#[trigger] members[i]).0 != (#[trigger] members[j]).0
}

/// A key occurs first at one place only.
pub proof fn lemma_key_index_unique(members: Seq<(Seq<char>, Doc)>, key: Seq<char>, i: int)
    requires
        is_key_index(members, key, i),
    ensures
        has_key(members, key),
        key_index(members, key) == i,
{
    let c = key_index(members, key);
    assert(is_key_index(members, key, c));
    if c < i {
        assert(members[c].0 != key);
    }
    if i < c {
        assert(members[i].0 != key);
    }
}

/// Where the key first occurs among the members, if it does.
pub fn find_key(members: &Vec<(String, Value)>, key: &String) -> (r: Option<usize>)
    ensures
        match r {
            Some(i) => is_key_index(members_of(members@), key@, i as int),
            None => !has_key(members_of(members@), key@),
        },
{
    let mut i: usize = 0;
    while i < members.len()
        invariant
            i <= members@.len(),
            forall|k: int| 0 <= k < i ==> (#[trigger] members_of(members@)[k]).0 != key@,
        decreases members@.len() - i,
    {
        assert(members_of(members@)[i as int].0 == members@[i as int].0@);
        if members[i].0 == *key {
            return Some(i);
        }
        i = i + 1;
    }
    None
}

/// Gives `key` the value `value`: in the member that has the key, else in a
/// new member at the end.
pub fn put_member(members: &mut Vec<(String, Value)>, key: String, value: Value)
    ensures
        members_of(final(members)@) == put(members_of(old(members)@), key@, value@),
{
    let ghost before = members_of(members@);
    match find_key(members, &key) {
        Some(i) => {
            proof {
                lemma_key_index_unique(before, key@, i as int);
            }
            members.set(i, (key, value));
            assert(members_of(members@) =~= put(before, key@, value@));
        },
        None => {
            members.push((key, value));
            assert(members_of(members@) =~= put(before, key@, value@));
        },
    }
}

/// The value that the members give to a key they hold: that of the first
/// member with the key.
pub open spec fn value_of(members: Seq<(Seq<char>, Doc)>, key: Seq<char>) -> Doc {
    members[key_index(members, key)].1
}

impl View for Value {
    type V = Doc;

    open spec fn view(&self) -> Doc {
        doc_of(*self)
    }
}

impl Default for Value {
    /// The default value is nil.
    fn default() -> (v: Value)
        ensures
            v == Value::Null,
    {
        Value::Null
    }
}

impl Clone for Value {
    /// A deep copy: a tree of its own that denotes what this one does.
    fn clone(&self) -> (copy: Value)
        ensures
            copy@ == self@,
        decreases self,
    {
        match self {
            Value::Null => Value::Null,
            Value::Bool(b) => Value::Bool(*b),
            Value::Number(n) => Value::Number(n.clone()),
            Value::String(s) => Value::String(s.clone()),
            Value::Array(arr) => {
                let mut result: Vec<Value> = Vec::new();
                let mut i: usize = 0;
                while i < arr.len()
                    invariant
                        i <= arr@.len(),
                        self == Value::Array(*arr),
                        result@.len() == i,
                        forall|k: int| 0 <= k < i ==> (#[trigger] result@[k])@ == arr@[k]@,
                    decreases arr@.len() - i,
                {
                    proof {
                        vstd::std_specs::vec::axiom_vec_index_decreases(*arr, i as int);
                        assert(self->Array_0 == *arr);
                    }
                    result.push(arr[i].clone());
                    i = i + 1;
                }
                assert(docs_of(result@) =~= docs_of(arr@));
                Value::Array(result)
            },
            Value::Object(members) => {
                let mut result: Vec<(String, Value)> = Vec::new();
                let mut i: usize = 0;
                while i < members.len()
                    invariant
                        i <= members@.len(),
                        self == Value::Object(*members),
                        result@.len() == i,
                        forall|k: int|
                            0 <= k < i ==> (#[trigger] result@[k]).0@ == members@[k].0@
                                && result@[k].1@ == members@[k].1@,
                    decreases members@.len() - i,
                {
                    proof {
                        vstd::std_specs::vec::axiom_vec_index_decreases(*members, i as int);
                        assert(self->Object_0 == *members);
                    }
                    let key = members[i].0.clone();
                    let value = members[i].1.clone();
                    result.push((key, value));
                    i = i + 1;
                }
                assert(members_of(result@) =~= members_of(members@));
                Value::Object(result)
            },
        }
    }
}

/// Tests whether two values are the same tree, the order of an object's
/// members set aside.
pub fn same_value(a: &Value, b: &Value) -> (r: bool)
    ensures
        r == a@.same(b@),
    decreases a,
{
    match (a, b) {
        (Value::Null, Value::Null) => true,
        (Value::Bool(x), Value::Bool(y)) => *x == *y,
        (Value::Number(x), Value::Number(y)) => *x == *y,
        (Value::String(x), Value::String(y)) => *x == *y,
        (Value::Array(x), Value::Array(y)) => {
            if x.len() != y.len() {
                return false;
            }
            let mut i: usize = 0;
            while i < x.len()
                invariant
                    i <= x@.len(),
                    x@.len() == y@.len(),
                    a == Value::Array(*x),
                    b == Value::Array(*y),
                    forall|k: int|
                        0 <= k < i ==> (#[trigger] docs_of(x@)[k]).same(docs_of(y@)[k]),
                decreases x@.len() - i,
            {
                proof {
                    vstd::std_specs::vec::axiom_vec_index_decreases(*x, i as int);
                    assert(a->Array_0 == *x);
                }
                if !same_value(&x[i], &y[i]) {
                    assert(!docs_of(x@)[i as int].same(docs_of(y@)[i as int]));
                    return false;
                }
                i = i + 1;
            }
            assert(a@ == Doc::Array(docs_of(x@)));
            assert(b@ == Doc::Array(docs_of(y@)));
            assert(docs_of(x@).len() == docs_of(y@).len());
            assert(a@.same(b@));
            true
        },
        (Value::Object(x), Value::Object(y)) => {
            let ghost xs = members_of(x@);
            let ghost ys = members_of(y@);
            let mut i: usize = 0;
            while i < x.len()
                invariant
                    i <= x@.len(),
                    a == Value::Object(*x),
                    b == Value::Object(*y),
                    xs == members_of(x@),
                    ys == members_of(y@),
                    forall|k: int| 0 <= k < i ==> has_key(ys, (#[trigger] xs[k]).0),
                    forall|k: int|
                        0 <= k < i && is_key_index(xs, xs[k].0, k) ==> (#[trigger] xs[k]).1.same(
                            value_of(ys, xs[k].0),
                        ),
                decreases x@.len() - i,
            {
                assert(xs[i as int] == (x@[i as int].0@, x@[i as int].1@));
                match find_key(y, &x[i].0) {
                    None => {
                        return false;
                    },
                    Some(j) => {
                        proof {
                            lemma_key_index_unique(ys, xs[i as int].0, j as int);
                            assert(ys[j as int] == (y@[j as int].0@, y@[j as int].1@));
                        }
                        match find_key(x, &x[i].0) {
                            Some(first) => {
                                proof {
                                    lemma_key_index_unique(xs, xs[i as int].0, first as int);
                                }
                                if first == i {
                                    proof {
                                        vstd::std_specs::vec::axiom_vec_index_decreases(
                                            *x,
                                            i as int,
                                        );
                                        assert(a->Object_0 == *x);
                                    }
                                    if !same_value(&x[i].1, &y[j].1) {
                                        assert(is_key_index(xs, xs[i as int].0, i as int));
                                        assert(!xs[i as int].1.same(value_of(ys, xs[i as int].0)));
                                        return false;
                                    }
                                } else {
                                    proof {
                                        if is_key_index(xs, xs[i as int].0, i as int) {
                                            lemma_key_index_unique(xs, xs[i as int].0, i as int);
                                        }
                                    }
                                }
                            },
                            None => {},
                        }
                    },
                }
                i = i + 1;
            }
            let mut j: usize = 0;
            while j < y.len()
                invariant
                    j <= y@.len(),
                    a == Value::Object(*x),
                    b == Value::Object(*y),
                    xs == members_of(x@),
                    ys == members_of(y@),
                    forall|k: int| 0 <= k < j ==> has_key(xs, (#[trigger] ys[k]).0),
                decreases y@.len() - j,
            {
                assert(ys[j as int] == (y@[j as int].0@, y@[j as int].1@));
                match find_key(x, &y[j].0) {
                    None => {
                        return false;
                    },
                    Some(_) => {},
                }
                j = j + 1;
            }
            assert(a@.same(b@));
            true
        },
        _ => false,
    }
}

/// Every tree is the same as itself.
pub proof fn law_same_reflexive(doc: Doc)
    ensures
        doc.same(doc),
    decreases doc,
{
    match doc {
        Doc::Array(items) => {
            assert forall|i: int| 0 <= i < items.len() implies (#[trigger] items[i]).same(
                items[i],
            ) by {
                law_same_reflexive(items[i]);
            }
        },
        Doc::Object(members) => {
            assert forall|i: int| 0 <= i < members.len() && is_key_index(
                members,
                members[i].0,
                i,
            ) implies (#[trigger] members[i]).1.same(value_of(members, members[i].0)) by {
                lemma_key_index_unique(members, members[i].0, i);
                law_same_reflexive(members[i].1);
            }
        },
        _ => {},
    }
}

/// A key that some member has occurs first somewhere.
pub proof fn lemma_first_key(members: Seq<(Seq<char>, Doc)>, key: Seq<char>)
    requires
        has_key(members, key),
    ensures
        is_key_index(members, key, key_index(members, key)),
{
    let some = choose|i: int| 0 <= i < members.len() && (#[trigger] members[i]).0 == key;
    lemma_first_before(members, key, some);
}

/// A key that occurs at `at` occurs first at `at` or before.
proof fn lemma_first_before(members: Seq<(Seq<char>, Doc)>, key: Seq<char>, at: int)
    requires
        0 <= at < members.len(),
        members[at].0 == key,
    ensures
        exists|i: int| is_key_index(members, key, i),
    decreases at,
{
    if exists|k: int| 0 <= k < at && (#[trigger] members[k]).0 == key {
        let k = choose|k: int| 0 <= k < at && (#[trigger] members[k]).0 == key;
        lemma_first_before(members, key, k);
    } else {
        assert(is_key_index(members, key, at));
    }
}

/// Equality of trees is symmetric.
pub proof fn law_same_symmetric(a: Doc, b: Doc)
    requires
        a.same(b),
    ensures
        b.same(a),
    decreases a,
{
    match (a, b) {
        (Doc::Array(x), Doc::Array(y)) => {
            assert forall|i: int| 0 <= i < y.len() implies (#[trigger] y[i]).same(x[i]) by {
                assert(x[i].same(y[i]));
                law_same_symmetric(x[i], y[i]);
            }
        },
        (Doc::Object(x), Doc::Object(y)) => {
            assert forall|j: int| 0 <= j < y.len() && is_key_index(y, y[j].0, j) implies (
            #[trigger] y[j]).1.same(value_of(x, y[j].0)) by {
                let key = y[j].0;
                assert(has_key(x, key));
                lemma_first_key(x, key);
                let i = key_index(x, key);
                lemma_key_index_unique(y, key, j);
                assert(x[i].1.same(value_of(y, x[i].0)));
                law_same_symmetric(x[i].1, y[j].1);
            }
        },
        _ => {},
    }
}

/// Equality of trees is transitive.
pub proof fn law_same_transitive(a: Doc, b: Doc, c: Doc)
    requires
        a.same(b),
        b.same(c),
    ensures
        a.same(c),
    decreases a,
{
    match (a, b, c) {
        (Doc::Array(x), Doc::Array(y), Doc::Array(z)) => {
            assert forall|i: int| 0 <= i < x.len() implies (#[trigger] x[i]).same(z[i]) by {
                assert(x[i].same(y[i]));
                assert(y[i].same(z[i]));
                law_same_transitive(x[i], y[i], z[i]);
            }
        },
        (Doc::Object(x), Doc::Object(y), Doc::Object(z)) => {
            assert forall|i: int| 0 <= i < x.len() implies has_key(z, (#[trigger] x[i]).0) by {
                let key = x[i].0;
                assert(has_key(y, key));
                lemma_first_key(y, key);
                let j = key_index(y, key);
                assert(has_key(z, y[j].0));
            }
            assert forall|k: int| 0 <= k < z.len() implies has_key(x, (#[trigger] z[k]).0) by {
                let key = z[k].0;
                assert(has_key(y, key));
                lemma_first_key(y, key);
                let j = key_index(y, key);
                assert(has_key(x, y[j].0));
            }
            assert forall|i: int| 0 <= i < x.len() && is_key_index(x, x[i].0, i) implies (
            #[trigger] x[i]).1.same(value_of(z, x[i].0)) by {
                let key = x[i].0;
                assert(has_key(y, key));
                lemma_first_key(y, key);
                let j = key_index(y, key);
                assert(x[i].1.same(value_of(y, key)));
                assert(y[j].1.same(value_of(z, y[j].0)));
                law_same_transitive(x[i].1, y[j].1, value_of(z, key));
            }
        },
        _ => {},
    }
}

/// Equality does not depend on the order of an object's members: two
/// objects that hold the same members, each key once, are the same.
pub proof fn law_same_ignores_order(a: Seq<(Seq<char>, Doc)>, b: Seq<(Seq<char>, Doc)>)
    requires
        keys_distinct(a),
        keys_distinct(b),
        forall|i: int| 0 <= i < a.len() ==> b.contains(#[trigger] a[i]),
        forall|j: int| 0 <= j < b.len() ==> a.contains(#[trigger] b[j]),
    ensures
        Doc::Object(a).same(Doc::Object(b)),
{
    assert forall|i: int| 0 <= i < a.len() implies has_key(b, (#[trigger] a[i]).0) by {
        assert(b.contains(a[i]));
        let j = choose|j: int| 0 <= j < b.len() && b[j] == a[i];
        assert(b[j].0 == a[i].0);
    }
    assert forall|j: int| 0 <= j < b.len() implies has_key(a, (#[trigger] b[j]).0) by {
        assert(a.contains(b[j]));
        let i = choose|i: int| 0 <= i < a.len() && a[i] == b[j];
        assert(a[i].0 == b[j].0);
    }
    assert forall|i: int| 0 <= i < a.len() && is_key_index(a, a[i].0, i) implies (
    #[trigger] a[i]).1.same(value_of(b, a[i].0)) by {
        assert(b.contains(a[i]));
        let j = choose|j: int| 0 <= j < b.len() && b[j] == a[i];
        assert(is_key_index(b, a[i].0, j)) by {
            assert forall|k: int| 0 <= k < j implies (#[trigger] b[k]).0 != a[i].0 by {
                assert(b[k].0 != b[j].0);
            }
        }
        lemma_key_index_unique(b, a[i].0, j);
        law_same_reflexive(a[i].1);
    }
}

impl PartialEq for Value {
    /// Equality of values: that of the trees they denote.
    fn eq(&self, other: &Value) -> (r: bool) {
        same_value(self, other)
    }
}

impl PartialEqSpecImpl for Value {
    open spec fn obeys_eq_spec() -> bool {
        true
    }

    open spec fn eq_spec(&self, other: &Value) -> bool {
        self@.same(other@)
    }
}

impl Value {
    /// Tests whether no object of the value holds a key twice.
    pub fn has_unique_keys(&self) -> (b: bool)
        ensures
            b == self@.keys_unique(),
        decreases self,
    {
        match self {
            Value::Array(items) => {
                let ghost docs = docs_of(items@);
                let mut i: usize = 0;
                while i < items.len()
                    invariant
                        i <= items@.len(),
                        self == Value::Array(*items),
                        docs == docs_of(items@),
                        self@ == Doc::Array(docs),
                        forall|k: int| 0 <= k < i ==> (#[trigger] docs[k]).keys_unique(),
                    decreases items@.len() - i,
                {
                    proof {
                        vstd::std_specs::vec::axiom_vec_index_decreases(*items, i as int);
                        assert(self->Array_0 == *items);
                        assert(docs[i as int] == items@[i as int]@);
                    }
                    if !items[i].has_unique_keys() {
                        proof {
                            if Doc::Array(docs).keys_unique() {
                                assert(Doc::Array(docs)->Array_0 == docs);
                                assert(docs[i as int].keys_unique());
                            }
                        }
                        return false;
                    }
                    i = i + 1;
                }
                assert(self@ == Doc::Array(docs));
                true
            },
            Value::Object(members) => {
                let ghost docs = members_of(members@);
                let mut i: usize = 0;
                while i < members.len()
                    invariant
                        i <= members@.len(),
                        self == Value::Object(*members),
                        docs == members_of(members@),
                        self@ == Doc::Object(docs),
                        forall|k: int| 0 <= k < i ==> (#[trigger] docs[k]).1.keys_unique(),
                        forall|a: int, b: int|
                            0 <= a < b < i ==> (#[trigger] docs[a]).0 != (#[trigger] docs[b]).0,
                    decreases members@.len() - i,
                {
                    proof {
                        vstd::std_specs::vec::axiom_vec_index_decreases(*members, i as int);
                        assert(self->Object_0 == *members);
                        assert(docs[i as int] == (members@[i as int].0@, members@[i as int].1@));
                    }
                    match find_key(members, &members[i].0) {
                        Some(first) => {
                            if first != i {
                                assert(docs[first as int].0 == docs[i as int].0);
                                return false;
                            }
                        },
                        None => {},
                    }
                    if !members[i].1.has_unique_keys() {
                        assert(!docs[i as int].1.keys_unique());
                        return false;
                    }
                    i = i + 1;
                }
                assert(self@ == Doc::Object(docs));
                assert(keys_distinct(docs));
                true
            },
            _ => true,
        }
    }

    /// The name of the variant.
    pub fn get_type(&self) -> (name: String)
        ensures
            name@ == self@.kind_name(),
    {
        match self {
            Value::Null => "Null".to_string(),
            Value::Bool(_) => "Bool".to_string(),
            Value::Number(_) => "Number".to_string(),
            Value::String(_) => "String".to_string(),
            Value::Array(_) => "Array".to_string(),
            Value::Object(_) => "Object".to_string(),
        }
    }

    /// The text of a string value.
    pub fn get_string(&self) -> (text: String)
        requires
            self is String,
        ensures
            self@ == Doc::Text(text@),
    {
        match self {
            Value::String(s) => s.clone(),
            _ => String::new(),
        }
    }
}

impl Doc {
    /// Equality of trees: the same variant and the same content, where the
    /// order of an object's members does not count. Two objects are the same
    /// where they hold the same keys and give each key the same value.
    pub open spec fn same(self, other: Doc) -> bool
        decreases self,
    {
        match (self, other) {
            (Doc::Null, Doc::Null) => true,
            (Doc::Bool(a), Doc::Bool(b)) => a == b,
            (Doc::Number(a), Doc::Number(b)) => a == b,
            (Doc::Text(a), Doc::Text(b)) => a == b,
            (Doc::Array(a), Doc::Array(b)) => {
                &&& a.len() == b.len()
                &&& forall|i: int| 0 <= i < a.len() ==> (#[trigger] a[i]).same(b[i])
            },
            (Doc::Object(a), Doc::Object(b)) => {
                &&& forall|i: int| 0 <= i < a.len() ==> has_key(b, (#[trigger] a[i]).0)
                &&& forall|j: int| 0 <= j < b.len() ==> has_key(a, (#[trigger] b[j]).0)
                &&& forall|i: int|
                    0 <= i < a.len() && is_key_index(a, a[i].0, i) ==> (#[trigger] a[i]).1.same(
                        value_of(b, a[i].0),
                    )
            },
            _ => false,
        }
    }

    /// No object of the tree holds a key twice.
    pub open spec fn keys_unique(self) -> bool
        decreases self,
    {
        match self {
            Doc::Array(items) => {
                forall|i: int| 0 <= i < items.len() ==> (#[trigger] items[i]).keys_unique()
            },
            Doc::Object(members) => {
                &&& keys_distinct(members)
                &&& forall|i: int|
                    0 <= i < members.len() ==> (#[trigger] members[i]).1.keys_unique()
            },
            _ => true,
        }
    }

    /// Collections nest no deeper than `depth`: a tree without collections
    /// nests within 0, an array of such trees within 1.
    pub open spec fn nests_within(self, depth: nat) -> bool
        decreases self,
    {
        match self {
            Doc::Array(items) => {
                &&& depth > 0
                &&& forall|i: int|
                    0 <= i < items.len() ==> (#[trigger] items[i]).nests_within(
                        (depth - 1) as nat,
                    )
            },
            Doc::Object(members) => {
                &&& depth > 0
                &&& forall|i: int|
                    0 <= i < members.len() ==> (#[trigger] members[i]).1.nests_within(
                        (depth - 1) as nat,
                    )
            },
            _ => true,
        }
    }

    /// The name of the variant, as `get_type` reports it.
    pub open spec fn kind_name(self) -> Seq<char> {
        match self {
            Doc::Null => "Null"@,
            Doc::Bool(_) => "Bool"@,
            Doc::Number(_) => "Number"@,
            Doc::Text(_) => "String"@,
            Doc::Array(_) => "Array"@,
            Doc::Object(_) => "Object"@,
        }
    }
}

} // verus!
