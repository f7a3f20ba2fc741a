//! Human-readable text of a value tree: a compact form on one line, and an
//! indented form over several. Neither is meant to be read back.

use vstd::prelude::*;
use vstd::string::*;
use crate::value::{docs_of, members_of, Doc, Value};

verus! {

/// `n` spaces.
pub open spec fn spaces(n: nat) -> Seq<char> {
    Seq::new(n, |i: int| ' ')
}

/// The compact text of the first `n` items, a comma and a space between
/// two of them.
pub open spec fn compact_items(items: Seq<Doc>, n: nat) -> Seq<char>
    decreases items, n,
{
    if n == 0 || n > items.len() {
        Seq::empty()
    } else {
        compact_items(items, (n - 1) as nat) + (if n == 1 {
            Seq::empty()
        } else {
            ", "@
        }) + items[n - 1].compact()
    }
}

/// The compact text of the first `n` members, each as its quoted key, a
/// colon, a space and its value.
pub open spec fn compact_members(members: Seq<(Seq<char>, Doc)>, n: nat) -> Seq<char>
    decreases members, n,
{
    if n == 0 || n > members.len() {
        Seq::empty()
    } else {
        compact_members(members, (n - 1) as nat) + (if n == 1 {
            Seq::empty()
        } else {
            ", "@
        }) + "\""@ + members[n - 1].0 + "\": "@ + members[n - 1].1.compact()
    }
}

/// The indented text of the first `n` items, each on a line of its own, one
/// level below `level`, a comma behind each but the last of the array.
pub open spec fn pretty_items(items: Seq<Doc>, n: nat, level: nat) -> Seq<char>
    decreases items, n,
{
    if n == 0 || n > items.len() {
        Seq::empty()
    } else {
        pretty_items(items, (n - 1) as nat, level) + spaces(4 * (level + 1)) + items[n
            - 1].pretty(level + 1) + (if n == items.len() {
            "\n"@
        } else {
            ",\n"@
        })
    }
}

/// The indented text of the first `n` members, each on a line of its own,
/// one level below `level`, a comma behind each but the last of the object.
pub open spec fn pretty_members(members: Seq<(Seq<char>, Doc)>, n: nat, level: nat) -> Seq<char>
    decreases members, n,
{
    if n == 0 || n > members.len() {
        Seq::empty()
    } else {
        pretty_members(members, (n - 1) as nat, level) + spaces(4 * (level + 1)) + "\""@
            + members[n - 1].0 + "\": "@ + members[n - 1].1.pretty(level + 1) + (if n
            == members.len() {
            "\n"@
        } else {
            ",\n"@
        })
    }
}

impl Doc {
    /// The text of a tree on one line: JSON-like, strings quoted and not
    /// escaped, numbers as they are kept.
    pub open spec fn compact(self) -> Seq<char>
        decreases self, 0nat,
    {
        match self {
            Doc::Null => "null"@,
            Doc::Bool(b) => if b {
                "true"@
            } else {
                "false"@
            },
            Doc::Number(n) => n,
            Doc::Text(s) => "\""@ + s + "\""@,
            Doc::Array(items) => "["@ + compact_items(items, items.len()) + "]"@,
            Doc::Object(members) => "{"@ + compact_members(members, members.len()) + "}"@,
        }
    }

    /// The text of a tree over several lines, four spaces to a level: the
    /// tree itself stands at `level`, where the line it starts on is
    /// already indented.
    pub open spec fn pretty(self, level: nat) -> Seq<char>
        decreases self, 0nat,
    {
        match self {
            Doc::Null => "null"@,
            Doc::Bool(b) => if b {
                "true"@
            } else {
                "false"@
            },
            Doc::Number(n) => n,
            Doc::Text(s) => "\""@ + s + "\""@,
            Doc::Array(items) => "[\n"@ + pretty_items(items, items.len(), level) + spaces(
                4 * level,
            ) + "]"@,
            Doc::Object(members) => "{\n"@ + pretty_members(members, members.len(), level)
                + spaces(4 * level) + "}"@,
        }
    }
}

/// The indentation of a level: four spaces for each.
fn indentation(level: i32) -> (indent: String)
    requires
        level >= 0,
    ensures
        indent@ == spaces(4 * (level as nat)),
{
    let mut indent = String::new();
    let mut i: i32 = 0;
    proof {
        reveal_strlit("    ");
    }
    assert(indent@ =~= spaces(0));
    while i < level
        invariant
            0 <= i <= level,
            indent@ == spaces(4 * (i as nat)),
            "    "@.len() == 4,
            forall|k: int| 0 <= k < 4 ==> "    "@[k] == ' ',
        decreases level - i,
    {
        indent.append("    ");
        i = i + 1;
        assert(indent@ =~= spaces(4 * (i as nat)));
    }
    indent
}

/// The indentation one level below.
fn deeper(indent: &String, Ghost(level): Ghost<nat>) -> (child: String)
    requires
        indent@ == spaces(4 * level),
    ensures
        child@ == spaces(4 * (level + 1)),
{
    let mut child = indent.clone();
    proof {
        reveal_strlit("    ");
    }
    child.append("    ");
    assert(child@ =~= spaces(4 * (level + 1)));
    child
}

/// Appends the compact text of a value.
fn compact_into(out: &mut String, value: &Value)
    ensures
        final(out)@ == old(out)@ + value@.compact(),
    decreases value,
{
    match value {
        Value::Null => {
            out.append("null");
        },
        Value::Bool(b) => {
            if *b {
                out.append("true");
            } else {
                out.append("false");
            }
        },
        Value::Number(n) => {
            out.append(n.as_str());
        },
        Value::String(s) => {
            out.append("\"");
            out.append(s.as_str());
            out.append("\"");
            assert(out@ =~= old(out)@ + value@.compact());
        },
        Value::Array(items) => {
            let ghost docs = docs_of(items@);
            out.append("[");
            let mut i: usize = 0;
            while i < items.len()
                invariant
                    i <= items@.len(),
                    docs == docs_of(items@),
                    value == Value::Array(*items),
                    out@ == old(out)@ + "["@ + compact_items(docs, i as nat),
                decreases items@.len() - i,
            {
                if i > 0 {
                    out.append(", ");
                }
                proof {
                    vstd::std_specs::vec::axiom_vec_index_decreases(*items, i as int);
                    assert(value->Array_0 == *items);
                    assert(docs[i as int] == items@[i as int]@);
                }
                compact_into(out, &items[i]);
                i = i + 1;
                assert(out@ =~= old(out)@ + "["@ + compact_items(docs, i as nat));
            }
            out.append("]");
            assert(out@ =~= old(out)@ + value@.compact());
        },
        Value::Object(members) => {
            let ghost docs = members_of(members@);
            out.append("{");
            let mut i: usize = 0;
            while i < members.len()
                invariant
                    i <= members@.len(),
                    docs == members_of(members@),
                    value == Value::Object(*members),
                    out@ == old(out)@ + "{"@ + compact_members(docs, i as nat),
                decreases members@.len() - i,
            {
                if i > 0 {
                    out.append(", ");
                }
                proof {
                    vstd::std_specs::vec::axiom_vec_index_decreases(*members, i as int);
                    assert(value->Object_0 == *members);
                    assert(docs[i as int] == (members@[i as int].0@, members@[i as int].1@));
                }
                out.append("\"");
                out.append(members[i].0.as_str());
                out.append("\": ");
                compact_into(out, &members[i].1);
                i = i + 1;
                assert(out@ =~= old(out)@ + "{"@ + compact_members(docs, i as nat));
            }
            out.append("}");
            assert(out@ =~= old(out)@ + value@.compact());
        },
    }
}

/// Appends the indented text of the items of an array and its closing
/// bracket.
fn pretty_array_into(out: &mut String, items: &Vec<Value>, indent: &String, Ghost(level): Ghost<nat>)
    requires
        indent@ == spaces(4 * level),
    ensures
        final(out)@ == old(out)@ + Doc::Array(docs_of(items@)).pretty(level),
    decreases items, 0nat,
{
    let ghost docs = docs_of(items@);
    let child = deeper(indent, Ghost(level));
    out.append("[\n");
    let count = items.len();
    let mut i: usize = 0;
    while i < count
        invariant
            i <= count,
            count == items@.len(),
            docs == docs_of(items@),
            child@ == spaces(4 * (level + 1)),
            out@ == old(out)@ + "[\n"@ + pretty_items(docs, i as nat, level),
        decreases count - i,
    {
        out.append(child.as_str());
        proof {
            vstd::std_specs::vec::axiom_vec_index_decreases(*items, i as int);
            assert(docs[i as int] == items@[i as int]@);
        }
        pretty_into(out, &items[i], &child, Ghost(level + 1));
        if i == count - 1 {
            out.append("\n");
        } else {
            out.append(",\n");
        }
        i = i + 1;
        assert(out@ =~= old(out)@ + "[\n"@ + pretty_items(docs, i as nat, level));
    }
    out.append(indent.as_str());
    out.append("]");
    assert(out@ =~= old(out)@ + Doc::Array(docs).pretty(level));
}

/// Appends the indented text of the members of an object and its closing
/// brace.
fn pretty_object_into(
    out: &mut String,
    members: &Vec<(String, Value)>,
    indent: &String,
    Ghost(level): Ghost<nat>,
)
    requires
        indent@ == spaces(4 * level),
    ensures
        final(out)@ == old(out)@ + Doc::Object(members_of(members@)).pretty(level),
    decreases members, 0nat,
{
    let ghost docs = members_of(members@);
    let child = deeper(indent, Ghost(level));
    out.append("{\n");
    let count = members.len();
    let mut i: usize = 0;
    while i < count
        invariant
            i <= count,
            count == members@.len(),
            docs == members_of(members@),
            child@ == spaces(4 * (level + 1)),
            out@ == old(out)@ + "{\n"@ + pretty_members(docs, i as nat, level),
        decreases count - i,
    {
        out.append(child.as_str());
        proof {
            vstd::std_specs::vec::axiom_vec_index_decreases(*members, i as int);
            assert(docs[i as int] == (members@[i as int].0@, members@[i as int].1@));
        }
        out.append("\"");
        out.append(members[i].0.as_str());
        out.append("\": ");
        pretty_into(out, &members[i].1, &child, Ghost(level + 1));
        if i == count - 1 {
            out.append("\n");
        } else {
            out.append(",\n");
        }
        i = i + 1;
        assert(out@ =~= old(out)@ + "{\n"@ + pretty_members(docs, i as nat, level));
    }
    out.append(indent.as_str());
    out.append("}");
    assert(out@ =~= old(out)@ + Doc::Object(docs).pretty(level));
}

/// Appends the indented text of a value.
fn pretty_into(out: &mut String, value: &Value, indent: &String, Ghost(level): Ghost<nat>)
    requires
        indent@ == spaces(4 * level),
    ensures
        final(out)@ == old(out)@ + value@.pretty(level),
    decreases value, 1nat,
{
    match value {
        Value::Null => {
            out.append("null");
        },
        Value::Bool(b) => {
            if *b {
                out.append("true");
            } else {
                out.append("false");
            }
        },
        Value::Number(n) => {
            out.append(n.as_str());
        },
        Value::String(s) => {
            out.append("\"");
            out.append(s.as_str());
            out.append("\"");
            assert(out@ =~= old(out)@ + value@.pretty(level));
        },
        Value::Array(items) => {
            pretty_array_into(out, items, indent, Ghost(level));
        },
        Value::Object(members) => {
            pretty_object_into(out, members, indent, Ghost(level));
        },
    }
}

impl Value {
    /// The text of the value on one line.
    pub fn render(&self) -> (text: String)
        ensures
            text@ == self@.compact(),
    {
        let mut text = String::new();
        compact_into(&mut text, self);
        assert(text@ =~= self@.compact());
        text
    }

    /// The text of the value over several lines, and a line break behind it.
    pub fn to_string(&self) -> (text: String)
        ensures
            text@ == self@.pretty(0) + "\n"@,
    {
        let mut text = self.format_value(self, 0);
        text.append("\n");
        text
    }

    /// The indented text of `input`, which stands at `level`.
    pub fn format_value(&self, input: &Value, level: i32) -> (text: String)
        requires
            level >= 0,
        ensures
            text@ == input@.pretty(level as nat),
    {
        let indent = indentation(level);
        let mut text = String::new();
        pretty_into(&mut text, input, &indent, Ghost(level as nat));
        assert(text@ =~= input@.pretty(level as nat));
        text
    }

    /// The text of nil.
    pub fn format_null(&self) -> (text: String)
        ensures
            text@ == Doc::Null.pretty(0),
    {
        "null".to_string()
    }

    /// The text of a boolean.
    pub fn format_bool(&self, input: bool) -> (text: String)
        ensures
            text@ == Doc::Bool(input).pretty(0),
    {
        if input {
            return "true".to_string();
        }
        "false".to_string()
    }

    /// The text of a number: the text it is kept as.
    pub fn format_number(&self, input: String) -> (text: String)
        ensures
            text@ == Doc::Number(input@).pretty(0),
    {
        input
    }

    /// The text of a string: the string between quotes, not escaped.
    pub fn format_string(&self, input: String) -> (text: String)
        ensures
            text@ == Doc::Text(input@).pretty(0),
    {
        let mut text = "\"".to_string();
        text.append(input.as_str());
        text.append("\"");
        text
    }

    /// The indented text of an array, which stands at `level`.
    pub fn format_array(&self, input: &Vec<Value>, level: i32) -> (text: String)
        requires
            level >= 0,
        ensures
            text@ == Doc::Array(docs_of(input@)).pretty(level as nat),
    {
        let indent = indentation(level);
        let mut text = String::new();
        pretty_array_into(&mut text, input, &indent, Ghost(level as nat));
        assert(text@ =~= Doc::Array(docs_of(input@)).pretty(level as nat));
        text
    }

    /// The indented text of an object, which stands at `level`.
    pub fn format_object(&self, input: &Vec<(String, Value)>, level: i32) -> (text: String)
        requires
            level >= 0,
        ensures
            text@ == Doc::Object(members_of(input@)).pretty(level as nat),
    {
        let indent = indentation(level);
        let mut text = String::new();
        pretty_object_into(&mut text, input, &indent, Ghost(level as nat));
        assert(text@ =~= Doc::Object(members_of(input@)).pretty(level as nat));
        text
    }
}

} // verus!
