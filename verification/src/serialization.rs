//! Writing a document as text, on one line or indented.

use crate::json_node::{lemma_members_of, lemma_values_of, JsonNode, Value};
use crate::text::{chars_of, string_from_chars};
use vstd::prelude::*;

verus! {

/// `n` spaces.
pub open spec fn spaces(n: nat) -> Seq<char> {
    Seq::new(n, |i: int| ' ')
}

/// `text` between double quotes. Nothing in it is escaped.
pub open spec fn quoted(text: Seq<char>) -> Seq<char> {
    seq!['"'] + text + seq!['"']
}

/// What ends a line: a line break in the indented form, nothing on one line.
pub open spec fn line_end(pretty: bool) -> Seq<char> {
    if pretty {
        seq!['\n']
    } else {
        Seq::empty()
    }
}

/// What stands between two elements or two properties: a comma and a line
/// break in the indented form, a comma and a space on one line.
pub open spec fn separator(pretty: bool) -> Seq<char> {
    if pretty {
        seq![',', '\n']
    } else {
        seq![',', ' ']
    }
}

/// The indentation of the lines of a node at `indent`: that many spaces in
/// the indented form, none on one line.
pub open spec fn margin(pretty: bool, indent: nat) -> Seq<char> {
    if pretty {
        spaces(indent)
    } else {
        Seq::empty()
    }
}

/// The text of a value.
///
/// On one line, the elements of an array and the properties of an object
/// are joined by a comma and a space, and a property is its name in quotes,
/// a colon, a space and its value. In the indented form every element and
/// every property stands on a line of its own, four spaces further in than
/// the brackets around it, which stand at `indent`; a value that follows
/// the name of a property on its line is `bare`: it has no margin of its
/// own.
pub open spec fn serialized(v: Value, pretty: bool, indent: nat, bare: bool) -> Seq<char>
    decreases v, 0int,
{
    let lead = if bare {
        Seq::empty()
    } else {
        margin(pretty, indent)
    };
    match v {
        Value::Null => lead + seq!['n', 'u', 'l', 'l'],
        Value::Boolean(b) => if b {
            lead + seq!['t', 'r', 'u', 'e']
        } else {
            lead + seq!['f', 'a', 'l', 's', 'e']
        },
        Value::Number(text) => lead + text,
        Value::String(text) => lead + quoted(text),
        Value::Array(items) => seq!['['] + line_end(pretty) + serialized_items(
            items,
            pretty,
            indent + 4,
        ) + line_end(pretty) + margin(pretty, indent) + seq![']'],
        Value::Object(members) => seq!['{'] + line_end(pretty) + serialized_members(
            members,
            pretty,
            indent + 4,
        ) + line_end(pretty) + margin(pretty, indent) + seq!['}'],
    }
}

/// The texts of the elements of an array, with separators between them.
pub open spec fn serialized_items(items: Seq<Value>, pretty: bool, indent: nat) -> Seq<char>
    decreases items, 1int,
{
    if items.len() == 0 {
        Seq::empty()
    } else if items.len() == 1 {
        serialized(items[0], pretty, indent, false)
    } else {
        serialized(items[0], pretty, indent, false) + separator(pretty) + serialized_items(
            items.skip(1),
            pretty,
            indent,
        )
    }
}

/// The text of a property: its name in quotes at the margin, a colon, a
/// space and its value.
pub open spec fn serialized_member(member: (Seq<char>, Value), pretty: bool, indent: nat) -> Seq<
    char,
>
    decreases member, 0int,
{
    margin(pretty, indent) + quoted(member.0) + seq![':', ' '] + serialized(
        member.1,
        pretty,
        indent,
        true,
    )
}

/// The texts of the properties of an object, with separators between them.
pub open spec fn serialized_members(
    members: Seq<(Seq<char>, Value)>,
    pretty: bool,
    indent: nat,
) -> Seq<char>
    decreases members, 1int,
{
    if members.len() == 0 {
        Seq::empty()
    } else if members.len() == 1 {
        serialized_member(members[0], pretty, indent)
    } else {
        serialized_member(members[0], pretty, indent) + separator(pretty) + serialized_members(
            members.skip(1),
            pretty,
            indent,
        )
    }
}

/// The text of a list of elements with one more element after it.
pub proof fn lemma_serialized_items_push(items: Seq<Value>, last: Value, pretty: bool, indent: nat)
    ensures
        serialized_items(items.push(last), pretty, indent) == if items.len() == 0 {
            serialized(last, pretty, indent, false)
        } else {
            serialized_items(items, pretty, indent) + separator(pretty) + serialized(
                last,
                pretty,
                indent,
                false,
            )
        },
    decreases items.len(),
{
    let longer = items.push(last);
    let one = serialized(last, pretty, indent, false);
    let sep = separator(pretty);
    if items.len() == 0 {
    } else {
        let first = serialized(items[0], pretty, indent, false);
        assert(longer[0] == items[0]);
        assert(longer.skip(1) =~= items.skip(1).push(last));
        lemma_serialized_items_push(items.skip(1), last, pretty, indent);
        if items.len() == 1 {
            assert(serialized_items(longer, pretty, indent) =~= first + sep + one);
        } else {
            let middle = serialized_items(items.skip(1), pretty, indent);
            assert(first + sep + (middle + sep + one) =~= (first + sep + middle) + sep + one);
        }
    }
}

/// The text of a list of properties with one more property after it.
pub proof fn lemma_serialized_members_push(
    members: Seq<(Seq<char>, Value)>,
    last: (Seq<char>, Value),
    pretty: bool,
    indent: nat,
)
    ensures
        serialized_members(members.push(last), pretty, indent) == if members.len() == 0 {
            serialized_member(last, pretty, indent)
        } else {
            serialized_members(members, pretty, indent) + separator(pretty) + serialized_member(
                last,
                pretty,
                indent,
            )
        },
    decreases members.len(),
{
    let longer = members.push(last);
    let one = serialized_member(last, pretty, indent);
    let sep = separator(pretty);
    if members.len() == 0 {
    } else {
        let first = serialized_member(members[0], pretty, indent);
        assert(longer[0] == members[0]);
        assert(longer.skip(1) =~= members.skip(1).push(last));
        lemma_serialized_members_push(members.skip(1), last, pretty, indent);
        if members.len() == 1 {
            assert(serialized_members(longer, pretty, indent) =~= first + sep + one);
        } else {
            let middle = serialized_members(members.skip(1), pretty, indent);
            assert(first + sep + (middle + sep + one) =~= (first + sep + middle) + sep + one);
        }
    }
}

/// The text of a document on one line.
pub open spec fn compact_text(v: Value) -> Seq<char> {
    serialized(v, false, 0, false)
}

/// The text of a document in the indented form.
pub open spec fn pretty_text(v: Value) -> Seq<char> {
    serialized(v, true, 0, false)
}

/// Appends `chars` to `f`.
fn write_chars(f: &mut Vec<char>, chars: &[char])
    ensures
        final(f)@ == old(f)@ + chars@,
{
    let mut i: usize = 0;
    assert(chars@.take(0) =~= Seq::<char>::empty());
    assert(f@ + Seq::<char>::empty() =~= f@);
    while i < chars.len()
        invariant
            i <= chars@.len(),
            f@ == old(f)@ + chars@.take(i as int),
        decreases chars@.len() - i,
    {
        f.push(chars[i]);
        assert(old(f)@ + chars@.take(i + 1) =~= (old(f)@ + chars@.take(i as int)).push(
            chars@[i as int],
        ));
        i += 1;
    }
    assert(chars@.take(i as int) =~= chars@);
}

/// Appends `text` between double quotes to `f`.
fn write_quoted(f: &mut Vec<char>, text: &String)
    ensures
        final(f)@ == old(f)@ + quoted(text@),
{
    f.push('"');
    let chars = chars_of(text.as_str());
    write_chars(f, chars.as_slice());
    f.push('"');
    assert(f@ =~= old(f)@ + quoted(text@));
}

/// Appends what stands between two elements or two properties to `f`.
fn write_separator(f: &mut Vec<char>, pretty: bool)
    ensures
        final(f)@ == old(f)@ + separator(pretty),
{
    f.push(',');
    if pretty {
        f.push('\n');
    } else {
        f.push(' ');
    }
    assert(f@ =~= old(f)@ + separator(pretty));
}

/// Appends the margin of a line to `f`.
fn write_margin(f: &mut Vec<char>, pretty: bool, indent: &Vec<char>)
    requires
        indent@ == spaces(indent@.len()),
    ensures
        final(f)@ == old(f)@ + margin(pretty, indent@.len()),
{
    if pretty {
        write_chars(f, indent.as_slice());
    } else {
        assert(f@ + Seq::<char>::empty() =~= f@);
    }
}

/// Appends the end of a line to `f`.
fn write_line_end(f: &mut Vec<char>, pretty: bool)
    ensures
        final(f)@ == old(f)@ + line_end(pretty),
{
    if pretty {
        f.push('\n');
        assert(f@ =~= old(f)@ + line_end(pretty));
    } else {
        assert(f@ + Seq::<char>::empty() =~= f@);
    }
}

/// The margin four spaces further in.
fn deeper(indent: &Vec<char>) -> (next: Vec<char>)
    requires
        indent@ == spaces(indent@.len()),
    ensures
        next@ == spaces(indent@.len() + 4),
{
    let mut next = indent.clone();
    assert(next@ =~= indent@);
    next.push(' ');
    next.push(' ');
    next.push(' ');
    next.push(' ');
    assert(next@ =~= spaces(indent@.len() + 4));
    next
}

/// Appends the texts of the elements of an array to `f`, with separators
/// between them.
fn fmt_items(arr: &Vec<JsonNode>, f: &mut Vec<char>, pretty: bool, indent: &Vec<char>)
    requires
        indent@ == spaces(indent@.len()),
    ensures
        final(f)@ == old(f)@ + serialized_items(
            crate::json_node::values_of(arr@),
            pretty,
            indent@.len(),
        ),
    decreases arr, 0int,
{
    let ghost head = f@;
    let ghost width = indent@.len();
    let ghost items = crate::json_node::values_of(arr@);
    let mut i: usize = 0;
    proof {
        lemma_values_of(arr@);
        assert(items.take(0) =~= Seq::<Value>::empty());
        assert(head + Seq::<char>::empty() =~= head);
    }
    while i < arr.len()
        invariant
            items == crate::json_node::values_of(arr@),
            items.len() == arr@.len(),
            forall|k: int| 0 <= k < arr@.len() ==> #[trigger] items[k] == arr@[k]@,
            indent@ == spaces(width),
            i <= arr@.len(),
            f@ == head + serialized_items(items.take(i as int), pretty, width),
        decreases arr@.len() - i,
    {
        let ghost done = serialized_items(items.take(i as int), pretty, width);
        if i > 0 {
            write_separator(f, pretty);
        }
        assert(decreases_to!(*arr => arr[i as int]));
        arr[i].fmt_indent(f, pretty, indent, false);
        proof {
            let upto = items.take(i + 1);
            assert(upto =~= items.take(i as int).push(items[i as int]));
            lemma_serialized_items_push(items.take(i as int), items[i as int], pretty, width);
            let one = serialized(items[i as int], pretty, width, false);
            if i > 0 {
                assert(f@ =~= head + (done + separator(pretty) + one));
            } else {
                assert(done =~= Seq::<char>::empty());
                assert(f@ =~= head + one);
            }
        }
        i += 1;
    }
    proof {
        assert(items.take(i as int) =~= items);
    }
}

/// Appends the texts of the properties of an object to `f`, with separators
/// between them.
fn fmt_members(
    prop_list: &Vec<crate::json_node::JsonObjProp>,
    f: &mut Vec<char>,
    pretty: bool,
    indent: &Vec<char>,
)
    requires
        indent@ == spaces(indent@.len()),
    ensures
        final(f)@ == old(f)@ + serialized_members(
            crate::json_node::members_of(prop_list@),
            pretty,
            indent@.len(),
        ),
    decreases prop_list, 0int,
{
    let ghost head = f@;
    let ghost width = indent@.len();
    let ghost members = crate::json_node::members_of(prop_list@);
    let mut i: usize = 0;
    proof {
        lemma_members_of(prop_list@);
        assert(members.take(0) =~= Seq::<(Seq<char>, Value)>::empty());
        assert(head + Seq::<char>::empty() =~= head);
    }
    while i < prop_list.len()
        invariant
            members == crate::json_node::members_of(prop_list@),
            members.len() == prop_list@.len(),
            forall|k: int|
                0 <= k < prop_list@.len() ==> #[trigger] members[k] == (
                    prop_list@[k].name@,
                    prop_list@[k].value@,
                ),
            indent@ == spaces(width),
            i <= prop_list@.len(),
            f@ == head + serialized_members(members.take(i as int), pretty, width),
        decreases prop_list@.len() - i,
    {
        let ghost done = serialized_members(members.take(i as int), pretty, width);
        if i > 0 {
            write_separator(f, pretty);
        }
        let ghost before = f@;
        let prop = &prop_list[i];
        write_margin(f, pretty, indent);
        write_quoted(f, &prop.name);
        f.push(':');
        f.push(' ');
        assert(decreases_to!(*prop_list => prop_list[i as int]));
        assert(decreases_to!(prop_list[i as int] => prop_list[i as int].value));
        prop.value.fmt_indent(f, pretty, indent, true);
        proof {
            let upto = members.take(i + 1);
            assert(upto =~= members.take(i as int).push(members[i as int]));
            lemma_serialized_members_push(members.take(i as int), members[i as int], pretty, width);
            let one = serialized_member(members[i as int], pretty, width);
            assert(f@ =~= before + one);
            if i > 0 {
                assert(f@ =~= head + (done + separator(pretty) + one));
            } else {
                assert(done =~= Seq::<char>::empty());
                assert(f@ =~= head + one);
            }
        }
        i += 1;
    }
    proof {
        assert(members.take(i as int) =~= members);
    }
}

/// Appends the text of a node that has no children to `f`.
fn fmt_plain(node: &JsonNode, f: &mut Vec<char>, pretty: bool, indent: &Vec<char>, no_plain_indent: bool)
    requires
        indent@ == spaces(indent@.len()),
        !(node is Array),
        !(node is Object),
    ensures
        final(f)@ == old(f)@ + serialized(node@, pretty, indent@.len(), no_plain_indent),
{
    if !no_plain_indent {
        write_margin(f, pretty, indent);
    }
    let ghost lead = f@;
    match node {
        JsonNode::PlainNull => {
            f.push('n');
            f.push('u');
            f.push('l');
            f.push('l');
            assert(f@ =~= lead + seq!['n', 'u', 'l', 'l']);
        },
        JsonNode::PlainBoolean(b) => {
            if *b {
                f.push('t');
                f.push('r');
                f.push('u');
                f.push('e');
                assert(f@ =~= lead + seq!['t', 'r', 'u', 'e']);
            } else {
                f.push('f');
                f.push('a');
                f.push('l');
                f.push('s');
                f.push('e');
                assert(f@ =~= lead + seq!['f', 'a', 'l', 's', 'e']);
            }
        },
        JsonNode::PlainNumber(n) => {
            let chars = chars_of(n.as_str());
            write_chars(f, chars.as_slice());
        },
        JsonNode::PlainString(s) => {
            write_quoted(f, s);
        },
        _ => {},
    }
    proof {
        assert(f@ =~= old(f)@ + serialized(node@, pretty, indent@.len(), no_plain_indent));
    }
}

impl JsonNode {
    /// Appends the text of the node to `f`: on one line, or in the indented
    /// form with the node at the margin `indent`. With `no_plain_indent`
    /// the node follows something on its line and gets no margin of its
    /// own.
    fn fmt_indent(&self, f: &mut Vec<char>, pretty: bool, indent: &Vec<char>, no_plain_indent: bool)
        requires
            indent@ == spaces(indent@.len()),
        ensures
            final(f)@ == old(f)@ + serialized(self@, pretty, indent@.len(), no_plain_indent),
        decreases self, 1int,
    {
        let ghost start = f@;
        let ghost width = indent@.len();
        match self {
            JsonNode::Object(prop_list) => {
                let next = deeper(indent);
                f.push('{');
                write_line_end(f, pretty);
                assert(decreases_to!(*self => self->Object_0));
                fmt_members(prop_list, f, pretty, &next);
                write_line_end(f, pretty);
                write_margin(f, pretty, indent);
                f.push('}');
                proof {
                    let inner = serialized_members(
                        crate::json_node::members_of(prop_list@),
                        pretty,
                        width + 4,
                    );
                    assert(f@ =~= start + (seq!['{'] + line_end(pretty) + inner + line_end(pretty)
                        + margin(pretty, width) + seq!['}']));
                }
            },
            JsonNode::Array(arr) => {
                let next = deeper(indent);
                f.push('[');
                write_line_end(f, pretty);
                assert(decreases_to!(*self => self->Array_0));
                fmt_items(arr, f, pretty, &next);
                write_line_end(f, pretty);
                write_margin(f, pretty, indent);
                f.push(']');
                proof {
                    let inner = serialized_items(crate::json_node::values_of(arr@), pretty, width + 4);
                    assert(f@ =~= start + (seq!['['] + line_end(pretty) + inner + line_end(pretty)
                        + margin(pretty, width) + seq![']']));
                }
            },
            _ => {
                fmt_plain(self, f, pretty, indent, no_plain_indent);
            },
        }
    }

    /// The text of the node on one line.
    pub fn to_string(&self) -> (text: String)
        ensures
            text@ == compact_text(self@),
    {
        let mut f: Vec<char> = Vec::new();
        let indent: Vec<char> = Vec::new();
        assert(indent@ =~= spaces(0));
        self.fmt_indent(&mut f, false, &indent, false);
        assert(Seq::<char>::empty() + compact_text(self@) =~= compact_text(self@));
        string_from_chars(f.as_slice())
    }

    /// The text of the node in the indented form: a line for every element
    /// and every property, four spaces further in at every level.
    pub fn to_pretty_string(&self) -> (text: String)
        ensures
            text@ == pretty_text(self@),
    {
        let mut f: Vec<char> = Vec::new();
        let indent: Vec<char> = Vec::new();
        assert(indent@ =~= spaces(0));
        self.fmt_indent(&mut f, true, &indent, false);
        assert(Seq::<char>::empty() + pretty_text(self@) =~= pretty_text(self@));
        string_from_chars(f.as_slice())
    }
}

} // verus!
