//! The value tree of a JSON document, and the parser that builds it from
//! tokens.

use crate::error::{Failure, JsonError};
use crate::json_tag::{tokens, tokens_of, JsonTag, Token};
use crate::text::{chars_of, digit, is_digit, string_from_chars};
use vstd::prelude::*;
use vstd::utf8::{decode_utf8, valid_utf8};

verus! {

/// The mathematical value of a JSON document.
///
/// A number is held as its text. The properties of an object keep the order
/// in which they were written, and a name may occur more than once.
pub enum Value {
    Null,
    String(Seq<char>),
    Number(Seq<char>),
    Boolean(bool),
    Array(Seq<Value>),
    Object(Seq<(Seq<char>, Value)>),
}

/// One property of a JSON object: a name and the value it holds.
#[derive(Debug, PartialEq)]
pub struct JsonObjProp {
    pub name: String,
    pub value: JsonNode,
}

/// A node of a JSON document.
#[derive(Debug, PartialEq)]
pub enum JsonNode {
    PlainNull,
    PlainString(String),
    /// A number, held as the text that it was written with.
    PlainNumber(String),
    PlainBoolean(bool),
    Array(Vec<JsonNode>),
    Object(Vec<JsonObjProp>),
}

/// The value of a node.
pub open spec fn value_of(node: JsonNode) -> Value
    decreases node, 0int,
{
    match node {
        JsonNode::PlainNull => Value::Null,
        JsonNode::PlainString(text) => Value::String(text@),
        JsonNode::PlainNumber(text) => Value::Number(text@),
        JsonNode::PlainBoolean(b) => Value::Boolean(b),
        JsonNode::Array(items) => Value::Array(values_of(items@)),
        JsonNode::Object(props) => Value::Object(members_of(props@)),
    }
}

/// The values of a list of nodes.
pub open spec fn values_of(nodes: Seq<JsonNode>) -> Seq<Value>
    decreases nodes, 1int,
{
    if nodes.len() == 0 {
        Seq::empty()
    } else {
        values_of(nodes.drop_last()).push(value_of(nodes.last()))
    }
}

/// The names and values of a list of properties.
pub open spec fn members_of(props: Seq<JsonObjProp>) -> Seq<(Seq<char>, Value)>
    decreases props, 1int,
{
    if props.len() == 0 {
        Seq::empty()
    } else {
        members_of(props.drop_last()).push((props.last().name@, value_of(props.last().value)))
    }
}

impl View for JsonNode {
    type V = Value;

    open spec fn view(&self) -> Value {
        value_of(*self)
    }
}

/// The values of a list of nodes are as many as the nodes, and each is
/// the value of its node.
pub broadcast proof fn lemma_values_of(nodes: Seq<JsonNode>)
    ensures
        #![trigger values_of(nodes)]
        values_of(nodes).len() == nodes.len(),
        forall|i: int| 0 <= i < nodes.len() ==> (#[trigger] values_of(nodes)[i]) == nodes[i]@,
    decreases nodes.len(),
{
    if nodes.len() > 0 {
        lemma_values_of(nodes.drop_last());
    }
}

/// The members of a list of properties are as many as the properties, and
/// each is the name and the value of its property.
pub broadcast proof fn lemma_members_of(props: Seq<JsonObjProp>)
    ensures
        #![trigger members_of(props)]
        members_of(props).len() == props.len(),
        forall|i: int|
            0 <= i < props.len() ==> (#[trigger] members_of(props)[i]) == (
                props[i].name@,
                props[i].value@,
            ),
    decreases props.len(),
{
    if props.len() > 0 {
        lemma_members_of(props.drop_last());
    }
}

impl Clone for JsonNode {
    /// A copy of the node with all that it holds.
    fn clone(&self) -> (copy: Self)
        ensures
            copy@ == self@,
        decreases self,
    {
        broadcast use {lemma_values_of, lemma_members_of};

        match self {
            JsonNode::PlainNull => JsonNode::PlainNull,
            JsonNode::PlainString(text) => JsonNode::PlainString(text.clone()),
            JsonNode::PlainNumber(text) => JsonNode::PlainNumber(text.clone()),
            JsonNode::PlainBoolean(b) => JsonNode::PlainBoolean(*b),
            JsonNode::Array(items) => {
                let mut copies: Vec<JsonNode> = Vec::new();
                let mut i: usize = 0;
                while i < items.len()
                    invariant
                        *self == JsonNode::Array(*items),
                        i <= items.len(),
                        copies.len() == i,
                        forall|k: int| 0 <= k < i ==> (#[trigger] copies[k])@ == items[k]@,
                    decreases items.len() - i,
                {
                    assert(decreases_to!(*self => self->Array_0));
                    assert(decreases_to!(*items => items[i as int]));
                    copies.push(items[i].clone());
                    i += 1;
                }
                assert(values_of(copies@) =~= values_of(items@));
                JsonNode::Array(copies)
            },
            JsonNode::Object(props) => {
                let mut copies: Vec<JsonObjProp> = Vec::new();
                let mut i: usize = 0;
                while i < props.len()
                    invariant
                        *self == JsonNode::Object(*props),
                        i <= props.len(),
                        copies.len() == i,
                        forall|k: int|
                            0 <= k < i ==> (#[trigger] copies[k]).name@ == props[k].name@
                                && copies[k].value@ == props[k].value@,
                    decreases props.len() - i,
                {
                    assert(decreases_to!(*self => self->Object_0));
                    assert(decreases_to!(*props => props[i as int]));
                    assert(decreases_to!(props[i as int] => props[i as int].value));
                    copies.push(
                        JsonObjProp { name: props[i].name.clone(), value: props[i].value.clone() },
                    );
                    i += 1;
                }
                assert(members_of(copies@) =~= members_of(props@));
                JsonNode::Object(copies)
            },
        }
    }
}

impl Clone for JsonObjProp {
    /// A copy of the property with all that its value holds.
    fn clone(&self) -> (copy: Self)
        ensures
            copy.name@ == self.name@,
            copy.value@ == self.value@,
    {
        JsonObjProp { name: self.name.clone(), value: self.value.clone() }
    }
}

impl JsonObjProp {
    /// A property with this name and this value.
    pub fn new(name: String, value: JsonNode) -> (prop: Self)
        ensures
            prop.name == name,
            prop.value == value,
    {
        JsonObjProp { name, value }
    }
}

/// Whether `text` stands between a pair of single or of double quotes.
pub open spec fn is_quoted(text: Seq<char>) -> bool {
    text.len() > 1 && ((text.first() == '\'' && text.last() == '\'') || (text.first() == '"'
        && text.last() == '"'))
}

/// `text` without the pair of quotes around it, if it has one.
pub open spec fn unquoted(text: Seq<char>) -> Seq<char> {
    if is_quoted(text) {
        text.subrange(1, text.len() - 1)
    } else {
        text
    }
}

/// Whether `text` holds digits and at most one `.`, and nothing else.
pub open spec fn is_number_shaped(text: Seq<char>) -> bool {
    &&& forall|i: int| 0 <= i < text.len() ==> is_digit(#[trigger] text[i]) || text[i] == '.'
    &&& forall|i: int, j: int|
        0 <= i < j < text.len() ==> !(#[trigger] text[i] == '.' && #[trigger] text[j] == '.')
}

/// Whether `text` holds a digit.
pub open spec fn has_digit(text: Seq<char>) -> bool {
    exists|i: int| 0 <= i < text.len() && is_digit(#[trigger] text[i])
}

/// Whether `c` is a letter in either case.
pub open spec fn is_letter(c: char, lower: char, upper: char) -> bool {
    c == lower || c == upper
}

/// The word `true`, in any mix of upper and lower case.
pub open spec fn is_true_word(text: Seq<char>) -> bool {
    &&& text.len() == 4
    &&& is_letter(text[0], 't', 'T')
    &&& is_letter(text[1], 'r', 'R')
    &&& is_letter(text[2], 'u', 'U')
    &&& is_letter(text[3], 'e', 'E')
}

/// The word `false`, in any mix of upper and lower case.
pub open spec fn is_false_word(text: Seq<char>) -> bool {
    &&& text.len() == 5
    &&& is_letter(text[0], 'f', 'F')
    &&& is_letter(text[1], 'a', 'A')
    &&& is_letter(text[2], 'l', 'L')
    &&& is_letter(text[3], 's', 'S')
    &&& is_letter(text[4], 'e', 'E')
}

/// The word `null`, in any mix of upper and lower case.
pub open spec fn is_null_word(text: Seq<char>) -> bool {
    &&& text.len() == 4
    &&& is_letter(text[0], 'n', 'N')
    &&& is_letter(text[1], 'u', 'U')
    &&& is_letter(text[2], 'l', 'L')
    &&& is_letter(text[3], 'l', 'L')
}

/// The value that a literal stands for.
///
/// Text of digits and at most one `.` is a number, and an error where it
/// holds no digit. The words for true, false and null, in upper or lower
/// case, are what they say. All else is a string: the text between the
/// quotes where a pair of quotes stands around it, the text itself where
/// none does.
pub open spec fn plain_value(text: Seq<char>) -> Result<Value, Failure> {
    if is_number_shaped(text) {
        if has_digit(text) {
            Ok(Value::Number(text))
        } else {
            Err(Failure::NumericFormat)
        }
    } else if is_true_word(text) {
        Ok(Value::Boolean(true))
    } else if is_false_word(text) {
        Ok(Value::Boolean(false))
    } else if is_null_word(text) {
        Ok(Value::Null)
    } else {
        Ok(Value::String(unquoted(text)))
    }
}

/// The place of the `close` that matches an `open`, for a scan that stands
/// at `i` inside `depth` further pairs of the same kind; `tokens.len()`
/// where no such `close` comes. Brackets of the other kind do not count.
pub open spec fn match_end(tokens: Seq<Token>, i: int, depth: nat, open: Token, close: Token) -> int
    decreases tokens.len() - i,
{
    if i < 0 || i >= tokens.len() {
        tokens.len() as int
    } else if tokens[i] == close && depth == 0 {
        i
    } else if tokens[i] == open {
        match_end(tokens, i + 1, depth + 1, open, close)
    } else if tokens[i] == close {
        match_end(tokens, i + 1, (depth - 1) as nat, open, close)
    } else {
        match_end(tokens, i + 1, depth, open, close)
    }
}

/// `rest` with `first` put in front of what it holds.
pub open spec fn prepended<T>(first: T, rest: Result<Seq<T>, Failure>) -> Result<Seq<T>, Failure> {
    match rest {
        Ok(items) => Ok(seq![first] + items),
        Err(e) => Err(e),
    }
}

/// What the token at `i` starts, with the place after it: the value that a
/// literal stands for; the array or the object that an opening bracket
/// starts and that reaches to its matching close; and no value for any other
/// token. It is an error where the close of a bracket is missing.
pub open spec fn value_at(tokens: Seq<Token>, i: int) -> Result<(Option<Value>, int), Failure>
    decreases tokens.len(), tokens.len() - i, 0int,
{
    if i < 0 || i >= tokens.len() {
        Ok((None, i + 1))
    } else {
        match tokens[i] {
            Token::Literal(text) => match plain_value(text) {
                Ok(v) => Ok((Some(v), i + 1)),
                Err(e) => Err(e),
            },
            Token::LeftSquare => {
                let close = match_end(tokens, i + 1, 0, Token::LeftSquare, Token::RightSquare);
                if i < close < tokens.len() {
                    match parse_nodes(tokens.subrange(i + 1, close), 0) {
                        Ok(items) => Ok((Some(Value::Array(items)), close + 1)),
                        Err(e) => Err(e),
                    }
                } else {
                    Err(Failure::UnmatchedBracket(seq!['[']))
                }
            },
            Token::LeftCurly => {
                let close = match_end(tokens, i + 1, 0, Token::LeftCurly, Token::RightCurly);
                if i < close < tokens.len() {
                    match parse_members(tokens.subrange(i + 1, close), 0) {
                        Ok(members) => Ok((Some(Value::Object(members)), close + 1)),
                        Err(e) => Err(e),
                    }
                } else {
                    Err(Failure::UnmatchedBracket(seq!['{']))
                }
            },
            _ => Ok((None, i + 1)),
        }
    }
}

/// The first value that starts at `i` or later, with the place after it;
/// `None` where no value starts there. Tokens that start no value are
/// passed over.
pub open spec fn first_value(tokens: Seq<Token>, i: int) -> Result<Option<(Value, int)>, Failure>
    decreases tokens.len(), tokens.len() - i, 1int,
{
    if i < 0 || i >= tokens.len() {
        Ok(None)
    } else {
        match value_at(tokens, i) {
            Err(e) => Err(e),
            Ok((Some(v), next)) => Ok(Some((v, next))),
            Ok((None, _)) => first_value(tokens, i + 1),
        }
    }
}

/// The values that `tokens` holds from `i` on, in order.
pub open spec fn parse_nodes(tokens: Seq<Token>, i: int) -> Result<Seq<Value>, Failure>
    decreases tokens.len(), tokens.len() - i, 2int,
{
    match first_value(tokens, i) {
        Err(e) => Err(e),
        Ok(None) => Ok(Seq::empty()),
        Ok(Some((v, next))) => if i < next <= tokens.len() {
            prepended(v, parse_nodes(tokens, next))
        } else {
            Ok(seq![v])
        },
    }
}

/// The place after one comma at `i`, and `i` where no comma stands there.
pub open spec fn past_comma(tokens: Seq<Token>, i: int) -> int {
    if 0 <= i < tokens.len() && tokens[i] is Comma {
        i + 1
    } else {
        i
    }
}

/// The properties that `tokens` holds from `i` on, in order.
///
/// A property is a literal, its name, and the first value after it; one
/// comma after the value is passed over. It is an error where something
/// other than a literal stands in the place of a name, or no value follows
/// one.
pub open spec fn parse_members(tokens: Seq<Token>, i: int) -> Result<
    Seq<(Seq<char>, Value)>,
    Failure,
>
    decreases tokens.len(), tokens.len() - i, 2int,
{
    if i < 0 || i >= tokens.len() {
        Ok(Seq::empty())
    } else {
        match tokens[i] {
            Token::Literal(name) => match first_value(tokens, i + 1) {
                Err(e) => Err(e),
                Ok(None) => Err(Failure::MalformedObject),
                Ok(Some((v, next))) => if i < next <= tokens.len() {
                    prepended((unquoted(name), v), parse_members(tokens, past_comma(tokens, next)))
                } else {
                    Ok(seq![(unquoted(name), v)])
                },
            },
            _ => Err(Failure::MalformedObject),
        }
    }
}

/// `rest` with `done` put in front of what it holds.
pub open spec fn appended<T>(done: Seq<T>, rest: Result<Seq<T>, Failure>) -> Result<
    Seq<T>,
    Failure,
> {
    match rest {
        Ok(items) => Ok(done + items),
        Err(e) => Err(e),
    }
}

/// What a whole document holds: the values of its tokens, and an error
/// where the bytes are not well-formed UTF-8.
pub open spec fn document_values(bytes: Seq<u8>) -> Result<Seq<Value>, Failure> {
    if valid_utf8(bytes) {
        parse_nodes(tokens(decode_utf8(bytes)), 0)
    } else {
        Err(Failure::Io)
    }
}

/// The matching close, or the end where there is none, lies at the place
/// where the scan stands or after it.
pub proof fn lemma_match_end_bounds(
    tokens: Seq<Token>,
    i: int,
    depth: nat,
    open: Token,
    close: Token,
)
    requires
        0 <= i <= tokens.len(),
    ensures
        i <= match_end(tokens, i, depth, open, close) <= tokens.len(),
    decreases tokens.len() - i,
{
    if i < tokens.len() {
        if tokens[i] == close && depth == 0 {
        } else if tokens[i] == open {
            lemma_match_end_bounds(tokens, i + 1, depth + 1, open, close);
        } else if tokens[i] == close {
            lemma_match_end_bounds(tokens, i + 1, (depth - 1) as nat, open, close);
        } else {
            lemma_match_end_bounds(tokens, i + 1, depth, open, close);
        }
    }
}

/// A value ends after the place where it starts, and inside the tokens.
pub proof fn lemma_first_value_bounds(tokens: Seq<Token>, i: int)
    requires
        0 <= i,
    ensures
        first_value(tokens, i) matches Ok(Some((_, next))) ==> i < next <= tokens.len(),
    decreases tokens.len() - i,
{
    if i < tokens.len() {
        match value_at(tokens, i) {
            Ok((None, _)) => {
                lemma_first_value_bounds(tokens, i + 1);
            },
            _ => {},
        }
    }
}

/// How the values from `i` on follow from what the token at `i` starts.
pub proof fn lemma_parse_nodes_step(tokens: Seq<Token>, i: int)
    requires
        0 <= i < tokens.len(),
    ensures
        match value_at(tokens, i) {
            Err(e) => {
                &&& first_value(tokens, i) matches Err(failure) && failure == e
                &&& parse_nodes(tokens, i) matches Err(failure) && failure == e
            },
            Ok((None, _)) => {
                &&& first_value(tokens, i) == first_value(tokens, i + 1)
                &&& parse_nodes(tokens, i) == parse_nodes(tokens, i + 1)
            },
            Ok((Some(v), next)) => {
                &&& i < next <= tokens.len()
                &&& first_value(tokens, i) matches Ok(Some((w, n))) && w == v && n == next
                &&& parse_nodes(tokens, i) == prepended(v, parse_nodes(tokens, next))
            },
        },
{
    lemma_first_value_bounds(tokens, i);
    lemma_first_value_bounds(tokens, i + 1);
    match value_at(tokens, i) {
        Err(e) => {
            assert(first_value(tokens, i) is Err);
        },
        Ok((None, _)) => {
            assert(first_value(tokens, i) == first_value(tokens, i + 1));
        },
        Ok((Some(v), next)) => {
            assert(first_value(tokens, i) matches Ok(Some((w, n))) && w == v && n == next);
        },
    }
}

/// Past the last token there is nothing.
pub proof fn lemma_parse_end(tokens: Seq<Token>, i: int)
    requires
        i >= tokens.len(),
    ensures
        first_value(tokens, i) is Ok,
        first_value(tokens, i)->Ok_0 is None,
        parse_nodes(tokens, i) matches Ok(rest) && rest.len() == 0,
        parse_members(tokens, i) matches Ok(rest) && rest.len() == 0,
{
}

/// The tokens of a part of a list of tags are that part of its tokens.
pub proof fn lemma_tokens_of_subrange(tags: Seq<JsonTag>, from: int, to: int)
    requires
        0 <= from <= to <= tags.len(),
    ensures
        tokens_of(tags.subrange(from, to)) == tokens_of(tags).subrange(from, to),
{
    assert(tokens_of(tags.subrange(from, to)) =~= tokens_of(tags).subrange(from, to));
}

/// Whether `c` is a letter in either case.
fn letter(c: char, lower: char, upper: char) -> (b: bool)
    ensures
        b == is_letter(c, lower, upper),
{
    c == lower || c == upper
}

impl JsonNode {
    /// Reads the one value of a document.
    ///
    /// Fails as [`JsonNode::parse`] does, and where the document does not
    /// hold exactly one top-level value.
    pub fn parse_single_node(reader: &[u8]) -> (node: Result<JsonNode, JsonError>)
        ensures
            match node {
                Ok(n) => document_values(reader@) matches Ok(values) && values == seq![n@],
                Err(e) => match document_values(reader@) {
                    Ok(values) => values.len() != 1 && e@ == Failure::NotSingleNode,
                    Err(failure) => e@ == failure,
                },
            },
    {
        broadcast use lemma_values_of;

        match JsonNode::parse(reader) {
            Err(e) => Err(e),
            Ok(mut nodes) => {
                if nodes.len() != 1 {
                    return Err(JsonError::NotSingleNode);
                }
                let n = nodes.remove(0);
                assert(document_values(reader@)->Ok_0 =~= seq![n@]);
                Ok(n)
            },
        }
    }

    /// Reads the top-level values of a document.
    ///
    /// Fails where the bytes are not well-formed UTF-8, a bracket has no
    /// matching close, an object is malformed, or a number holds no digit.
    pub fn parse(reader: &[u8]) -> (nodes: Result<Vec<JsonNode>, JsonError>)
        ensures
            match nodes {
                Ok(list) => document_values(reader@) matches Ok(values) && values == values_of(
                    list@,
                ),
                Err(e) => document_values(reader@) matches Err(failure) && failure == e@,
            },
    {
        match JsonTag::parse(reader) {
            Err(e) => Err(e),
            Ok(tags) => JsonNode::parse_tags(tags.as_slice()),
        }
    }

    /// Builds the values that a list of tokens holds.
    ///
    /// Tokens that start no value are passed over. Fails where a bracket has
    /// no matching close, an object is malformed, or a number holds no digit.
    pub fn parse_tags(json_tags: &[JsonTag]) -> (nodes: Result<Vec<JsonNode>, JsonError>)
        ensures
            match nodes {
                Ok(list) => parse_nodes(tokens_of(json_tags@), 0) matches Ok(values) && values
                    == values_of(list@),
                Err(e) => parse_nodes(tokens_of(json_tags@), 0) matches Err(failure) && failure
                    == e@,
            },
        decreases json_tags@.len(), 3int,
    {
        let ghost tokens = tokens_of(json_tags@);
        let mut i: usize = 0;
        let mut json_nodes: Vec<JsonNode> = Vec::new();
        proof {
            assert(Seq::<Value>::empty() + parse_nodes(tokens, 0)->Ok_0 =~= parse_nodes(
                tokens,
                0,
            )->Ok_0);
        }
        while i < json_tags.len()
            invariant
                tokens == tokens_of(json_tags@),
                i <= json_tags@.len(),
                parse_nodes(tokens, 0) == appended(values_of(json_nodes@), parse_nodes(tokens, i as int)),
            decreases json_tags@.len() - i,
        {
            let ghost at = i as int;
            let ghost done = values_of(json_nodes@);
            proof {
                lemma_parse_nodes_step(tokens, at);
            }
            match JsonNode::parse_next(json_tags, &mut i) {
                Err(e) => {
                    return Err(e);
                },
                Ok(None) => {},
                Ok(Some(node)) => {
                    json_nodes.push(node);
                    proof {
                        broadcast use lemma_values_of;

                        assert(values_of(json_nodes@) =~= done + seq![node@]);
                        let rest = parse_nodes(tokens, i as int);
                        if rest is Ok {
                            assert(done + (seq![node@] + rest->Ok_0) =~= values_of(json_nodes@)
                                + rest->Ok_0);
                        }
                    }
                },
            }
        }
        proof {
            lemma_parse_end(tokens, i as int);
            assert(values_of(json_nodes@) + Seq::<Value>::empty() =~= values_of(json_nodes@));
        }
        Ok(json_nodes)
    }

    /// Builds what the token at `*start` starts, and moves `*start` past it.
    fn parse_next(json_tags: &[JsonTag], start: &mut usize) -> (node: Result<
        Option<JsonNode>,
        JsonError,
    >)
        requires
            *old(start) < json_tags@.len(),
        ensures
            match node {
                Ok(n) => {
                    &&& value_at(tokens_of(json_tags@), *old(start) as int) matches Ok((v, next))
                    &&& *final(start) == next
                    &&& *old(start) < next <= json_tags@.len()
                    &&& match n {
                        Some(found) => v == Some(found@),
                        None => v is None,
                    }
                },
                Err(e) => value_at(tokens_of(json_tags@), *old(start) as int) matches Err(failure)
                    && failure == e@,
            },
        decreases json_tags@.len(), 2int,
    {
        let i: usize = *start;
        let ghost tokens = tokens_of(json_tags@);
        match &json_tags[i] {
            JsonTag::Literal(literal) => {
                *start = i + 1;
                match JsonNode::parse_plain(literal.as_str()) {
                    Err(e) => Err(e),
                    Ok(n) => Ok(Some(n)),
                }
            },
            JsonTag::LeftSquare => {
                let close = match JsonNode::find_match_tag(
                    json_tags,
                    i,
                    JsonTag::LeftSquare,
                    JsonTag::RightSquare,
                ) {
                    Err(e) => {
                        return Err(e);
                    },
                    Ok(close) => close,
                };
                *start = close + 1;
                proof {
                    lemma_tokens_of_subrange(json_tags@, i as int, close + 1);
                    assert(tokens.subrange(i as int, close + 1).subrange(1, close - i) =~= tokens.subrange(
                        i + 1,
                        close as int,
                    ));
                }
                match JsonNode::parse_array(vstd::slice::slice_subrange(json_tags, i, close + 1)) {
                    Err(e) => Err(e),
                    Ok(n) => Ok(Some(n)),
                }
            },
            JsonTag::LeftCurly => {
                let close = match JsonNode::find_match_tag(
                    json_tags,
                    i,
                    JsonTag::LeftCurly,
                    JsonTag::RightCurly,
                ) {
                    Err(e) => {
                        return Err(e);
                    },
                    Ok(close) => close,
                };
                *start = close + 1;
                proof {
                    lemma_tokens_of_subrange(json_tags@, i as int, close + 1);
                    assert(tokens.subrange(i as int, close + 1).subrange(1, close - i) =~= tokens.subrange(
                        i + 1,
                        close as int,
                    ));
                }
                match JsonNode::parse_object(vstd::slice::slice_subrange(json_tags, i, close + 1)) {
                    Err(e) => Err(e),
                    Ok(n) => Ok(Some(n)),
                }
            },
            _ => {
                *start = i + 1;
                Ok(None)
            },
        }
    }

    /// Finds the close that matches the opening bracket at `start`. Only
    /// brackets of the same kind are counted on the way.
    fn find_match_tag(
        json_tags: &[JsonTag],
        start: usize,
        left_pair_tag: JsonTag,
        right_pair_tag: JsonTag,
    ) -> (close: Result<usize, JsonError>)
        requires
            start < json_tags@.len(),
        ensures
            match close {
                Ok(at) => {
                    &&& at == match_end(
                        tokens_of(json_tags@),
                        start + 1,
                        0,
                        left_pair_tag@,
                        right_pair_tag@,
                    )
                    &&& start < at < json_tags@.len()
                },
                Err(e) => {
                    &&& match_end(tokens_of(json_tags@), start + 1, 0, left_pair_tag@, right_pair_tag@)
                        >= json_tags@.len()
                    &&& e@ == Failure::UnmatchedBracket(crate::json_tag::token_text(left_pair_tag@))
                },
            },
    {
        let ghost tokens = tokens_of(json_tags@);
        let len = json_tags.len();
        let mut i: usize = start + 1;
        let mut mismatch: usize = 0;
        proof {
            lemma_match_end_bounds(tokens, start + 1, 0, left_pair_tag@, right_pair_tag@);
        }
        while i < len && !(json_tags[i] == right_pair_tag && mismatch == 0)
            invariant
                tokens == tokens_of(json_tags@),
                len == json_tags@.len(),
                start < i <= len,
                mismatch <= i - start - 1,
                match_end(tokens, i as int, mismatch as nat, left_pair_tag@, right_pair_tag@)
                    == match_end(tokens, start + 1, 0, left_pair_tag@, right_pair_tag@),
            decreases json_tags@.len() - i,
        {
            if json_tags[i] == left_pair_tag {
                mismatch += 1;
            } else if json_tags[i] == right_pair_tag {
                mismatch -= 1;
            }
            i += 1;
        }
        if i >= len {
            return Err(JsonError::UnmatchedBracket(left_pair_tag.text()));
        }
        Ok(i)
    }

    /// The value that a literal stands for.
    fn parse_plain(literal: &str) -> (node: Result<JsonNode, JsonError>)
        ensures
            match node {
                Ok(n) => plain_value(literal@) matches Ok(v) && v == n@,
                Err(e) => plain_value(literal@) matches Err(failure) && failure == e@,
            },
    {
        let chars = chars_of(literal);
        let len = chars.len();
        let mut shaped = true;
        let mut seen_dot = false;
        let mut seen_digit = false;
        let mut i: usize = 0;
        while i < len && shaped
            invariant
                len == chars@.len(),
                i <= len,
                shaped ==> is_number_shaped(chars@.take(i as int)),
                !shaped ==> !is_number_shaped(chars@),
                shaped ==> (seen_dot <==> exists|k: int| 0 <= k < i && #[trigger] chars@[k] == '.'),
                shaped ==> (seen_digit <==> has_digit(chars@.take(i as int))),
            decreases len - i,
        {
            let c = chars[i];
            let ghost before = chars@.take(i as int);
            let ghost after = chars@.take(i + 1);
            if digit(c) {
                seen_digit = true;
                proof {
                    assert(after[i as int] == c);
                    assert forall|k: int| 0 <= k < after.len() implies is_digit(#[trigger] after[k])
                        || after[k] == '.' by {
                        if k < i {
                            assert(before[k] == after[k]);
                        }
                    }
                    assert forall|a: int, b: int| 0 <= a < b < after.len() implies !(#[trigger] after[a]
                        == '.' && #[trigger] after[b] == '.') by {
                        if b < i {
                            assert(before[a] == after[a] && before[b] == after[b]);
                        }
                    }
                }
            } else if c == '.' && !seen_dot {
                seen_dot = true;
                proof {
                    assert forall|k: int| 0 <= k < after.len() implies is_digit(#[trigger] after[k])
                        || after[k] == '.' by {
                        if k < i {
                            assert(before[k] == after[k]);
                        }
                    }
                    assert forall|a: int, b: int| 0 <= a < b < after.len() implies !(#[trigger] after[a]
                        == '.' && #[trigger] after[b] == '.') by {
                        if b < i {
                            assert(before[a] == after[a] && before[b] == after[b]);
                        } else {
                            assert(after[a] == chars@[a]);
                        }
                    }
                    if has_digit(before) {
                        let k = choose|k: int| 0 <= k < before.len() && is_digit(#[trigger] before[k]);
                        assert(is_digit(after[k]));
                    }
                    if has_digit(after) {
                        let k = choose|k: int| 0 <= k < after.len() && is_digit(#[trigger] after[k]);
                        assert(is_digit(before[k]));
                    }
                }
            } else {
                shaped = false;
                proof {
                    if c == '.' {
                        let k = choose|k: int| 0 <= k < i && #[trigger] chars@[k] == '.';
                        assert(chars@[k] == '.' && chars@[i as int] == '.');
                    } else {
                        assert(!(is_digit(chars@[i as int]) || chars@[i as int] == '.'));
                    }
                }
            }
            proof {
                if shaped && is_digit(c) {
                    assert(is_digit(after[i as int]));
                    assert(has_digit(after));
                }
            }
            i += 1;
        }
        if shaped {
            assert(chars@.take(len as int) =~= chars@);
            if seen_digit {
                return Ok(JsonNode::PlainNumber(string_from_chars(chars.as_slice())));
            }
            return Err(JsonError::NumericFormat);
        }
        if len == 4 {
            let (a, b, c, d) = (chars[0], chars[1], chars[2], chars[3]);
            if letter(a, 't', 'T') && letter(b, 'r', 'R') && letter(c, 'u', 'U') && letter(
                d,
                'e',
                'E',
            ) {
                return Ok(JsonNode::PlainBoolean(true));
            }
            if letter(a, 'n', 'N') && letter(b, 'u', 'U') && letter(c, 'l', 'L') && letter(
                d,
                'l',
                'L',
            ) {
                return Ok(JsonNode::PlainNull);
            }
        }
        if len == 5 {
            let (a, b, c, d, e) = (chars[0], chars[1], chars[2], chars[3], chars[4]);
            if letter(a, 'f', 'F') && letter(b, 'a', 'A') && letter(c, 'l', 'L') && letter(
                d,
                's',
                'S',
            ) && letter(e, 'e', 'E') {
                return Ok(JsonNode::PlainBoolean(false));
            }
        }
        Ok(JsonNode::PlainString(JsonNode::strip_quotes(&chars)))
    }

    /// The string of `chars` without the pair of quotes around them, if they
    /// have one.
    fn strip_quotes(chars: &Vec<char>) -> (text: String)
        ensures
            text@ == unquoted(chars@),
    {
        let len = chars.len();
        if len > 1 && ((chars[0] == '\'' && chars[len - 1] == '\'') || (chars[0] == '"'
            && chars[len - 1] == '"')) {
            string_from_chars(vstd::slice::slice_subrange(chars.as_slice(), 1, len - 1))
        } else {
            string_from_chars(chars.as_slice())
        }
    }

    /// Builds the array that the tokens between a pair of square brackets
    /// hold.
    fn parse_array(json_tags: &[JsonTag]) -> (node: Result<JsonNode, JsonError>)
        requires
            json_tags@.len() >= 2,
        ensures
            match node {
                Ok(n) => parse_nodes(
                    tokens_of(json_tags@).subrange(1, json_tags@.len() - 1),
                    0,
                ) matches Ok(items) && n@ == Value::Array(items),
                Err(e) => parse_nodes(
                    tokens_of(json_tags@).subrange(1, json_tags@.len() - 1),
                    0,
                ) matches Err(failure) && failure == e@,
            },
        decreases json_tags@.len(), 1int,
    {
        let inner_tags = vstd::slice::slice_subrange(json_tags, 1, json_tags.len() - 1);
        let ghost tokens = tokens_of(inner_tags@);
        proof {
            lemma_tokens_of_subrange(json_tags@, 1, json_tags@.len() - 1);
        }
        let mut i: usize = 0;
        let mut inner_nodes: Vec<JsonNode> = Vec::new();
        proof {
            assert(Seq::<Value>::empty() + parse_nodes(tokens, 0)->Ok_0 =~= parse_nodes(
                tokens,
                0,
            )->Ok_0);
        }
        while i < inner_tags.len()
            invariant
                tokens == tokens_of(inner_tags@),
                tokens == tokens_of(json_tags@).subrange(1, json_tags@.len() - 1),
                inner_tags@.len() < json_tags@.len(),
                i <= inner_tags@.len(),
                parse_nodes(tokens, 0) == appended(values_of(inner_nodes@), parse_nodes(tokens, i as int)),
            decreases inner_tags@.len() - i,
        {
            let ghost at = i as int;
            let ghost done = values_of(inner_nodes@);
            proof {
                lemma_parse_nodes_step(tokens, at);
            }
            let node = match JsonNode::parse_next(inner_tags, &mut i) {
                Err(e) => {
                    return Err(e);
                },
                Ok(node) => node,
            };
            match node {
                None => {
                    continue;
                },
                Some(node) => {
                    inner_nodes.push(node);
                    proof {
                        broadcast use lemma_values_of;

                        assert(values_of(inner_nodes@) =~= done + seq![node@]);
                        let rest = parse_nodes(tokens, i as int);
                        if rest is Ok {
                            assert(done + (seq![node@] + rest->Ok_0) =~= values_of(inner_nodes@)
                                + rest->Ok_0);
                        }
                    }
                },
            }
            // skip comma symbol
            if i < inner_tags.len() {
                if let JsonTag::Comma = inner_tags[i] {
                    proof {
                        assert(tokens[i as int] is Comma);
                        lemma_parse_nodes_step(tokens, i as int);
                    }
                    i += 1;
                }
            }
        }
        proof {
            lemma_parse_end(tokens, i as int);
            assert(values_of(inner_nodes@) + Seq::<Value>::empty() =~= values_of(inner_nodes@));
        }
        Ok(JsonNode::Array(inner_nodes))
    }

    /// Builds the object that the tokens between a pair of curly brackets
    /// hold.
    fn parse_object(json_tags: &[JsonTag]) -> (node: Result<JsonNode, JsonError>)
        requires
            json_tags@.len() >= 2,
        ensures
            match node {
                Ok(n) => parse_members(
                    tokens_of(json_tags@).subrange(1, json_tags@.len() - 1),
                    0,
                ) matches Ok(members) && n@ == Value::Object(members),
                Err(e) => parse_members(
                    tokens_of(json_tags@).subrange(1, json_tags@.len() - 1),
                    0,
                ) matches Err(failure) && failure == e@,
            },
        decreases json_tags@.len(), 1int,
    {
        let inner_tags = vstd::slice::slice_subrange(json_tags, 1, json_tags.len() - 1);
        let ghost tokens = tokens_of(inner_tags@);
        proof {
            lemma_tokens_of_subrange(json_tags@, 1, json_tags@.len() - 1);
        }
        let mut i: usize = 0;
        let mut prop_list: Vec<JsonObjProp> = Vec::new();
        proof {
            assert(Seq::<(Seq<char>, Value)>::empty() + parse_members(tokens, 0)->Ok_0
                =~= parse_members(tokens, 0)->Ok_0);
        }
        while i < inner_tags.len()
            invariant
                tokens == tokens_of(inner_tags@),
                tokens == tokens_of(json_tags@).subrange(1, json_tags@.len() - 1),
                inner_tags@.len() < json_tags@.len(),
                i <= inner_tags@.len(),
                parse_members(tokens, 0) == appended(
                    members_of(prop_list@),
                    parse_members(tokens, i as int),
                ),
            decreases inner_tags@.len() - i,
        {
            let ghost at = i as int;
            let ghost done = members_of(prop_list@);
            assert(tokens[at] == inner_tags@[at]@);
            let prop_name = match &inner_tags[i] {
                JsonTag::Literal(text) => JsonNode::strip_quotes(&chars_of(text.as_str())),
                _ => {
                    return Err(JsonError::MalformedObject);
                },
            };
            // the value is what comes first after the name
            let mut start: usize = i + 1;
            let mut value_node: Option<JsonNode> = None;
            while start < inner_tags.len() && value_node.is_none()
                invariant
                    tokens == tokens_of(inner_tags@),
                    tokens == tokens_of(json_tags@).subrange(1, json_tags@.len() - 1),
                    inner_tags@.len() < json_tags@.len(),
                    0 <= at < start <= inner_tags@.len(),
                    tokens[at] is Literal,
                    parse_members(tokens, 0) == appended(done, parse_members(tokens, at)),
                    match value_node {
                        None => first_value(tokens, at + 1) == first_value(tokens, start as int),
                        Some(found) => first_value(tokens, at + 1) matches Ok(Some((v, next)))
                            && v == found@ && next == start,
                    },
                decreases inner_tags@.len() - start,
            {
                proof {
                    lemma_parse_nodes_step(tokens, start as int);
                }
                match JsonNode::parse_next(inner_tags, &mut start) {
                    Err(e) => {
                        proof {
                            assert(first_value(tokens, at + 1) matches Err(failure) && failure == e@);
                            assert(parse_members(tokens, at) matches Err(failure) && failure == e@);
                        }
                        return Err(e);
                    },
                    Ok(node) => {
                        value_node = node;
                    },
                }
            }
            let value = match value_node {
                None => {
                    return Err(JsonError::MalformedObject);
                },
                Some(value) => value,
            };
            i = start;
            proof {
                lemma_first_value_bounds(tokens, at + 1);
            }
            // skip comma symbol
            if i < inner_tags.len() {
                if let JsonTag::Comma = inner_tags[i] {
                    i += 1;
                }
            }
            let ghost member = (prop_name@, value@);
            prop_list.push(JsonObjProp::new(prop_name, value));
            proof {
                broadcast use lemma_members_of;

                assert(members_of(prop_list@) =~= done + seq![member]);
                let rest = parse_members(tokens, i as int);
                if rest is Ok {
                    assert(done + (seq![member] + rest->Ok_0) =~= members_of(prop_list@)
                        + rest->Ok_0);
                }
            }
        }
        proof {
            lemma_parse_end(tokens, i as int);
            assert(members_of(prop_list@) + Seq::<(Seq<char>, Value)>::empty() =~= members_of(
                prop_list@,
            ));
        }
        Ok(JsonNode::Object(prop_list))
    }
}

} // verus!
