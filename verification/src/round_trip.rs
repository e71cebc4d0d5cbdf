//! Reading back what was written: the text of a document, on one line or
//! indented, is read as that same document.
//!
//! This holds of the documents that can be written without loss: a number
//! must be text that is read as a number, and a string or a name must stay
//! within its quotes when it is written between them, since nothing in it is
//! escaped on the way out.

use crate::error::Failure;
use crate::json_node::{
    document_values, first_value, has_digit, is_false_word, is_null_word, is_number_shaped,
    is_quoted, is_true_word, lemma_parse_end, lemma_parse_nodes_step, match_end, parse_members,
    parse_nodes, past_comma, plain_value, prepended, unquoted, value_at, Value,
};
use crate::json_tag::{
    blank_len, literal_end, literal_len, next_token, structural_token, toggled, tokens, Token,
};
use crate::serialization::{
    line_end, margin, quoted, separator, serialized, serialized_items, serialized_member,
    serialized_members, spaces,
};
use crate::text::{is_digit, is_structural, is_whitespace};
use vstd::prelude::*;

verus! {

/// Whether `text` stays within its quotes when it is written between double
/// quotes: it holds no line break, every double quote in it follows a
/// backslash, and it does not end with a backslash.
pub open spec fn is_quote_safe(text: Seq<char>) -> bool {
    &&& forall|i: int| 0 <= i < text.len() ==> #[trigger] text[i] != '\r' && text[i] != '\n'
    &&& forall|i: int|
        0 <= i < text.len() && #[trigger] text[i] == '"' ==> i > 0 && text[i - 1] == '\\'
    &&& text.len() > 0 ==> text.last() != '\\'
}

/// Whether a document can be written without loss: its numbers are text
/// that is read as a number, and its strings and names stay within their
/// quotes.
pub open spec fn is_writable(v: Value) -> bool
    decreases v,
{
    match v {
        Value::Null => true,
        Value::Boolean(_) => true,
        Value::Number(text) => is_number_shaped(text) && has_digit(text),
        Value::String(text) => is_quote_safe(text),
        Value::Array(items) => forall|i: int| 0 <= i < items.len() ==> is_writable(#[trigger] items[i]),
        Value::Object(members) => forall|i: int|
            0 <= i < members.len() ==> is_quote_safe((#[trigger] members[i]).0) && is_writable(
                members[i].1,
            ),
    }
}

/// Whether every one of `items` can be written without loss.
pub open spec fn are_writable(items: Seq<Value>) -> bool {
    forall|i: int| 0 <= i < items.len() ==> is_writable(#[trigger] items[i])
}

/// Whether every one of `members` has a name that stays within its quotes
/// and a value that can be written without loss.
pub open spec fn are_writable_members(members: Seq<(Seq<char>, Value)>) -> bool {
    forall|i: int|
        0 <= i < members.len() ==> is_quote_safe((#[trigger] members[i]).0) && is_writable(
            members[i].1,
        )
}

/// The tokens that the text of a value is made of.
pub open spec fn value_tokens(v: Value) -> Seq<Token>
    decreases v, 0int,
{
    match v {
        Value::Null => seq![Token::Literal(seq!['n', 'u', 'l', 'l'])],
        Value::Boolean(b) => if b {
            seq![Token::Literal(seq!['t', 'r', 'u', 'e'])]
        } else {
            seq![Token::Literal(seq!['f', 'a', 'l', 's', 'e'])]
        },
        Value::Number(text) => seq![Token::Literal(text)],
        Value::String(text) => seq![Token::Literal(quoted(text))],
        Value::Array(items) => seq![Token::LeftSquare] + items_tokens(items) + seq![
            Token::RightSquare,
        ],
        Value::Object(members) => seq![Token::LeftCurly] + members_tokens(members) + seq![
            Token::RightCurly,
        ],
    }
}

/// The tokens of the elements of an array, with commas between them.
pub open spec fn items_tokens(items: Seq<Value>) -> Seq<Token>
    decreases items, 1int,
{
    if items.len() == 0 {
        Seq::empty()
    } else if items.len() == 1 {
        value_tokens(items[0])
    } else {
        value_tokens(items[0]) + seq![Token::Comma] + items_tokens(items.skip(1))
    }
}

/// The tokens of a property: its name, a colon and its value.
pub open spec fn member_tokens(member: (Seq<char>, Value)) -> Seq<Token>
    decreases member, 0int,
{
    seq![Token::Literal(quoted(member.0)), Token::Colon] + value_tokens(member.1)
}

/// The tokens of the properties of an object, with commas between them.
pub open spec fn members_tokens(members: Seq<(Seq<char>, Value)>) -> Seq<Token>
    decreases members, 1int,
{
    if members.len() == 0 {
        Seq::empty()
    } else if members.len() == 1 {
        member_tokens(members[0])
    } else {
        member_tokens(members[0]) + seq![Token::Comma] + members_tokens(members.skip(1))
    }
}

/// Whether a literal that stands before `rest` ends there: `rest` is empty
/// or starts with white space or a structural character.
pub open spec fn ends_literal(rest: Seq<char>) -> bool {
    rest.len() == 0 || is_whitespace(rest[0]) || is_structural(rest[0])
}

/// Whether `c` is an ordinary character of a literal: no white space, no
/// structural character, no quote and no backslash.
pub open spec fn is_plain_char(c: char) -> bool {
    !is_whitespace(c) && !is_structural(c) && c != '\\' && c != '\'' && c != '"'
}

/// Whether `text` is a word: not empty, and of ordinary characters only.
pub open spec fn is_word(text: Seq<char>) -> bool {
    text.len() > 0 && forall|i: int| 0 <= i < text.len() ==> is_plain_char(#[trigger] text[i])
}

/// White space before a text adds no token.
pub proof fn lemma_tokens_after_blank(c: char, rest: Seq<char>)
    requires
        is_whitespace(c),
    ensures
        tokens(seq![c] + rest) == tokens(rest),
{
    let text = seq![c] + rest;
    assert(text[0] == c);
    assert(text.skip(1) =~= rest);
    crate::json_tag::lemma_blank_len(rest);
    let blank = blank_len(rest) as int;
    assert(blank_len(text) == 1 + blank);
    if blank < rest.len() {
        assert(text[1 + blank] == rest[blank]);
        assert(text.skip(1 + blank) =~= rest.skip(blank));
        if !is_structural(rest[blank]) {
            let len = literal_len(rest.skip(blank));
            crate::json_tag::lemma_literal_end_bounds(rest.skip(blank), 0, None, false, false);
            assert(text.subrange(1 + blank, 1 + blank + len) =~= rest.subrange(blank, blank + len));
            assert(text.skip(1 + blank + len) =~= rest.skip(blank + len));
        } else {
            assert(text.skip(1 + blank + 1) =~= rest.skip(blank + 1));
        }
    }
}

/// White space before a text adds no token.
pub proof fn lemma_tokens_after_blanks(blanks: Seq<char>, rest: Seq<char>)
    requires
        forall|i: int| 0 <= i < blanks.len() ==> is_whitespace(#[trigger] blanks[i]),
    ensures
        tokens(blanks + rest) == tokens(rest),
    decreases blanks.len(),
{
    if blanks.len() == 0 {
        assert(blanks + rest =~= rest);
    } else {
        let later = blanks.skip(1);
        assert forall|i: int| 0 <= i < later.len() implies is_whitespace(#[trigger] later[i]) by {
            assert(later[i] == blanks[i + 1]);
        }
        lemma_tokens_after_blanks(later, rest);
        assert(blanks + rest =~= seq![blanks[0]] + (later + rest));
        lemma_tokens_after_blank(blanks[0], later + rest);
    }
}

/// A structural character is a token of its own.
pub proof fn lemma_tokens_after_structural(c: char, rest: Seq<char>)
    requires
        is_structural(c),
    ensures
        tokens(seq![c] + rest) == seq![structural_token(c)] + tokens(rest),
{
    let text = seq![c] + rest;
    assert(text[0] == c);
    assert(!is_whitespace(c));
    assert(blank_len(text) == 0);
    assert(text.skip(1) =~= rest);
}

/// A literal that ends where the text after it starts is a token of its
/// own.
pub proof fn lemma_tokens_after_literal(literal: Seq<char>, rest: Seq<char>)
    requires
        literal.len() > 0,
        !is_whitespace(literal[0]),
        !is_structural(literal[0]),
        literal_len(literal + rest) == literal.len(),
    ensures
        tokens(literal + rest) == seq![Token::Literal(literal)] + tokens(rest),
{
    let text = literal + rest;
    let len = literal.len() as int;
    assert(text[0] == literal[0]);
    assert(blank_len(text) == 0);
    assert(text.skip(0) =~= text);
    assert(text.subrange(0, len) =~= literal);
    assert(text.skip(len) =~= rest);
}

/// A word ends where the text after it starts.
pub proof fn lemma_word_end(word: Seq<char>, rest: Seq<char>, i: int)
    requires
        is_word(word),
        ends_literal(rest),
        0 <= i <= word.len(),
    ensures
        literal_end(word + rest, i, None, false, false) == word.len(),
    decreases word.len() - i,
{
    let text = word + rest;
    if i < word.len() {
        assert(text[i] == word[i]);
        assert(is_plain_char(word[i]));
        lemma_word_end(word, rest, i + 1);
    } else if rest.len() > 0 {
        assert(text[i] == rest[0]);
        assert(rest[0] != '\\' && rest[0] != '\'' && rest[0] != '"');
    }
}

/// A word before a text that ends it is a token of its own.
pub proof fn lemma_tokens_after_word(word: Seq<char>, rest: Seq<char>)
    requires
        is_word(word),
        ends_literal(rest),
    ensures
        tokens(word + rest) == seq![Token::Literal(word)] + tokens(rest),
{
    lemma_word_end(word, rest, 0);
    assert(is_plain_char(word[0]));
    lemma_tokens_after_literal(word, rest);
}

/// A text that stays within its quotes ends, written between quotes, where
/// the text after it starts.
pub proof fn lemma_quoted_end(text: Seq<char>, rest: Seq<char>, i: int)
    requires
        is_quote_safe(text),
        ends_literal(rest),
        1 <= i <= text.len() + 1,
    ensures
        literal_end(
            quoted(text) + rest,
            i,
            Some('"'),
            i >= 2 && text[i - 2] == '\\',
            false,
        ) == text.len() + 2,
    decreases text.len() + 2 - i,
{
    let whole = quoted(text) + rest;
    let escape = i >= 2 && text[i - 2] == '\\';
    if i <= text.len() {
        let c = text[i - 1];
        assert(whole[i] == c);
        assert(c != '\r' && c != '\n');
        if c == '"' {
            assert(escape);
        }
        lemma_quoted_end(text, rest, i + 1);
    } else {
        assert(whole[i] == '"');
        assert(!escape);
        assert(toggled(Some('"'), '"') == None::<char>);
        if rest.len() > 0 {
            assert(whole[i + 1] == rest[0]);
            assert(rest[0] != '\\' && rest[0] != '\'' && rest[0] != '"');
            assert(rest[0] != '\r' && rest[0] != '\n' || is_whitespace(rest[0]));
        }
        assert(literal_end(whole, i + 1, None, false, false) == text.len() + 2);
    }
}

/// A text between quotes before a text that ends it is a token of its own.
pub proof fn lemma_tokens_after_quoted(text: Seq<char>, rest: Seq<char>)
    requires
        is_quote_safe(text),
        ends_literal(rest),
    ensures
        tokens(quoted(text) + rest) == seq![Token::Literal(quoted(text))] + tokens(rest),
{
    let whole = quoted(text) + rest;
    assert(whole[0] == '"');
    lemma_quoted_end(text, rest, 1);
    assert(literal_end(whole, 0, None, false, false) == literal_end(
        whole,
        1,
        Some('"'),
        false,
        false,
    ));
    lemma_tokens_after_literal(quoted(text), rest);
}

/// The margin, the end of a line and what follows the comma of a separator
/// are white space.
pub proof fn lemma_layout_is_blank(pretty: bool, indent: nat)
    ensures
        forall|i: int| 0 <= i < margin(pretty, indent).len() ==> is_whitespace(
            #[trigger] margin(pretty, indent)[i],
        ),
        forall|i: int| 0 <= i < line_end(pretty).len() ==> is_whitespace(
            #[trigger] line_end(pretty)[i],
        ),
        separator(pretty).len() == 2,
        separator(pretty)[0] == ',',
        is_whitespace(separator(pretty)[1]),
{
}

/// The words for null, true and false, and the text of a number, are words.
pub proof fn lemma_scalar_words(v: Value)
    requires
        is_writable(v),
        v is Null || v is Boolean || v is Number,
    ensures
        is_word(serialized(v, false, 0, true)),
        value_tokens(v) == seq![Token::Literal(serialized(v, false, 0, true))],
{
    let text = serialized(v, false, 0, true);
    match v {
        Value::Null => {
            assert(text =~= seq!['n', 'u', 'l', 'l']);
        },
        Value::Boolean(b) => {
            if b {
                assert(text =~= seq!['t', 'r', 'u', 'e']);
            } else {
                assert(text =~= seq!['f', 'a', 'l', 's', 'e']);
            }
        },
        Value::Number(digits) => {
            assert(text =~= digits);
            let k = choose|k: int| 0 <= k < digits.len() && is_digit(#[trigger] digits[k]);
            assert forall|i: int| 0 <= i < text.len() implies is_plain_char(#[trigger] text[i]) by {
                assert(is_digit(digits[i]) || digits[i] == '.');
            }
        },
        _ => {},
    }
}

/// What closes the brackets of an array or an object before `rest`: the
/// end of the line, the margin and the closing bracket.
pub open spec fn closing(close: char, pretty: bool, indent: nat, rest: Seq<char>) -> Seq<char> {
    line_end(pretty) + margin(pretty, indent) + (seq![close] + rest)
}

/// What closes the brackets ends a literal, and adds the token of the
/// closing bracket.
pub proof fn lemma_closing(close: char, pretty: bool, indent: nat, rest: Seq<char>)
    requires
        close == ']' || close == '}',
    ensures
        ends_literal(closing(close, pretty, indent, rest)),
        tokens(closing(close, pretty, indent, rest)) == seq![structural_token(close)] + tokens(rest),
{
    lemma_layout_is_blank(pretty, indent);
    let text = closing(close, pretty, indent, rest);
    if pretty {
        assert(text[0] == '\n');
    } else {
        assert(text =~= seq![close] + rest);
        assert(text[0] == close);
    }
    lemma_tokens_after_blanks(line_end(pretty) + margin(pretty, indent), seq![close] + rest);
    lemma_tokens_after_structural(close, rest);
}

/// The tokens of a text between brackets are the brackets and, between
/// them, the tokens of the text.
pub proof fn lemma_tokens_between_brackets(
    open: char,
    close: char,
    inner: Seq<char>,
    inner_tokens: Seq<Token>,
    pretty: bool,
    indent: nat,
    rest: Seq<char>,
)
    requires
        (open == '[' && close == ']') || (open == '{' && close == '}'),
        tokens(inner + closing(close, pretty, indent, rest)) == inner_tokens + tokens(
            closing(close, pretty, indent, rest),
        ),
    ensures
        tokens(
            seq![open] + line_end(pretty) + inner + line_end(pretty) + margin(pretty, indent)
                + seq![close] + rest,
        ) == seq![structural_token(open)] + inner_tokens + seq![structural_token(close)] + tokens(
            rest,
        ),
{
    lemma_layout_is_blank(pretty, indent);
    let end = closing(close, pretty, indent, rest);
    let text = seq![open] + line_end(pretty) + inner + line_end(pretty) + margin(pretty, indent)
        + seq![close] + rest;
    assert(text =~= seq![open] + (line_end(pretty) + (inner + end)));
    lemma_tokens_after_structural(open, line_end(pretty) + (inner + end));
    lemma_tokens_after_blanks(line_end(pretty), inner + end);
    lemma_closing(close, pretty, indent, rest);
    assert(seq![structural_token(open)] + (inner_tokens + (seq![structural_token(close)] + tokens(
        rest,
    ))) =~= seq![structural_token(open)] + inner_tokens + seq![structural_token(close)] + tokens(
        rest,
    ));
}

/// The tokens of the text of a value without children are the one token
/// of the value.
pub proof fn lemma_tokens_of_scalar(v: Value, pretty: bool, indent: nat, bare: bool, rest: Seq<char>)
    requires
        is_writable(v),
        !(v is Array),
        !(v is Object),
        ends_literal(rest),
    ensures
        tokens(serialized(v, pretty, indent, bare) + rest) == value_tokens(v) + tokens(rest),
{
    lemma_layout_is_blank(pretty, indent);
    let lead = if bare {
        Seq::<char>::empty()
    } else {
        margin(pretty, indent)
    };
    let text = serialized(v, pretty, indent, bare);
    match v {
        Value::String(inside) => {
            assert(text + rest =~= lead + (quoted(inside) + rest));
            lemma_tokens_after_blanks(lead, quoted(inside) + rest);
            lemma_tokens_after_quoted(inside, rest);
        },
        _ => {
            let word = serialized(v, false, 0, true);
            lemma_scalar_words(v);
            assert(text =~= lead + word);
            assert(text + rest =~= lead + (word + rest));
            lemma_tokens_after_blanks(lead, word + rest);
            lemma_tokens_after_word(word, rest);
        },
    }
}

/// The tokens of the text of a value that can be written without loss are
/// the tokens of the value, whatever follows the text, if only it ends a
/// literal.
pub proof fn lemma_tokens_of_value(v: Value, pretty: bool, indent: nat, bare: bool, rest: Seq<char>)
    requires
        is_writable(v),
        ends_literal(rest),
    ensures
        tokens(serialized(v, pretty, indent, bare) + rest) == value_tokens(v) + tokens(rest),
    decreases v, 0int,
{
    match v {
        Value::Array(items) => {
            lemma_closing(']', pretty, indent, rest);
            lemma_tokens_of_items(items, pretty, indent + 4, closing(']', pretty, indent, rest));
            lemma_tokens_between_brackets(
                '[',
                ']',
                serialized_items(items, pretty, indent + 4),
                items_tokens(items),
                pretty,
                indent,
                rest,
            );
        },
        Value::Object(members) => {
            lemma_closing('}', pretty, indent, rest);
            lemma_tokens_of_members(members, pretty, indent + 4, closing('}', pretty, indent, rest));
            lemma_tokens_between_brackets(
                '{',
                '}',
                serialized_members(members, pretty, indent + 4),
                members_tokens(members),
                pretty,
                indent,
                rest,
            );
        },
        _ => {
            lemma_tokens_of_scalar(v, pretty, indent, bare, rest);
        },
    }
}

/// The tokens of the text of the elements of an array are the tokens of the
/// elements with commas between them.
pub proof fn lemma_tokens_of_items(items: Seq<Value>, pretty: bool, indent: nat, rest: Seq<char>)
    requires
        are_writable(items),
        ends_literal(rest),
    ensures
        tokens(serialized_items(items, pretty, indent) + rest) == items_tokens(items) + tokens(
            rest,
        ),
    decreases items, 1int,
{
    lemma_layout_is_blank(pretty, indent);
    let text = serialized_items(items, pretty, indent);
    if items.len() == 0 {
        assert(text + rest =~= rest);
        assert(items_tokens(items) + tokens(rest) =~= tokens(rest));
    } else if items.len() == 1 {
        lemma_tokens_of_value(items[0], pretty, indent, false, rest);
    } else {
        let first = serialized(items[0], pretty, indent, false);
        let later = items.skip(1);
        let tail = serialized_items(later, pretty, indent);
        let sep = separator(pretty);
        assert forall|i: int| 0 <= i < later.len() implies is_writable(#[trigger] later[i]) by {
            assert(later[i] == items[i + 1]);
        }
        let after = sep + (tail + rest);
        assert(text + rest =~= first + after);
        assert(after[0] == ',');
        lemma_tokens_of_value(items[0], pretty, indent, false, after);
        assert(after =~= seq![','] + (seq![sep[1]] + (tail + rest)));
        lemma_tokens_after_structural(',', seq![sep[1]] + (tail + rest));
        lemma_tokens_after_blank(sep[1], tail + rest);
        lemma_tokens_of_items(later, pretty, indent, rest);
        assert(value_tokens(items[0]) + (seq![Token::Comma] + (items_tokens(later) + tokens(rest)))
            =~= items_tokens(items) + tokens(rest));
    }
}

/// The tokens of the text of a property are its name, a colon and the
/// tokens of its value.
pub proof fn lemma_tokens_of_member(
    member: (Seq<char>, Value),
    pretty: bool,
    indent: nat,
    rest: Seq<char>,
)
    requires
        is_quote_safe(member.0),
        is_writable(member.1),
        ends_literal(rest),
    ensures
        tokens(serialized_member(member, pretty, indent) + rest) == member_tokens(member) + tokens(
            rest,
        ),
    decreases member, 0int,
{
    lemma_layout_is_blank(pretty, indent);
    let text = serialized_member(member, pretty, indent);
    let value = serialized(member.1, pretty, indent, true);
    let after_name = seq![':'] + (seq![' '] + (value + rest));
    assert(text + rest =~= margin(pretty, indent) + (quoted(member.0) + after_name));
    lemma_tokens_after_blanks(margin(pretty, indent), quoted(member.0) + after_name);
    assert(after_name[0] == ':');
    lemma_tokens_after_quoted(member.0, after_name);
    lemma_tokens_after_structural(':', seq![' '] + (value + rest));
    lemma_tokens_after_blank(' ', value + rest);
    lemma_tokens_of_value(member.1, pretty, indent, true, rest);
    assert(seq![Token::Literal(quoted(member.0))] + (seq![Token::Colon] + (value_tokens(member.1)
        + tokens(rest))) =~= member_tokens(member) + tokens(rest));
}

/// The tokens of the text of the properties of an object are the tokens of
/// the properties with commas between them.
pub proof fn lemma_tokens_of_members(
    members: Seq<(Seq<char>, Value)>,
    pretty: bool,
    indent: nat,
    rest: Seq<char>,
)
    requires
        are_writable_members(members),
        ends_literal(rest),
    ensures
        tokens(serialized_members(members, pretty, indent) + rest) == members_tokens(members)
            + tokens(rest),
    decreases members, 1int,
{
    lemma_layout_is_blank(pretty, indent);
    let text = serialized_members(members, pretty, indent);
    if members.len() == 0 {
        assert(text + rest =~= rest);
        assert(members_tokens(members) + tokens(rest) =~= tokens(rest));
    } else if members.len() == 1 {
        lemma_tokens_of_member(members[0], pretty, indent, rest);
    } else {
        let first = serialized_member(members[0], pretty, indent);
        let later = members.skip(1);
        let tail = serialized_members(later, pretty, indent);
        let sep = separator(pretty);
        assert forall|i: int| 0 <= i < later.len() implies is_quote_safe((#[trigger] later[i]).0)
            && is_writable(later[i].1) by {
            assert(later[i] == members[i + 1]);
        }
        let after = sep + (tail + rest);
        assert(text + rest =~= first + after);
        assert(after[0] == ',');
        lemma_tokens_of_member(members[0], pretty, indent, after);
        assert(after =~= seq![','] + (seq![sep[1]] + (tail + rest)));
        lemma_tokens_after_structural(',', seq![sep[1]] + (tail + rest));
        lemma_tokens_after_blank(sep[1], tail + rest);
        lemma_tokens_of_members(later, pretty, indent, rest);
        assert(member_tokens(members[0]) + (seq![Token::Comma] + (members_tokens(later) + tokens(
            rest,
        ))) =~= members_tokens(members) + tokens(rest));
    }
}

/// Whether `open` and `close` are the two brackets of one kind.
pub open spec fn is_pair(open: Token, close: Token) -> bool {
    (open == Token::LeftSquare && close == Token::RightSquare) || (open == Token::LeftCurly
        && close == Token::RightCurly)
}

/// Looking for a matching close passes over a token that is no bracket of
/// the kind.
pub proof fn lemma_match_passes(tokens: Seq<Token>, i: int, depth: nat, open: Token, close: Token)
    requires
        0 <= i < tokens.len(),
        tokens[i] != open,
        tokens[i] != close,
    ensures
        match_end(tokens, i, depth, open, close) == match_end(tokens, i + 1, depth, open, close),
{
}

/// Looking for a matching close passes over the tokens of a value: every
/// bracket in them is closed in them.
pub proof fn lemma_match_passes_value(
    before: Seq<Token>,
    v: Value,
    after: Seq<Token>,
    depth: nat,
    open: Token,
    close: Token,
)
    requires
        is_pair(open, close),
    ensures
        match_end(before + value_tokens(v) + after, before.len() as int, depth, open, close)
            == match_end(
            before + value_tokens(v) + after,
            (before.len() + value_tokens(v).len()) as int,
            depth,
            open,
            close,
        ),
    decreases v, 0int,
{
    let all = before + value_tokens(v) + after;
    let at = before.len() as int;
    match v {
        Value::Array(items) => {
            let inner = items_tokens(items);
            let front = before + seq![Token::LeftSquare];
            let back = seq![Token::RightSquare] + after;
            assert(all =~= front + inner + back);
            assert(all[at] == Token::LeftSquare);
            assert(all[at + 1 + inner.len()] == Token::RightSquare);
            if open == Token::LeftSquare {
                lemma_match_passes_items(front, items, back, depth + 1, open, close);
            } else {
                lemma_match_passes_items(front, items, back, depth, open, close);
            }
        },
        Value::Object(members) => {
            let inner = members_tokens(members);
            let front = before + seq![Token::LeftCurly];
            let back = seq![Token::RightCurly] + after;
            assert(all =~= front + inner + back);
            assert(all[at] == Token::LeftCurly);
            assert(all[at + 1 + inner.len()] == Token::RightCurly);
            if open == Token::LeftCurly {
                lemma_match_passes_members(front, members, back, depth + 1, open, close);
            } else {
                lemma_match_passes_members(front, members, back, depth, open, close);
            }
        },
        _ => {
            assert(value_tokens(v).len() == 1);
            assert(all[at] == value_tokens(v)[0]);
            assert(all[at] is Literal);
        },
    }
}

/// Looking for a matching close passes over the tokens of the elements of
/// an array.
pub proof fn lemma_match_passes_items(
    before: Seq<Token>,
    items: Seq<Value>,
    after: Seq<Token>,
    depth: nat,
    open: Token,
    close: Token,
)
    requires
        is_pair(open, close),
    ensures
        match_end(before + items_tokens(items) + after, before.len() as int, depth, open, close)
            == match_end(
            before + items_tokens(items) + after,
            (before.len() + items_tokens(items).len()) as int,
            depth,
            open,
            close,
        ),
    decreases items, 1int,
{
    let all = before + items_tokens(items) + after;
    if items.len() == 0 {
    } else if items.len() == 1 {
        lemma_match_passes_value(before, items[0], after, depth, open, close);
    } else {
        let first = value_tokens(items[0]);
        let later = items.skip(1);
        let back = seq![Token::Comma] + items_tokens(later) + after;
        assert(all =~= before + first + back);
        lemma_match_passes_value(before, items[0], back, depth, open, close);
        let comma = (before.len() + first.len()) as int;
        assert(all[comma] == Token::Comma);
        lemma_match_passes(all, comma, depth, open, close);
        let front = before + first + seq![Token::Comma];
        assert(all =~= front + items_tokens(later) + after);
        lemma_match_passes_items(front, later, after, depth, open, close);
    }
}

/// Looking for a matching close passes over the tokens of the properties
/// of an object.
pub proof fn lemma_match_passes_members(
    before: Seq<Token>,
    members: Seq<(Seq<char>, Value)>,
    after: Seq<Token>,
    depth: nat,
    open: Token,
    close: Token,
)
    requires
        is_pair(open, close),
    ensures
        match_end(before + members_tokens(members) + after, before.len() as int, depth, open, close)
            == match_end(
            before + members_tokens(members) + after,
            (before.len() + members_tokens(members).len()) as int,
            depth,
            open,
            close,
        ),
    decreases members, 1int,
{
    let all = before + members_tokens(members) + after;
    if members.len() == 0 {
    } else {
        let name = seq![Token::Literal(quoted(members[0].0)), Token::Colon];
        let value = value_tokens(members[0].1);
        let later = members.skip(1);
        let at = before.len() as int;
        assert(member_tokens(members[0]) =~= name + value);
        if members.len() == 1 {
            assert(members_tokens(members) =~= name + value);
            assert(all =~= (before + name) + value + after);
            assert(all[at] == name[0]);
            assert(all[at + 1] == name[1]);
            lemma_match_passes(all, at, depth, open, close);
            lemma_match_passes(all, at + 1, depth, open, close);
            lemma_match_passes_value(before + name, members[0].1, after, depth, open, close);
        } else {
            let back = seq![Token::Comma] + members_tokens(later) + after;
            assert(members_tokens(members) =~= name + value + seq![Token::Comma] + members_tokens(
                later,
            ));
            assert(all =~= (before + name) + value + back);
            assert(all[at] == name[0]);
            assert(all[at + 1] == name[1]);
            lemma_match_passes(all, at, depth, open, close);
            lemma_match_passes(all, at + 1, depth, open, close);
            lemma_match_passes_value(before + name, members[0].1, back, depth, open, close);
            let comma = at + 2 + value.len();
            assert(all[comma] == Token::Comma);
            lemma_match_passes(all, comma, depth, open, close);
            let front = before + name + value + seq![Token::Comma];
            assert(all =~= front + members_tokens(later) + after);
            lemma_match_passes_members(front, later, after, depth, open, close);
        }
    }
}

/// A text between quotes is read as that text.
pub proof fn lemma_read_quoted(text: Seq<char>)
    ensures
        plain_value(quoted(text)) == Ok::<Value, Failure>(Value::String(text)),
        unquoted(quoted(text)) == text,
{
    let literal = quoted(text);
    assert(literal[0] == '"');
    assert(literal.last() == '"');
    assert(literal.subrange(1, literal.len() - 1) =~= text);
    assert(!is_number_shaped(literal)) by {
        assert(!(is_digit(literal[0]) || literal[0] == '.'));
    }
}

/// The text of a value without children is read as that value.
pub proof fn lemma_read_scalar(v: Value)
    requires
        is_writable(v),
        !(v is Array),
        !(v is Object),
    ensures
        value_tokens(v).len() == 1,
        value_tokens(v)[0] matches Token::Literal(text) && plain_value(text) == Ok::<Value, Failure>(
            v,
        ),
{
    match v {
        Value::Null => {
            let text = seq!['n', 'u', 'l', 'l'];
            assert(!is_number_shaped(text)) by {
                assert(!(is_digit(text[0]) || text[0] == '.'));
            }
            assert(is_null_word(text));
        },
        Value::Boolean(b) => {
            if b {
                let text = seq!['t', 'r', 'u', 'e'];
                assert(!is_number_shaped(text)) by {
                    assert(!(is_digit(text[0]) || text[0] == '.'));
                }
                assert(is_true_word(text));
            } else {
                let text = seq!['f', 'a', 'l', 's', 'e'];
                assert(!is_number_shaped(text)) by {
                    assert(!(is_digit(text[0]) || text[0] == '.'));
                }
                assert(is_false_word(text));
            }
        },
        Value::String(text) => {
            lemma_read_quoted(text);
        },
        _ => {},
    }
}

/// The tokens of a value that can be written without loss are read as
/// that value, wherever they stand among other tokens.
pub proof fn lemma_value_at(before: Seq<Token>, v: Value, after: Seq<Token>)
    requires
        is_writable(v),
    ensures
        value_at(before + value_tokens(v) + after, before.len() as int) == Ok::<
            (Option<Value>, int),
            Failure,
        >((Some(v), (before.len() + value_tokens(v).len()) as int)),
    decreases v, 0int,
{
    let all = before + value_tokens(v) + after;
    let at = before.len() as int;
    match v {
        Value::Array(items) => {
            let inner = items_tokens(items);
            let front = before + seq![Token::LeftSquare];
            let back = seq![Token::RightSquare] + after;
            let close = at + 1 + inner.len();
            assert(all =~= front + inner + back);
            assert(all[at] == Token::LeftSquare);
            assert(all[close] == Token::RightSquare);
            lemma_match_passes_items(front, items, back, 0, Token::LeftSquare, Token::RightSquare);
            assert(match_end(all, close, 0, Token::LeftSquare, Token::RightSquare) == close);
            assert(all.subrange(at + 1, close) =~= inner);
            assert(Seq::<Token>::empty() + inner =~= inner);
            lemma_parse_items(Seq::empty(), items);
        },
        Value::Object(members) => {
            let inner = members_tokens(members);
            let front = before + seq![Token::LeftCurly];
            let back = seq![Token::RightCurly] + after;
            let close = at + 1 + inner.len();
            assert(all =~= front + inner + back);
            assert(all[at] == Token::LeftCurly);
            assert(all[close] == Token::RightCurly);
            lemma_match_passes_members(front, members, back, 0, Token::LeftCurly, Token::RightCurly);
            assert(match_end(all, close, 0, Token::LeftCurly, Token::RightCurly) == close);
            assert(all.subrange(at + 1, close) =~= inner);
            assert(Seq::<Token>::empty() + inner =~= inner);
            lemma_parse_members(Seq::empty(), members);
        },
        _ => {
            lemma_read_scalar(v);
            assert(all[at] == value_tokens(v)[0]);
        },
    }
}

/// The tokens of the elements of an array are read as the elements.
pub proof fn lemma_parse_items(before: Seq<Token>, items: Seq<Value>)
    requires
        are_writable(items),
    ensures
        parse_nodes(before + items_tokens(items), before.len() as int) == Ok::<Seq<Value>, Failure>(
            items,
        ),
    decreases items, 1int,
{
    let all = before + items_tokens(items);
    let at = before.len() as int;
    if items.len() == 0 {
        assert(all =~= before);
        lemma_parse_end(all, at);
        assert(parse_nodes(all, at)->Ok_0 =~= items);
    } else {
        let first = value_tokens(items[0]);
        let later = items.skip(1);
        let next = at + first.len();
        assert(is_writable(items[0]));
        if items.len() == 1 {
            assert(all =~= before + first + Seq::<Token>::empty());
            lemma_value_at(before, items[0], Seq::empty());
            lemma_first_token(items[0]);
            lemma_parse_nodes_step(all, at);
            lemma_parse_end(all, next);
            assert(seq![items[0]] + Seq::<Value>::empty() =~= items);
        } else {
            let back = seq![Token::Comma] + items_tokens(later);
            assert(all =~= before + first + back);
            lemma_value_at(before, items[0], back);
            lemma_first_token(items[0]);
            lemma_parse_nodes_step(all, at);
            assert(all[next] == Token::Comma);
            lemma_parse_nodes_step(all, next);
            assert forall|i: int| 0 <= i < later.len() implies is_writable(#[trigger] later[i]) by {
                assert(later[i] == items[i + 1]);
            }
            let front = before + first + seq![Token::Comma];
            assert(all =~= front + items_tokens(later));
            lemma_parse_items(front, later);
            assert(seq![items[0]] + later =~= items);
        }
    }
}

/// A value has at least one token.
pub proof fn lemma_first_token(v: Value)
    ensures
        value_tokens(v).len() > 0,
{
}

/// The tokens of the properties of an object are read as the properties.
pub proof fn lemma_parse_members(before: Seq<Token>, members: Seq<(Seq<char>, Value)>)
    requires
        are_writable_members(members),
    ensures
        parse_members(before + members_tokens(members), before.len() as int) == Ok::<
            Seq<(Seq<char>, Value)>,
            Failure,
        >(members),
    decreases members, 1int,
{
    let all = before + members_tokens(members);
    let at = before.len() as int;
    if members.len() == 0 {
        assert(all =~= before);
        lemma_parse_end(all, at);
        assert(parse_members(all, at)->Ok_0 =~= members);
    } else {
        let name = seq![Token::Literal(quoted(members[0].0)), Token::Colon];
        let value = value_tokens(members[0].1);
        let later = members.skip(1);
        let next = at + 2 + value.len();
        assert(is_quote_safe(members[0].0) && is_writable(members[0].1));
        assert(member_tokens(members[0]) =~= name + value);
        lemma_read_quoted(members[0].0);
        lemma_first_token(members[0].1);
        if members.len() == 1 {
            assert(members_tokens(members) =~= name + value);
            assert(all =~= (before + name) + value + Seq::<Token>::empty());
            assert(all[at] == name[0]);
            assert(all[at + 1] == name[1]);
            lemma_value_at(before + name, members[0].1, Seq::empty());
            lemma_parse_nodes_step(all, at + 1);
            lemma_parse_nodes_step(all, at + 2);
            lemma_parse_end(all, next);
            assert(seq![members[0]] + Seq::<(Seq<char>, Value)>::empty() =~= members);
        } else {
            let back = seq![Token::Comma] + members_tokens(later);
            assert(members_tokens(members) =~= name + value + seq![Token::Comma] + members_tokens(
                later,
            ));
            assert(all =~= (before + name) + value + back);
            assert(all[at] == name[0]);
            assert(all[at + 1] == name[1]);
            lemma_value_at(before + name, members[0].1, back);
            lemma_parse_nodes_step(all, at + 1);
            lemma_parse_nodes_step(all, at + 2);
            assert(all[next] == Token::Comma);
            assert forall|i: int| 0 <= i < later.len() implies is_quote_safe(
                (#[trigger] later[i]).0,
            ) && is_writable(later[i].1) by {
                assert(later[i] == members[i + 1]);
            }
            let front = before + name + value + seq![Token::Comma];
            assert(all =~= front + members_tokens(later));
            lemma_parse_members(front, later);
            assert(seq![members[0]] + later =~= members);
        }
    }
}

/// Reading back what was written: the text of a document that can be
/// written without loss, on one line or indented, is read as exactly that
/// document.
pub proof fn lemma_round_trip(v: Value, pretty: bool)
    requires
        is_writable(v),
    ensures
        document_values(vstd::utf8::encode_utf8(serialized(v, pretty, 0, false))) == Ok::<
            Seq<Value>,
            Failure,
        >(seq![v]),
{
    broadcast use {vstd::utf8::encode_utf8_valid_utf8, vstd::utf8::encode_utf8_decode_utf8};

    let text = serialized(v, pretty, 0, false);
    let found = value_tokens(v);
    lemma_tokens_of_value(v, pretty, 0, false, Seq::empty());
    assert(text + Seq::<char>::empty() =~= text);
    assert(tokens(Seq::<char>::empty()) =~= Seq::<Token>::empty());
    assert(found + Seq::<Token>::empty() =~= found);
    assert(tokens(text) == found);
    assert(Seq::<Token>::empty() + found + Seq::<Token>::empty() =~= found);
    lemma_value_at(Seq::empty(), v, Seq::empty());
    lemma_first_token(v);
    lemma_parse_nodes_step(found, 0);
    lemma_parse_end(found, found.len() as int);
    assert(seq![v] + Seq::<Value>::empty() =~= seq![v]);
}

} // verus!
