//! The tokens of JSON text, and the tokenizer that reads them from a cursor.

use crate::error::JsonError;
use crate::peekable_codepoints::{
    decoded, fails, lemma_readable_decoded, lemma_readable_prefix, lemma_readable_skip,
    past_failure, readable, PeekableCodePoints,
};
use crate::text::{is_structural, is_whitespace, string_from_chars, structural, white_space};
use vstd::prelude::*;
use vstd::utf8::{decode_utf8, valid_utf8};

verus! {

/// A token: one of the six structural characters, or a literal, the raw text
/// of a run of other characters with its quotes, if it has any, kept.
#[derive(Debug, Eq)]
pub enum JsonTag {
    LeftCurly,
    RightCurly,
    LeftSquare,
    RightSquare,
    Colon,
    Comma,
    Literal(String),
}

/// The mathematical value of a [`JsonTag`].
pub enum Token {
    LeftCurly,
    RightCurly,
    LeftSquare,
    RightSquare,
    Colon,
    Comma,
    Literal(Seq<char>),
}

impl View for JsonTag {
    type V = Token;

    open spec fn view(&self) -> Token {
        match self {
            JsonTag::LeftCurly => Token::LeftCurly,
            JsonTag::RightCurly => Token::RightCurly,
            JsonTag::LeftSquare => Token::LeftSquare,
            JsonTag::RightSquare => Token::RightSquare,
            JsonTag::Colon => Token::Colon,
            JsonTag::Comma => Token::Comma,
            JsonTag::Literal(text) => Token::Literal(text@),
        }
    }
}

impl PartialEq for JsonTag {
    /// Whether the two tags are the same token.
    fn eq(&self, other: &Self) -> (equal: bool) {
        match (self, other) {
            (JsonTag::LeftCurly, JsonTag::LeftCurly) => true,
            (JsonTag::RightCurly, JsonTag::RightCurly) => true,
            (JsonTag::LeftSquare, JsonTag::LeftSquare) => true,
            (JsonTag::RightSquare, JsonTag::RightSquare) => true,
            (JsonTag::Colon, JsonTag::Colon) => true,
            (JsonTag::Comma, JsonTag::Comma) => true,
            (JsonTag::Literal(a), JsonTag::Literal(b)) => *a == *b,
            _ => false,
        }
    }
}

impl vstd::std_specs::cmp::PartialEqSpecImpl for JsonTag {
    /// `==` on tags is what `eq_spec` says.
    open spec fn obeys_eq_spec() -> bool {
        true
    }

    /// Two tags are equal where they are the same token.
    open spec fn eq_spec(&self, other: &Self) -> bool {
        self@ == other@
    }
}

/// The text that a token is written with.
pub open spec fn token_text(token: Token) -> Seq<char> {
    match token {
        Token::LeftCurly => seq!['{'],
        Token::RightCurly => seq!['}'],
        Token::LeftSquare => seq!['['],
        Token::RightSquare => seq![']'],
        Token::Colon => seq![':'],
        Token::Comma => seq![','],
        Token::Literal(text) => text,
    }
}

/// The tokens that a list of tags stands for.
pub open spec fn tokens_of(tags: Seq<JsonTag>) -> Seq<Token> {
    tags.map_values(|tag: JsonTag| tag@)
}

/// The token that a structural character is.
pub open spec fn structural_token(c: char) -> Token {
    if c == '{' {
        Token::LeftCurly
    } else if c == '}' {
        Token::RightCurly
    } else if c == '[' {
        Token::LeftSquare
    } else if c == ']' {
        Token::RightSquare
    } else if c == ':' {
        Token::Colon
    } else {
        Token::Comma
    }
}

/// The number of white space characters that `text` starts with.
pub open spec fn blank_len(text: Seq<char>) -> nat
    decreases text.len(),
{
    if text.len() > 0 && is_whitespace(text[0]) {
        1 + blank_len(text.skip(1))
    } else {
        0
    }
}

/// What an unescaped quote character `c` does to the quote that is open.
pub open spec fn toggled(quote: Option<char>, c: char) -> Option<char> {
    match quote {
        None => Some(c),
        Some(q) => if q == c {
            None
        } else {
            quote
        },
    }
}

/// Where the literal at the start of `text` ends, for a scan that stands at
/// `i` with `quote` open, `escape` set by a backslash just before, and
/// `plain` set once a quote was given up.
///
/// A backslash sets `escape` for the character after it. An unescaped quote
/// character opens a quote, or closes the one it opened. Inside a quote,
/// white space and structural characters belong to the literal; outside,
/// white space ends it, and so does an unescaped structural character. A line
/// break inside a quote gives the quote up: the scan starts again at the
/// front, and from then on quote characters are ordinary characters.
pub open spec fn literal_end(
    text: Seq<char>,
    i: int,
    quote: Option<char>,
    escape: bool,
    plain: bool,
) -> int
    decreases
            (if plain {
                0int
            } else {
                1int
            }),
            text.len() - i,
{
    if i < 0 || i >= text.len() {
        text.len() as int
    } else {
        let c = text[i];
        if c == '\\' {
            literal_end(text, i + 1, quote, true, plain)
        } else if (c == '\'' || c == '"') && !escape && !plain {
            literal_end(text, i + 1, toggled(quote, c), escape, plain)
        } else if (c == '\r' || c == '\n') && quote is Some && !plain {
            literal_end(text, 0, None, false, true)
        } else if is_whitespace(c) && quote is None {
            i
        } else if is_structural(c) && !escape && quote is None {
            i
        } else {
            literal_end(text, i + 1, quote, false, plain)
        }
    }
}

/// The length of the literal that `text` starts with.
pub open spec fn literal_len(text: Seq<char>) -> int {
    literal_end(text, 0, None, false, false)
}

/// The first token of `text` and the number of characters that it takes
/// up, the white space before it included; `None` where `text` holds
/// nothing but white space.
pub open spec fn next_token(text: Seq<char>) -> Option<(Token, int)> {
    let blank = blank_len(text) as int;
    if blank >= text.len() {
        None
    } else if is_structural(text[blank]) {
        Some((structural_token(text[blank]), blank + 1))
    } else {
        let len = literal_len(text.skip(blank));
        Some((Token::Literal(text.subrange(blank, blank + len)), blank + len))
    }
}

/// Whether reading the first token of `text` looks at what follows `text`.
pub open spec fn reaches_end(text: Seq<char>) -> bool {
    match next_token(text) {
        None => true,
        Some((token, len)) => token is Literal && len == text.len(),
    }
}

/// The tokens of `text`.
pub open spec fn tokens(text: Seq<char>) -> Seq<Token>
    decreases text.len(),
{
    match next_token(text) {
        None => Seq::empty(),
        Some((token, len)) => if 0 < len <= text.len() {
            seq![token] + tokens(text.skip(len))
        } else {
            seq![token]
        },
    }
}

/// The white space that a text starts with is white space, and what
/// follows it is none.
pub proof fn lemma_blank_len(text: Seq<char>)
    ensures
        blank_len(text) <= text.len(),
        forall|i: int| 0 <= i < blank_len(text) ==> is_whitespace(#[trigger] text[i]),
        blank_len(text) < text.len() ==> !is_whitespace(text[blank_len(text) as int]),
    decreases text.len(),
{
    if text.len() > 0 && is_whitespace(text[0]) {
        let rest = text.skip(1);
        lemma_blank_len(rest);
        assert forall|i: int| 0 <= i < blank_len(text) implies is_whitespace(#[trigger] text[i]) by {
            if i > 0 {
                assert(rest[i - 1] == text[i]);
            }
        }
        if blank_len(text) < text.len() {
            assert(rest[blank_len(rest) as int] == text[blank_len(text) as int]);
        }
    }
}

/// A literal ends inside its text, and after its first character where that
/// character is neither white space nor structural.
pub proof fn lemma_literal_end_bounds(
    text: Seq<char>,
    i: int,
    quote: Option<char>,
    escape: bool,
    plain: bool,
)
    requires
        text.len() > 0,
        !is_whitespace(text[0]),
        !is_structural(text[0]),
        0 <= i <= text.len(),
    ensures
        0 < literal_end(text, i, quote, escape, plain) <= text.len(),
    decreases
            (if plain {
                0int
            } else {
                1int
            }),
            text.len() - i,
{
    if i < text.len() {
        let c = text[i];
        if c == '\\' {
            lemma_literal_end_bounds(text, i + 1, quote, true, plain);
        } else if (c == '\'' || c == '"') && !escape && !plain {
            lemma_literal_end_bounds(text, i + 1, toggled(quote, c), escape, plain);
        } else if (c == '\r' || c == '\n') && quote is Some && !plain {
            lemma_literal_end_bounds(text, 0, None, false, true);
        } else if is_whitespace(c) && quote is None {
        } else if is_structural(c) && !escape && quote is None {
        } else {
            lemma_literal_end_bounds(text, i + 1, quote, false, plain);
        }
    }
}

/// A token takes up at least one character after the white space before
/// it, and ends inside the text.
pub proof fn lemma_next_token_len(text: Seq<char>)
    ensures
        next_token(text) matches Some((_, len)) ==> blank_len(text) < len <= text.len(),
{
    lemma_blank_len(text);
    let blank = blank_len(text) as int;
    if blank < text.len() && !is_structural(text[blank]) {
        lemma_literal_end_bounds(text.skip(blank), 0, None, false, false);
    }
}

impl JsonTag {
    /// The text that the tag is written with.
    pub fn text(&self) -> (text: String)
        ensures
            text@ == token_text(self@),
    {
        let c = match self {
            JsonTag::LeftCurly => '{',
            JsonTag::RightCurly => '}',
            JsonTag::LeftSquare => '[',
            JsonTag::RightSquare => ']',
            JsonTag::Colon => ':',
            JsonTag::Comma => ',',
            JsonTag::Literal(text) => {
                return text.clone();
            },
        };
        let mut chars: Vec<char> = Vec::new();
        chars.push(c);
        let text = string_from_chars(chars.as_slice());
        assert(text@ =~= seq![c]);
        text
    }

    /// Reads the next token from `peekable_cp`, and `None` at the end of the
    /// stream. The white space before the token is consumed with it.
    ///
    /// The call fails where the stream fails within what the tokenizer has to
    /// look at, and only there: no sequence of characters is an error.
    pub fn read_json_tag<'a>(peekable_cp: &mut PeekableCodePoints<'a>) -> (tag: Result<
        Option<JsonTag>,
        JsonError,
    >)
        ensures
            tag is Err <==> old(peekable_cp).broken() && reaches_end(old(peekable_cp).ahead()),
            match tag {
                Ok(None) => {
                    &&& next_token(old(peekable_cp).ahead()) is None
                    &&& final(peekable_cp)@ == Seq::<Option<char>>::empty()
                },
                Ok(Some(t)) => {
                    &&& next_token(old(peekable_cp).ahead()) matches Some((token, len))
                    &&& t@ == token
                    &&& final(peekable_cp)@ == old(peekable_cp)@.skip(len)
                },
                Err(e) => {
                    &&& e is Io
                    &&& final(peekable_cp)@ == past_failure(
                        old(peekable_cp)@.skip(blank_len(old(peekable_cp).ahead()) as int),
                    )
                },
            },
    {
        let ghost start = peekable_cp@;
        let ghost text = readable(start);
        let ghost mut blank: int = 0;
        proof {
            lemma_blank_len(text);
            lemma_readable_prefix(start);
            lemma_readable_skip(start, 0);
        }
        // skip the white space before the token
        let first: char;
        loop
            invariant
                start == old(peekable_cp)@,
                text == readable(start),
                0 <= blank <= blank_len(text) <= text.len() <= start.len(),
                forall|i: int| 0 <= i < blank_len(text) ==> is_whitespace(#[trigger] text[i]),
                blank_len(text) < text.len() ==> !is_whitespace(text[blank_len(text) as int]),
                peekable_cp@ == start.skip(blank),
                peekable_cp.ahead() == text.skip(blank),
                peekable_cp.broken() == fails(start),
            ensures
                text == readable(start),
                blank == blank_len(text),
                blank < text.len() <= start.len(),
                first == text[blank],
                !is_whitespace(first),
                peekable_cp@ == start.skip(blank),
                peekable_cp.ahead() == text.skip(blank),
                peekable_cp.broken() == fails(start),
            decreases text.len() - blank,
        {
            match peekable_cp.peek_char(0) {
                Err(e) => {
                    proof {
                        assert(text.skip(blank).len() == 0);
                        assert(blank_len(text) == text.len());
                    }
                    return Err(e);
                },
                Ok(None) => {
                    proof {
                        assert(text.skip(blank).len() == 0);
                        assert(blank_len(text) == text.len());
                        assert(start.skip(blank) =~= Seq::<Option<char>>::empty());
                    }
                    return Ok(None);
                },
                Ok(Some(c)) => {
                    assert(c == text[blank]);
                    if white_space(c) {
                        let ghost before = peekable_cp@;
                        match peekable_cp.skip(1) {
                            Err(e) => {
                                return Err(e);
                            },
                            Ok(_) => {},
                        }
                        proof {
                            assert(before.skip(1) =~= start.skip(blank + 1));
                            lemma_readable_skip(start, blank + 1);
                            blank = blank + 1;
                        }
                    } else {
                        first = c;
                        break;
                    }
                },
            }
        }
        if structural(first) {
            let tag = if first == '{' {
                JsonTag::LeftCurly
            } else if first == '}' {
                JsonTag::RightCurly
            } else if first == '[' {
                JsonTag::LeftSquare
            } else if first == ']' {
                JsonTag::RightSquare
            } else if first == ':' {
                JsonTag::Colon
            } else {
                JsonTag::Comma
            };
            let ghost before = peekable_cp@;
            match peekable_cp.skip(1) {
                Err(e) => {
                    return Err(e);
                },
                Ok(_) => {},
            }
            proof {
                assert(before.skip(1) =~= start.skip(blank + 1));
            }
            return Ok(Some(tag));
        }
        // scan the literal that starts here
        let ghost rest = text.skip(blank);
        let mut end: usize = 0;
        let mut quote: Option<char> = None;
        let mut is_escape = false;
        let mut quote_as_literal = false;
        proof {
            lemma_literal_end_bounds(rest, 0, None, false, false);
        }
        loop
            invariant
                start == old(peekable_cp)@,
                text == readable(start),
                blank == blank_len(text),
                blank < text.len(),
                !is_structural(text[blank]),
                rest == text.skip(blank),
                0 < literal_len(rest) <= rest.len(),
                0 <= end <= rest.len(),
                literal_end(rest, end as int, quote, is_escape, quote_as_literal) == literal_len(rest),
                peekable_cp@ == start.skip(blank),
                peekable_cp.ahead() == rest,
                peekable_cp.broken() == fails(start),
            ensures
                end == literal_len(rest),
                end == rest.len() ==> !fails(start),
                peekable_cp@ == start.skip(blank),
                peekable_cp.ahead() == rest,
            decreases
                    (if quote_as_literal {
                        0int
                    } else {
                        1int
                    }),
                    rest.len() - end,
        {
            match peekable_cp.peek_char(end) {
                Err(e) => {
                    proof {
                        assert(end == rest.len());
                        assert(literal_len(rest) == rest.len());
                    }
                    return Err(e);
                },
                Ok(None) => {
                    break;
                },
                Ok(Some(c)) => {
                    if c == '\\' {
                        is_escape = true;
                        end += 1;
                        continue;
                    }
                    if (c == '\'' || c == '"') && !is_escape && !quote_as_literal {
                        quote = match quote {
                            None => Some(c),
                            Some(q) => if q == c {
                                None
                            } else {
                                quote
                            },
                        };
                        end += 1;
                        continue;
                    }
                    if (c == '\r' || c == '\n') && quote.is_some() && !quote_as_literal {
                        quote_as_literal = true;
                        quote = None;
                        is_escape = false;
                        end = 0;
                        continue;
                    }
                    if white_space(c) && quote.is_none() {
                        break;
                    }
                    if structural(c) && !is_escape && quote.is_none() {
                        break;
                    }
                    is_escape = false;
                    end += 1;
                },
            }
        }
        let ghost before = peekable_cp@;
        match peekable_cp.pop(end) {
            Err(e) => Err(e),
            Ok(literal) => {
                proof {
                    assert(rest.take(end as int) =~= text.subrange(blank, blank + end));
                    assert(before.skip(end as int) =~= start.skip(blank + end));
                }
                Ok(Some(JsonTag::Literal(literal)))
            },
        }
    }
}

impl JsonTag {
    /// Reads all the tokens of `reader`.
    ///
    /// The call fails exactly where `reader` is not well-formed UTF-8.
    pub fn parse(reader: &[u8]) -> (tags: Result<Vec<JsonTag>, JsonError>)
        ensures
            match tags {
                Ok(list) => valid_utf8(reader@) && tokens_of(list@) == tokens(decode_utf8(reader@)),
                Err(e) => !valid_utf8(reader@) && e is Io,
            },
    {
        let mut json_tag_list: Vec<JsonTag> = Vec::new();
        let mut peekable_cp = PeekableCodePoints::new(reader);
        let ghost start = peekable_cp@;
        proof {
            lemma_readable_prefix(start);
            assert(tokens_of(json_tag_list@) =~= Seq::<Token>::empty());
            if valid_utf8(reader@) {
                lemma_readable_decoded(decode_utf8(reader@), Seq::empty());
                assert(decoded(decode_utf8(reader@)) + Seq::empty() =~= decoded(decode_utf8(reader@)));
            }
        }
        loop
            invariant
                peekable_cp.broken() == !valid_utf8(reader@),
                valid_utf8(reader@) ==> readable(start) == decode_utf8(reader@),
                tokens(readable(start)) == tokens_of(json_tag_list@) + tokens(peekable_cp.ahead()),
            decreases peekable_cp@.len(),
        {
            let ghost before = peekable_cp@;
            let ghost text = peekable_cp.ahead();
            let ghost done = json_tag_list@;
            proof {
                lemma_next_token_len(text);
                lemma_readable_prefix(before);
            }
            match JsonTag::read_json_tag(&mut peekable_cp) {
                Err(e) => {
                    return Err(e);
                },
                Ok(None) => {
                    proof {
                        assert(tokens_of(done) + Seq::<Token>::empty() =~= tokens_of(done));
                    }
                    return Ok(json_tag_list);
                },
                Ok(Some(json_tag)) => {
                    json_tag_list.push(json_tag);
                    proof {
                        let len = match next_token(text) {
                            Some((_, len)) => len,
                            None => 0,
                        };
                        lemma_readable_skip(before, len);
                        assert(tokens_of(json_tag_list@) =~= tokens_of(done) + seq![json_tag@]);
                        assert(tokens_of(done) + (seq![json_tag@] + tokens(text.skip(len)))
                            =~= tokens_of(json_tag_list@) + tokens(text.skip(len)));
                    }
                },
            }
        }
    }
}

} // verus!

