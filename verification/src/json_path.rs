//! Path expressions: their parts, and the compiler that reads them from text.

use crate::error::{Failure, JsonError};
use crate::json_node::prepended;
use crate::peekable_codepoints::PeekableCodePoints;
use crate::text::{chars_of, digit, is_digit, is_whitespace, string_from_chars, white_space};
use vstd::prelude::*;

verus! {

/// What the next fragment of a path is. A path part is a name, which may be
/// followed by an element selector such as `[3]`, which may be followed by a
/// filter such as `[?(@.price < 10)]`.
#[derive(Debug, PartialEq, Eq, Structural)]
pub enum PartFragType {
    /// no part starts here: the text has ended
    Nothing,
    RootPathName,
    CurrentPathName,
    DotNotationPathName,
    BracketNotationPathName,
    ElementSelector,
    Filter,
}

/// Which elements of an array a path part selects.
#[derive(Debug, PartialEq)]
pub enum ArrayElementSelector {
    /// every element
    All,
    /// the element at one index
    Single(usize),
    /// the elements from a start to an end, either of which may be left out
    Range(Option<i32>, Option<i32>),
    /// the elements at the indexes listed
    Multiple(Vec<usize>),
}

/// The mathematical value of an [`ArrayElementSelector`].
pub enum Selector {
    All,
    Single(usize),
    Range(Option<i32>, Option<i32>),
    Multiple(Seq<usize>),
}

impl View for ArrayElementSelector {
    type V = Selector;

    open spec fn view(&self) -> Selector {
        match self {
            ArrayElementSelector::All => Selector::All,
            ArrayElementSelector::Single(i) => Selector::Single(*i),
            ArrayElementSelector::Range(start, end) => Selector::Range(*start, *end),
            ArrayElementSelector::Multiple(indexes) => Selector::Multiple(indexes@),
        }
    }
}

/// The value of a decimal digit.
pub open spec fn digit_value(c: char) -> int {
    c as int - 48
}

/// Whether `text` holds nothing but decimal digits.
pub open spec fn is_digits(text: Seq<char>) -> bool {
    forall|i: int| 0 <= i < text.len() ==> is_digit(#[trigger] text[i])
}

/// The number that the decimal digits of `text` write.
pub open spec fn decimal(text: Seq<char>) -> nat
    decreases text.len(),
{
    if text.len() == 0 {
        0
    } else {
        (decimal(text.drop_last()) * 10 + digit_value(text.last())) as nat
    }
}

/// The unsigned number that `text` writes: decimal digits, at least one,
/// that stay within a `usize`.
pub open spec fn usize_of(text: Seq<char>) -> Option<usize> {
    if text.len() > 0 && is_digits(text) && decimal(text) <= usize::MAX {
        Some(decimal(text) as usize)
    } else {
        None
    }
}

/// The signed number that `text` writes: decimal digits, at least one, with
/// a `-` before them or without, that stay within an `i32`.
pub open spec fn i32_of(text: Seq<char>) -> Option<i32> {
    let negative = text.len() > 0 && text[0] == '-';
    let digits = if negative {
        text.skip(1)
    } else {
        text
    };
    let value = if negative {
        -(decimal(digits) as int)
    } else {
        decimal(digits) as int
    };
    if digits.len() > 0 && is_digits(digits) && i32::MIN <= value <= i32::MAX {
        Some(value as i32)
    } else {
        None
    }
}

/// `text` without the square brackets around it, if it has them.
pub open spec fn trimmed(text: Seq<char>) -> Seq<char> {
    if text.len() >= 2 && text.first() == '[' && text.last() == ']' {
        text.subrange(1, text.len() - 1)
    } else {
        text
    }
}

/// `text` without its white space.
pub open spec fn without_blanks(text: Seq<char>) -> Seq<char>
    decreases text.len(),
{
    if text.len() == 0 {
        Seq::empty()
    } else if is_whitespace(text.last()) {
        without_blanks(text.drop_last())
    } else {
        without_blanks(text.drop_last()).push(text.last())
    }
}

/// The first place at `i` or later where `c` stands in `text`, and
/// `text.len()` where it stands nowhere there.
pub open spec fn find_from(text: Seq<char>, c: char, i: int) -> int
    decreases text.len() - i,
{
    if i < 0 || i >= text.len() {
        text.len() as int
    } else if text[i] == c {
        i
    } else {
        find_from(text, c, i + 1)
    }
}

/// The first place where `c` stands in `text`, and `text.len()` where it
/// stands nowhere.
pub open spec fn index_of(text: Seq<char>, c: char) -> int {
    find_from(text, c, 0)
}

/// The selector that text without a comma and without a colon writes: `*`
/// for all elements, an unsigned number for a single one.
pub open spec fn single_or_all_of(text: Seq<char>) -> Result<Selector, Failure> {
    let inner = without_blanks(trimmed(text));
    if inner.len() == 1 && inner[0] == '*' {
        Ok(Selector::All)
    } else {
        match usize_of(inner) {
            Some(i) => Ok(Selector::Single(i)),
            None => Err(Failure::NumericFormat),
        }
    }
}

/// One side of a range: nothing where the text is empty, else a signed
/// number.
pub open spec fn bound_of(text: Seq<char>) -> Result<Option<i32>, Failure> {
    if text.len() == 0 {
        Ok(None)
    } else {
        match i32_of(text) {
            Some(i) => Ok(Some(i)),
            None => Err(Failure::NumericFormat),
        }
    }
}

/// The selector that text with a colon writes: what stands before the first
/// colon is the start of a range, what stands after it the end.
pub open spec fn range_of(text: Seq<char>) -> Result<Selector, Failure> {
    let inner = without_blanks(trimmed(text));
    let colon = index_of(inner, ':');
    let after = if colon < inner.len() {
        inner.skip(colon + 1)
    } else {
        Seq::empty()
    };
    match bound_of(inner.take(colon)) {
        Err(e) => Err(e),
        Ok(start) => match bound_of(after) {
            Err(e) => Err(e),
            Ok(end) => Ok(Selector::Range(start, end)),
        },
    }
}

/// The unsigned numbers that `text` lists with commas between them.
pub open spec fn index_list(text: Seq<char>) -> Result<Seq<usize>, Failure>
    decreases text.len(),
{
    let comma = index_of(text, ',');
    match usize_of(text.take(comma)) {
        None => Err(Failure::NumericFormat),
        Some(i) => if 0 <= comma < text.len() {
            prepended(i, index_list(text.skip(comma + 1)))
        } else {
            Ok(seq![i])
        },
    }
}

/// The selector that text with a comma writes: a list of indexes.
pub open spec fn multiple_of(text: Seq<char>) -> Result<Selector, Failure> {
    match index_list(without_blanks(trimmed(text))) {
        Ok(indexes) => Ok(Selector::Multiple(indexes)),
        Err(e) => Err(e),
    }
}

/// Whether `c` stands in `text`.
pub open spec fn holds(text: Seq<char>, c: char) -> bool {
    index_of(text, c) < text.len()
}

/// The selector that `text` writes: a list of indexes where it holds a
/// comma, else a range where it holds a colon, else all elements or a single
/// one.
pub open spec fn selector_of(text: Seq<char>) -> Result<Selector, Failure> {
    if holds(text, ',') {
        multiple_of(text)
    } else if holds(text, ':') {
        range_of(text)
    } else {
        single_or_all_of(text)
    }
}

/// Where a character is found, it stands, and it stands nowhere between
/// the start of the search and that place.
pub proof fn lemma_find_from(text: Seq<char>, c: char, i: int)
    requires
        0 <= i <= text.len(),
    ensures
        i <= find_from(text, c, i) <= text.len(),
        forall|k: int| i <= k < find_from(text, c, i) ==> #[trigger] text[k] != c,
        find_from(text, c, i) < text.len() ==> text[find_from(text, c, i)] == c,
    decreases text.len() - i,
{
    if i < text.len() && text[i] != c {
        lemma_find_from(text, c, i + 1);
    }
}

/// The digits of a prefix write no more than the digits of the whole.
pub proof fn lemma_decimal_prefix(text: Seq<char>, n: int)
    requires
        is_digits(text),
        0 <= n <= text.len(),
    ensures
        decimal(text.take(n)) <= decimal(text),
    decreases text.len() - n,
{
    if n < text.len() {
        let shorter = text.drop_last();
        assert(is_digits(shorter)) by {
            assert forall|i: int| 0 <= i < shorter.len() implies is_digit(#[trigger] shorter[i]) by {
                assert(shorter[i] == text[i]);
            }
        }
        lemma_decimal_prefix(shorter, n);
        assert(shorter.take(n) =~= text.take(n));
        assert(is_digit(text.last()));
    } else {
        assert(text.take(n) =~= text);
    }
}

/// The unsigned number that `chars` write.
fn parse_usize(chars: &[char]) -> (number: Option<usize>)
    ensures
        number == usize_of(chars@),
{
    let len = chars.len();
    if len == 0 {
        return None;
    }
    let mut acc: usize = 0;
    let mut i: usize = 0;
    assert(chars@.take(0) =~= Seq::<char>::empty());
    while i < len
        invariant
            len == chars@.len(),
            i <= len,
            is_digits(chars@.take(i as int)),
            acc == decimal(chars@.take(i as int)),
        decreases len - i,
    {
        let c = chars[i];
        let ghost before = chars@.take(i as int);
        let ghost after = chars@.take(i + 1);
        assert(after.drop_last() =~= before);
        assert(after.last() == c);
        if !digit(c) {
            assert(!is_digit(chars@[i as int]));
            return None;
        }
        assert(is_digits(after)) by {
            assert forall|k: int| 0 <= k < after.len() implies is_digit(#[trigger] after[k]) by {
                if k < before.len() {
                    assert(after[k] == before[k]);
                }
            }
        }
        let v: usize = (c as u32 - '0' as u32) as usize;
        assert(decimal(after) == decimal(before) * 10 + digit_value(c));
        assert(v == digit_value(c));
        if acc > (usize::MAX - v) / 10 {
            proof {
                if is_digits(chars@) {
                    lemma_decimal_prefix(chars@, i + 1);
                }
            }
            return None;
        }
        acc = acc * 10 + v;
        i += 1;
    }
    assert(chars@.take(len as int) =~= chars@);
    Some(acc)
}

/// The signed number that `chars` write.
fn parse_i32(chars: &[char]) -> (number: Option<i32>)
    ensures
        number == i32_of(chars@),
{
    let len = chars.len();
    let negative = len > 0 && chars[0] == '-';
    let start: usize = if negative {
        1
    } else {
        0
    };
    let ghost digits = chars@.skip(start as int);
    assert(chars@.skip(0) =~= chars@);
    if start == len {
        return None;
    }
    let mut acc: i64 = 0;
    let mut i: usize = start;
    assert(digits.take(0) =~= Seq::<char>::empty());
    while i < len
        invariant
            len == chars@.len(),
            negative == (len > 0 && chars@[0] == '-'),
            start == (if negative {
                1int
            } else {
                0int
            }),
            digits == chars@.skip(start as int),
            chars@.skip(0) == chars@,
            start <= i <= len,
            is_digits(digits.take(i - start)),
            acc == decimal(digits.take(i - start)),
            0 <= acc <= 2147483648,
        decreases len - i,
    {
        let c = chars[i];
        let ghost before = digits.take(i - start);
        let ghost after = digits.take(i - start + 1);
        assert(after.drop_last() =~= before);
        assert(after.last() == c);
        if !digit(c) {
            assert(!is_digit(digits[i - start]));
            return None;
        }
        assert(is_digits(after)) by {
            assert forall|k: int| 0 <= k < after.len() implies is_digit(#[trigger] after[k]) by {
                if k < before.len() {
                    assert(after[k] == before[k]);
                }
            }
        }
        let v: i64 = (c as u32 - '0' as u32) as i64;
        assert(decimal(after) == decimal(before) * 10 + digit_value(c));
        assert(v == digit_value(c));
        acc = acc * 10 + v;
        if acc > 2147483648 {
            proof {
                if is_digits(digits) {
                    lemma_decimal_prefix(digits, i - start + 1);
                }
            }
            return None;
        }
        i += 1;
    }
    assert(digits.take(len - start) =~= digits);
    if negative {
        Some((-acc) as i32)
    } else if acc <= 2147483647 {
        Some(acc as i32)
    } else {
        None
    }
}

/// `chars` without their white space.
fn strip_blanks(chars: &[char]) -> (kept: Vec<char>)
    ensures
        kept@ == without_blanks(chars@),
{
    let mut kept: Vec<char> = Vec::new();
    let mut i: usize = 0;
    assert(chars@.take(0) =~= Seq::<char>::empty());
    while i < chars.len()
        invariant
            i <= chars@.len(),
            kept@ == without_blanks(chars@.take(i as int)),
        decreases chars@.len() - i,
    {
        assert(chars@.take(i + 1).drop_last() =~= chars@.take(i as int));
        if !white_space(chars[i]) {
            kept.push(chars[i]);
        }
        i += 1;
    }
    assert(chars@.take(i as int) =~= chars@);
    kept
}

/// The first place at `from` or later where `c` stands in `chars`.
fn find_char(chars: &[char], c: char, from: usize) -> (at: usize)
    requires
        from <= chars@.len(),
    ensures
        at == find_from(chars@, c, from as int),
        from <= at <= chars@.len(),
{
    let mut i: usize = from;
    proof {
        lemma_find_from(chars@, c, from as int);
    }
    while i < chars.len() && chars[i] != c
        invariant
            from <= i <= chars@.len(),
            find_from(chars@, c, i as int) == find_from(chars@, c, from as int),
        decreases chars@.len() - i,
    {
        i += 1;
    }
    i
}

/// The characters of a selector without the brackets and the white space.
fn selector_chars(elem_selector_str: String) -> (inner: Vec<char>)
    ensures
        inner@ == without_blanks(trimmed(elem_selector_str@)),
{
    let trimmed_str = ArrayElementSelector::trim_brackets(elem_selector_str);
    let chars = chars_of(trimmed_str.as_str());
    strip_blanks(chars.as_slice())
}

impl ArrayElementSelector {
    /// Trim square brackets from both sides of a string if any.
    fn trim_brackets(elem_selector_str: String) -> (inner_str: String)
        ensures
            inner_str@ == trimmed(elem_selector_str@),
    {
        let chars = chars_of(elem_selector_str.as_str());
        let len = chars.len();
        if len >= 2 && chars[0] == '[' && chars[len - 1] == ']' {
            string_from_chars(vstd::slice::slice_subrange(chars.as_slice(), 1, len - 1))
        } else {
            elem_selector_str
        }
    }

    /// Parse single-type or all-type array element selector from a string.
    fn parse_single_or_all(elem_selector_str: String) -> (selector: Result<Self, JsonError>)
        ensures
            match selector {
                Ok(s) => single_or_all_of(elem_selector_str@) matches Ok(v) && v == s@,
                Err(e) => single_or_all_of(elem_selector_str@) matches Err(failure) && failure
                    == e@,
            },
    {
        let inner = selector_chars(elem_selector_str);
        if inner.len() == 1 && inner[0] == '*' {
            return Ok(ArrayElementSelector::All);
        }
        match parse_usize(inner.as_slice()) {
            Some(index) => Ok(ArrayElementSelector::Single(index)),
            None => Err(JsonError::NumericFormat),
        }
    }

    /// Parse range-type array element selector from a string.
    fn parse_range(elem_selector_str: String) -> (selector: Result<Self, JsonError>)
        ensures
            match selector {
                Ok(s) => range_of(elem_selector_str@) matches Ok(v) && v == s@,
                Err(e) => range_of(elem_selector_str@) matches Err(failure) && failure == e@,
            },
    {
        let inner = selector_chars(elem_selector_str);
        let len = inner.len();
        let colon_index = find_char(inner.as_slice(), ':', 0);
        let left = vstd::slice::slice_subrange(inner.as_slice(), 0, colon_index);
        let range_left = if left.len() == 0 {
            None
        } else {
            match parse_i32(left) {
                Some(i) => Some(i),
                None => {
                    return Err(JsonError::NumericFormat);
                },
            }
        };
        assert(inner@.take(colon_index as int) =~= inner@.subrange(0, colon_index as int));
        let range_right = if colon_index >= len || colon_index + 1 >= len {
            None
        } else {
            let right = vstd::slice::slice_subrange(inner.as_slice(), colon_index + 1, len);
            assert(inner@.skip(colon_index + 1) =~= right@);
            match parse_i32(right) {
                Some(i) => Some(i),
                None => {
                    return Err(JsonError::NumericFormat);
                },
            }
        };
        Ok(ArrayElementSelector::Range(range_left, range_right))
    }

    /// Parse multiple-type array element selector from a string.
    fn parse_multiple(elem_selector_str: String) -> (selector: Result<Self, JsonError>)
        ensures
            match selector {
                Ok(s) => multiple_of(elem_selector_str@) matches Ok(v) && v == s@,
                Err(e) => multiple_of(elem_selector_str@) matches Err(failure) && failure == e@,
            },
    {
        let inner = selector_chars(elem_selector_str);
        let len = inner.len();
        let mut indexes: Vec<usize> = Vec::new();
        let mut from: usize = 0;
        proof {
            assert(inner@.skip(0) =~= inner@);
            let whole = index_list(inner@);
            if whole is Ok {
                assert(Seq::<usize>::empty() + whole->Ok_0 =~= whole->Ok_0);
            }
        }
        loop
            invariant
                len == inner@.len(),
                inner@ == without_blanks(trimmed(elem_selector_str@)),
                from <= len,
                index_list(inner@) == crate::json_node::appended(
                    indexes@,
                    index_list(inner@.skip(from as int)),
                ),
            decreases len - from,
        {
            let ghost rest = inner@.skip(from as int);
            let ghost done = indexes@;
            let comma = find_char(inner.as_slice(), ',', from);
            proof {
                lemma_find_shifted(inner@, ',', from as int, from as int);
                assert(rest.take(comma - from) =~= inner@.subrange(from as int, comma as int));
            }
            let piece = vstd::slice::slice_subrange(inner.as_slice(), from, comma);
            assert(index_of(rest, ',') == comma - from);
            match parse_usize(piece) {
                None => {
                    assert(index_list(rest) is Err);
                    return Err(JsonError::NumericFormat);
                },
                Some(index) => {
                    indexes.push(index);
                    proof {
                        assert(indexes@ =~= done + seq![index]);
                    }
                },
            }
            if comma >= len {
                proof {
                    assert(index_list(rest) matches Ok(l) && l == seq![indexes@.last()]);
                    assert(done + seq![indexes@.last()] =~= indexes@);
                }
                return Ok(ArrayElementSelector::Multiple(indexes));
            }
            proof {
                assert(rest.skip(comma - from + 1) =~= inner@.skip(comma + 1));
                assert(index_list(rest) == prepended(
                    indexes@.last(),
                    index_list(inner@.skip(comma + 1)),
                ));
                let tail = index_list(inner@.skip(comma + 1));
                if tail is Ok {
                    assert(done + (seq![indexes@.last()] + tail->Ok_0) =~= indexes@ + tail->Ok_0);
                }
            }
            from = comma + 1;
        }
    }
}

/// Looking for a character in what is left of a text finds the place where
/// it stands in the whole text.
pub proof fn lemma_find_shifted(text: Seq<char>, c: char, from: int, i: int)
    requires
        0 <= from <= i <= text.len(),
    ensures
        find_from(text.skip(from), c, i - from) == find_from(text, c, i) - from,
    decreases text.len() - i,
{
    let rest = text.skip(from);
    if i < text.len() {
        assert(rest[i - from] == text[i]);
        if text[i] != c {
            lemma_find_shifted(text, c, from, i + 1);
        }
    }
}

/// One part of a path: a name, and an element selector where the part has
/// one. The names `$` and `@` stand for the node that the path starts from.
#[derive(Debug, PartialEq)]
pub struct JsonPathPart {
    pub path_name: String,
    pub elem_selector: Option<ArrayElementSelector>,
}

/// The mathematical value of a [`JsonPathPart`].
pub struct Segment {
    pub name: Seq<char>,
    pub selector: Option<Selector>,
}

impl View for JsonPathPart {
    type V = Segment;

    open spec fn view(&self) -> Segment {
        Segment {
            name: self.path_name@,
            selector: match self.elem_selector {
                Some(s) => Some(s@),
                None => None,
            },
        }
    }
}

/// A compiled path: its parts in order. It refers to no document and can be
/// evaluated against any.
#[derive(Debug, PartialEq)]
pub struct JsonPath {
    pub parts: Vec<JsonPathPart>,
}

/// The segments that a list of parts stands for.
pub open spec fn segments_of(parts: Seq<JsonPathPart>) -> Seq<Segment> {
    parts.map_values(|part: JsonPathPart| part@)
}

impl View for JsonPath {
    type V = Seq<Segment>;

    open spec fn view(&self) -> Seq<Segment> {
        segments_of(self.parts@)
    }
}

/// What kind of fragment `text` starts with.
///
/// Nothing starts at the end of the text. `$` and `@` are the names of the
/// starting node. `[` starts a name in quotes where `'` comes
/// next, a selector where a digit, `-`, `:` or `*` comes next, and a filter
/// where `?` comes next; it is an error where the text ends after it or
/// anything else comes next. Any other character starts a name.
pub open spec fn frag_type(text: Seq<char>) -> Result<PartFragType, Failure> {
    if text.len() == 0 {
        Ok(PartFragType::Nothing)
    } else if text[0] == '$' {
        Ok(PartFragType::RootPathName)
    } else if text[0] == '@' {
        Ok(PartFragType::CurrentPathName)
    } else if text[0] == '[' {
        if text.len() < 2 {
            Err(Failure::UnmatchedBracket(text.take(1)))
        } else if text[1] == '\'' {
            Ok(PartFragType::BracketNotationPathName)
        } else if is_digit(text[1]) || text[1] == '-' || text[1] == ':' || text[1] == '*' {
            Ok(PartFragType::ElementSelector)
        } else if text[1] == '?' {
            Ok(PartFragType::Filter)
        } else {
            Err(Failure::PathSyntax(text.take(2)))
        }
    } else {
        Ok(PartFragType::DotNotationPathName)
    }
}

/// Whether `c` may stand between the brackets of a selector.
pub open spec fn is_selector_char(c: char) -> bool {
    is_digit(c) || c == '-' || c == ':' || c == ',' || c == '*' || is_whitespace(c)
}

/// The place of the `]` that ends the selector at the start of `text`, for
/// a scan that stands at `i`. It is an error where the text ends before a
/// `]`, and where a character stands before it that no selector holds.
pub open spec fn selector_end(text: Seq<char>, i: int) -> Result<int, Failure>
    decreases text.len() - i,
{
    if i < 0 || i >= text.len() {
        Err(Failure::UnmatchedBracket(text))
    } else if text[i] == ']' {
        Ok(i)
    } else if is_selector_char(text[i]) || (i == 0 && text[i] == '[') {
        selector_end(text, i + 1)
    } else {
        Err(Failure::PathSyntax(text.take(i + 1)))
    }
}

/// The selector at the start of `text`, and the number of characters that
/// reading it uses up.
pub open spec fn scan_selector(text: Seq<char>) -> (Result<Selector, Failure>, int) {
    match selector_end(text, 0) {
        Err(e) => (Err(e), 0),
        Ok(end) => (selector_of(text.take(end + 1)), end + 1),
    }
}

/// Where the name in dot notation at the start of `text` ends, for a scan
/// that stands at `i` with `escape` set by a backslash just before. The
/// name reaches to the first `.` or `[` that no backslash escapes.
pub open spec fn dot_name_end(text: Seq<char>, i: int, escape: bool) -> int
    decreases text.len() - i,
{
    if i < 0 || i >= text.len() {
        text.len() as int
    } else if text[i] == '\\' {
        dot_name_end(text, i + 1, true)
    } else if (text[i] == '.' || text[i] == '[') && !escape {
        i
    } else {
        dot_name_end(text, i + 1, false)
    }
}

/// The name in dot notation at the start of `text`, and the number of
/// characters that reading it uses up. An empty name is an error, which
/// holds the character that stands where the name should start.
pub open spec fn scan_dot_name(text: Seq<char>) -> (Result<Seq<char>, Failure>, int) {
    let end = dot_name_end(text, 0, false);
    if end == 0 {
        if text.len() == 0 {
            (Err(Failure::PathSyntax(text)), 0)
        } else {
            (Err(Failure::PathSyntax(text.take(1))), 0)
        }
    } else {
        (Ok(text.take(end)), end)
    }
}

/// The place of the quote that closes the name in bracket notation at the
/// start of `text`, for a scan that stands at `i` with `escape` set by a
/// backslash just before and `in_quote` set inside the quotes. A `]` must
/// follow the closing quote at once.
pub open spec fn quote_end(text: Seq<char>, i: int, escape: bool, in_quote: bool) -> Result<
    int,
    Failure,
>
    decreases text.len() - i,
{
    if i < 0 || i >= text.len() {
        Err(Failure::UnmatchedBracket(text))
    } else if text[i] == '\\' {
        quote_end(text, i + 1, true, in_quote)
    } else if text[i] == '\'' && !escape {
        if !in_quote {
            quote_end(text, i + 1, false, true)
        } else if i + 1 >= text.len() {
            Err(Failure::UnmatchedBracket(text))
        } else if text[i + 1] == ']' {
            Ok(i)
        } else {
            Err(Failure::PathSyntax(text.take(i + 2)))
        }
    } else {
        quote_end(text, i + 1, false, in_quote)
    }
}

/// The name in bracket notation at the start of `text`, without `['` and
/// `']`, and the number of characters that reading it uses up.
pub open spec fn scan_bracket_name(text: Seq<char>) -> (Result<Seq<char>, Failure>, int) {
    match quote_end(text, 0, false, false) {
        Err(e) => (Err(e), 0),
        Ok(close) => if close >= 2 && text[0] == '[' && text[1] == '\'' {
            (Ok(text.subrange(2, close)), close + 2)
        } else {
            (Ok(text.take(close + 2)), close + 2)
        },
    }
}

/// The name that a path part starts with, and the number of characters that
/// reading it uses up. A part cannot start with a selector or a filter.
pub open spec fn scan_name(text: Seq<char>, frag: PartFragType) -> (Result<Seq<char>, Failure>, int) {
    match frag {
        PartFragType::RootPathName => (Ok(seq!['$']), 1),
        PartFragType::CurrentPathName => (Ok(seq!['@']), 1),
        PartFragType::DotNotationPathName => scan_dot_name(text),
        PartFragType::BracketNotationPathName => scan_bracket_name(text),
        _ => (Err(Failure::PathSyntax(text.take(2))), 0),
    }
}

/// The selector of a path part whose name has been read, where one
/// follows, and the number of characters that reading it uses up.
pub open spec fn scan_optional_selector(text: Seq<char>) -> (Result<Option<Selector>, Failure>, int) {
    match frag_type(text) {
        Err(e) => (Err(e), 0),
        Ok(PartFragType::ElementSelector) => {
            let (selector, used) = scan_selector(text);
            match selector {
                Err(e) => (Err(e), used),
                Ok(s) => (Ok(Some(s)), used),
            }
        },
        Ok(_) => (Ok(None), 0),
    }
}

/// What may follow a path part: anything but a filter, which is rejected.
pub open spec fn check_no_filter(text: Seq<char>) -> Result<(), Failure> {
    match frag_type(text) {
        Err(e) => Err(e),
        Ok(PartFragType::Filter) => Err(Failure::PathSyntax(text.take(2))),
        Ok(_) => Ok(()),
    }
}

/// The path part at the start of `text`, and the number of characters that
/// reading it uses up; no part where nothing starts there.
pub open spec fn scan_part(text: Seq<char>) -> (Result<Option<Segment>, Failure>, int) {
    match frag_type(text) {
        Err(e) => (Err(e), 0),
        Ok(PartFragType::Nothing) => (Ok(None), 0),
        Ok(frag) => {
            let (name, name_len) = scan_name(text, frag);
            match name {
                Err(e) => (Err(e), name_len),
                Ok(n) => {
                    let (selector, selector_len) = scan_optional_selector(text.skip(name_len));
                    let used = name_len + selector_len;
                    match selector {
                        Err(e) => (Err(e), used),
                        Ok(s) => match check_no_filter(text.skip(used)) {
                            Err(e) => (Err(e), used),
                            Ok(_) => (Ok(Some(Segment { name: n, selector: s })), used),
                        },
                    }
                },
            }
        },
    }
}

/// The place after a `.` at `i`, and `i` where no `.` stands there.
pub open spec fn past_dot(text: Seq<char>, i: int) -> int {
    if 0 <= i < text.len() && text[i] == '.' {
        i + 1
    } else {
        i
    }
}

/// The segments that `text` writes.
///
/// The parts follow each other, with a `.` between them or without. Reading
/// ends at the end of the text, and where nothing starts a part.
pub open spec fn compile(text: Seq<char>) -> Result<Seq<Segment>, Failure>
    decreases text.len(),
{
    match scan_part(text) {
        (Err(e), _) => Err(e),
        (Ok(None), _) => Ok(Seq::empty()),
        (Ok(Some(segment)), used) => {
            let next = past_dot(text, used);
            if 0 < next <= text.len() {
                prepended(segment, compile(text.skip(next)))
            } else {
                Ok(seq![segment])
            }
        },
    }
}

impl PartFragType {
    /// Says what kind of fragment the cursor stands at. Nothing is consumed.
    pub(crate) fn identify_frag<'a>(peekable_cp: &mut PeekableCodePoints<'a>) -> (frag: Result<
        Self,
        JsonError,
    >)
        requires
            !old(peekable_cp).broken(),
        ensures
            final(peekable_cp)@ == old(peekable_cp)@,
            match frag {
                Ok(f) => frag_type(old(peekable_cp).ahead()) matches Ok(g) && g == f,
                Err(e) => frag_type(old(peekable_cp).ahead()) matches Err(failure) && failure
                    == e@,
            },
    {
        let frag_type = match peekable_cp.peek_char(0)? {
            None => PartFragType::Nothing,
            Some(c) => {
                if c == '$' {
                    PartFragType::RootPathName
                } else if c == '@' {
                    PartFragType::CurrentPathName
                } else if c == '[' {
                    match peekable_cp.peek_char(1)? {
                        None => {
                            return Err(JsonError::UnmatchedBracket(peekable_cp.peek(1)?));
                        },
                        Some(c) => {
                            if c == '\'' {
                                PartFragType::BracketNotationPathName
                            } else if digit(c) || c == '-' || c == ':' || c == '*' {
                                PartFragType::ElementSelector
                            } else if c == '?' {
                                PartFragType::Filter
                            } else {
                                return Err(JsonError::PathSyntax(peekable_cp.peek(2)?));
                            }
                        },
                    }
                } else {
                    PartFragType::DotNotationPathName
                }
            },
        };
        Ok(frag_type)
    }
}

impl ArrayElementSelector {
    /// Reads the selector that the cursor stands at.
    pub(crate) fn parse<'a>(peekable_cp: &mut PeekableCodePoints<'a>) -> (selector: Result<
        Self,
        JsonError,
    >)
        requires
            !old(peekable_cp).broken(),
        ensures
            !final(peekable_cp).broken(),
            ({
                let (scanned, used) = scan_selector(old(peekable_cp).ahead());
                &&& 0 <= used <= old(peekable_cp).ahead().len()
                &&& final(peekable_cp).ahead() == old(peekable_cp).ahead().skip(used)
                &&& match selector {
                    Ok(s) => scanned matches Ok(v) && v == s@,
                    Err(e) => scanned matches Err(failure) && failure == e@,
                }
            }),
    {
        let ghost text = peekable_cp.ahead();
        let mut i: usize = 0;
        let mut has_comma = false;
        let mut has_colon = false;
        loop
            invariant
                peekable_cp@ == old(peekable_cp)@,
                text == peekable_cp.ahead(),
                !peekable_cp.broken(),
                0 <= i <= text.len(),
                selector_end(text, i as int) == selector_end(text, 0),
                has_comma <==> exists|k: int| 0 <= k < i && #[trigger] text[k] == ',',
                has_colon <==> exists|k: int| 0 <= k < i && #[trigger] text[k] == ':',
            ensures
                i < text.len(),
                i < usize::MAX,
                text[i as int] == ']',
                selector_end(text, 0) matches Ok(end) && end == i,
            decreases text.len() - i,
        {
            match peekable_cp.peek_char(i)? {
                None => {
                    proof {
                        assert(text.take(i as int) =~= text);
                    }
                    return Err(JsonError::UnmatchedBracket(peekable_cp.peek(i)?));
                },
                Some(c) => {
                    if c == ']' {
                        break;
                    } else if c == ',' {
                        has_comma = true;
                    } else if c == ':' {
                        has_colon = true;
                    } else if digit(c) || c == '-' || c == '*' {
                    } else if c == '[' && i == 0 {
                    } else if white_space(c) {
                    } else {
                        return Err(JsonError::PathSyntax(peekable_cp.peek(i + 1)?));
                    }
                },
            }
            i += 1;
        }
        let elem_selector_str = peekable_cp.pop(i + 1)?;
        proof {
            let sel = text.take(i + 1);
            lemma_find_from(sel, ',', 0);
            lemma_find_from(sel, ':', 0);
            if has_comma {
                let k = choose|k: int| 0 <= k < i && #[trigger] text[k] == ',';
                assert(sel[k] == ',');
            }
            if has_colon {
                let k = choose|k: int| 0 <= k < i && #[trigger] text[k] == ':';
                assert(sel[k] == ':');
            }
            if holds(sel, ',') {
                assert(text[index_of(sel, ',')] == ',');
            }
            if holds(sel, ':') {
                assert(text[index_of(sel, ':')] == ':');
            }
            assert(holds(sel, ',') == has_comma);
            assert(holds(sel, ':') == has_colon);
        }
        if has_comma {
            ArrayElementSelector::parse_multiple(elem_selector_str)
        } else if has_colon {
            ArrayElementSelector::parse_range(elem_selector_str)
        } else {
            ArrayElementSelector::parse_single_or_all(elem_selector_str)
        }
    }
}

impl JsonPathPart {
    /// A part with this name and this selector.
    pub fn new(path_name: &str, elem_selector: Option<ArrayElementSelector>) -> (part: Self)
        ensures
            part.path_name@ == path_name@,
            part.elem_selector == elem_selector,
    {
        JsonPathPart { path_name: path_name.to_owned(), elem_selector }
    }

    /// Reads the name in dot notation that the cursor stands at.
    pub(crate) fn parse_dot_notation_path_name<'a>(
        peekable_cp: &mut PeekableCodePoints<'a>,
    ) -> (name: Result<String, JsonError>)
        requires
            !old(peekable_cp).broken(),
        ensures
            !final(peekable_cp).broken(),
            ({
                let (scanned, used) = scan_dot_name(old(peekable_cp).ahead());
                &&& 0 <= used <= old(peekable_cp).ahead().len()
                &&& final(peekable_cp).ahead() == old(peekable_cp).ahead().skip(used)
                &&& match name {
                    Ok(n) => scanned matches Ok(v) && v == n@,
                    Err(e) => scanned matches Err(failure) && failure == e@,
                }
            }),
    {
        let ghost text = peekable_cp.ahead();
        let mut i: usize = 0;
        let mut is_escape = false;
        loop
            invariant
                peekable_cp@ == old(peekable_cp)@,
                text == peekable_cp.ahead(),
                !peekable_cp.broken(),
                0 <= i <= text.len(),
                dot_name_end(text, i as int, is_escape) == dot_name_end(text, 0, false),
            ensures
                peekable_cp@ == old(peekable_cp)@,
                text == peekable_cp.ahead(),
                !peekable_cp.broken(),
                i <= text.len(),
                i == dot_name_end(text, 0, false),
            decreases text.len() - i,
        {
            match peekable_cp.peek_char(i)? {
                None => {
                    break;
                },
                Some(c) => {
                    if c == '\\' {
                        is_escape = true;
                        i += 1;
                        continue;
                    }
                    if (c == '.' || c == '[') && !is_escape {
                        break;
                    }
                },
            }
            is_escape = false;
            i += 1;
        }
        if 0 == i {
            proof {
                assert(text.skip(0) =~= text);
            }
            return Err(JsonError::PathSyntax(peekable_cp.peek(1)?));
        }
        let path_name = peekable_cp.pop(i)?;
        Ok(path_name)
    }

    /// Reads the name in bracket notation that the cursor stands at.
    pub(crate) fn parse_bracket_notation_path_name<'a>(
        peekable_cp: &mut PeekableCodePoints<'a>,
    ) -> (name: Result<String, JsonError>)
        requires
            !old(peekable_cp).broken(),
        ensures
            !final(peekable_cp).broken(),
            ({
                let (scanned, used) = scan_bracket_name(old(peekable_cp).ahead());
                &&& 0 <= used <= old(peekable_cp).ahead().len()
                &&& final(peekable_cp).ahead() == old(peekable_cp).ahead().skip(used)
                &&& match name {
                    Ok(n) => scanned matches Ok(v) && v == n@,
                    Err(e) => scanned matches Err(failure) && failure == e@,
                }
            }),
    {
        let ghost text = peekable_cp.ahead();
        let mut i: usize = 0;
        let mut is_escape = false;
        let mut in_quote = false;
        proof {
            assert(text.skip(0) =~= text);
        }
        loop
            invariant_except_break
                quote_end(text, i as int, is_escape, in_quote) == quote_end(text, 0, false, false),
            invariant
                peekable_cp@ == old(peekable_cp)@,
                text == peekable_cp.ahead(),
                text.skip(0) == text,
                !peekable_cp.broken(),
                0 <= i <= text.len(),
            ensures
                i + 2 <= text.len(),
                i + 2 <= usize::MAX,
                quote_end(text, 0, false, false) matches Ok(close) && close == i,
            decreases text.len() - i,
        {
            match peekable_cp.peek_char(i)? {
                None => {
                    proof {
                        assert(text.take(i as int) =~= text);
                    }
                    return Err(JsonError::UnmatchedBracket(peekable_cp.peek(i)?));
                },
                Some(c) => {
                    if c == '\\' {
                        is_escape = true;
                        i += 1;
                        continue;
                    }
                    if c == '\'' && !is_escape {
                        in_quote = !in_quote;
                        if !in_quote {
                            match peekable_cp.peek_char(i + 1)? {
                                None => {
                                    proof {
                                        assert(text.take(i + 1) =~= text);
                                    }
                                    return Err(
                                        JsonError::UnmatchedBracket(peekable_cp.peek(i + 1)?),
                                    );
                                },
                                Some(c) => {
                                    if c == ']' {
                                        break;
                                    } else {
                                        return Err(JsonError::PathSyntax(peekable_cp.peek(i + 2)?));
                                    }
                                },
                            }
                        }
                    }
                },
            }
            i += 1;
            is_escape = false;
        }
        let path_name_w_bracket = peekable_cp.pop(i + 2)?;
        let chars = chars_of(path_name_w_bracket.as_str());
        if i >= 2 && chars[0] == '[' && chars[1] == '\'' {
            let inner = string_from_chars(vstd::slice::slice_subrange(chars.as_slice(), 2, i));
            proof {
                assert(text.take(i + 2).subrange(2, i as int) =~= text.subrange(2, i as int));
            }
            return Ok(inner);
        }
        Ok(path_name_w_bracket)
    }

    /// Reads the name that a path part starts with, for the kind of
    /// fragment that the cursor stands at.
    fn parse_name<'a>(peekable_cp: &mut PeekableCodePoints<'a>, frag_type: PartFragType) -> (name:
        Result<String, JsonError>)
        requires
            !old(peekable_cp).broken(),
            self::frag_type(old(peekable_cp).ahead()) matches Ok(f) && f == frag_type,
            frag_type != PartFragType::Nothing,
        ensures
            !final(peekable_cp).broken(),
            ({
                let (scanned, used) = scan_name(old(peekable_cp).ahead(), frag_type);
                &&& 0 <= used <= old(peekable_cp).ahead().len()
                &&& final(peekable_cp).ahead() == old(peekable_cp).ahead().skip(used)
                &&& match name {
                    Ok(n) => scanned matches Ok(v) && v == n@,
                    Err(e) => scanned matches Err(failure) && failure == e@,
                }
            }),
    {
        let ghost text = peekable_cp.ahead();
        proof {
            assert(text.skip(0) =~= text);
        }
        match frag_type {
            PartFragType::RootPathName => {
                peekable_cp.skip(1)?;
                let name = string_from_chars(['$'].as_slice());
                assert(name@ =~= seq!['$']);
                Ok(name)
            },
            PartFragType::CurrentPathName => {
                peekable_cp.skip(1)?;
                let name = string_from_chars(['@'].as_slice());
                assert(name@ =~= seq!['@']);
                Ok(name)
            },
            PartFragType::DotNotationPathName => JsonPathPart::parse_dot_notation_path_name(
                peekable_cp,
            ),
            PartFragType::BracketNotationPathName => {
                JsonPathPart::parse_bracket_notation_path_name(peekable_cp)
            },
            _ => Err(JsonError::PathSyntax(peekable_cp.peek(2)?)),
        }
    }

    /// Reads the selector of a path part whose name has been read, where
    /// one follows.
    fn parse_optional_selector<'a>(peekable_cp: &mut PeekableCodePoints<'a>) -> (selector: Result<
        Option<ArrayElementSelector>,
        JsonError,
    >)
        requires
            !old(peekable_cp).broken(),
        ensures
            !final(peekable_cp).broken(),
            ({
                let (scanned, used) = scan_optional_selector(old(peekable_cp).ahead());
                &&& 0 <= used <= old(peekable_cp).ahead().len()
                &&& final(peekable_cp).ahead() == old(peekable_cp).ahead().skip(used)
                &&& match selector {
                    Ok(Some(s)) => scanned matches Ok(Some(v)) && v == s@,
                    Ok(None) => scanned matches Ok(None),
                    Err(e) => scanned matches Err(failure) && failure == e@,
                }
            }),
    {
        let ghost text = peekable_cp.ahead();
        proof {
            assert(text.skip(0) =~= text);
        }
        let next_frag_type = match PartFragType::identify_frag(peekable_cp) {
            Err(e) => {
                return Err(e);
            },
            Ok(frag_type) => frag_type,
        };
        match next_frag_type {
            PartFragType::ElementSelector => match ArrayElementSelector::parse(peekable_cp) {
                Err(e) => Err(e),
                Ok(selector) => Ok(Some(selector)),
            },
            _ => Ok(None),
        }
    }

    /// Rejects a filter where the cursor stands at one. Nothing is consumed.
    fn reject_filter<'a>(peekable_cp: &mut PeekableCodePoints<'a>) -> (checked: Result<
        (),
        JsonError,
    >)
        requires
            !old(peekable_cp).broken(),
        ensures
            final(peekable_cp)@ == old(peekable_cp)@,
            match checked {
                Ok(_) => check_no_filter(old(peekable_cp).ahead()) is Ok,
                Err(e) => check_no_filter(old(peekable_cp).ahead()) matches Err(failure) && failure
                    == e@,
            },
    {
        let last_frag_type = match PartFragType::identify_frag(peekable_cp) {
            Err(e) => {
                return Err(e);
            },
            Ok(frag_type) => frag_type,
        };
        if let PartFragType::Filter = last_frag_type {
            return Err(JsonError::PathSyntax(peekable_cp.peek(2)?));
        }
        Ok(())
    }

    /// Reads the path part that the cursor stands at, and `None` where no
    /// part starts there. A filter after the part is rejected.
    pub(crate) fn parse_next<'a>(peekable_cp: &mut PeekableCodePoints<'a>) -> (part: Result<
        Option<Self>,
        JsonError,
    >)
        requires
            !old(peekable_cp).broken(),
        ensures
            !final(peekable_cp).broken(),
            ({
                let (scanned, used) = scan_part(old(peekable_cp).ahead());
                &&& 0 <= used <= old(peekable_cp).ahead().len()
                &&& final(peekable_cp).ahead() == old(peekable_cp).ahead().skip(used)
                &&& match part {
                    Ok(Some(p)) => scanned matches Ok(Some(v)) && v == p@,
                    Ok(None) => scanned matches Ok(None),
                    Err(e) => scanned matches Err(failure) && failure == e@,
                }
            }),
    {
        let ghost text = peekable_cp.ahead();
        proof {
            assert(text.skip(0) =~= text);
        }
        let frag_type = match PartFragType::identify_frag(peekable_cp) {
            Err(e) => {
                return Err(e);
            },
            Ok(frag_type) => frag_type,
        };
        if let PartFragType::Nothing = frag_type {
            return Ok(None);
        }
        let ghost name_len = scan_name(text, frag_type).1;
        let path_name = match JsonPathPart::parse_name(peekable_cp, frag_type) {
            Err(e) => {
                return Err(e);
            },
            Ok(name) => name,
        };
        let ghost selector_len = scan_optional_selector(text.skip(name_len)).1;
        let parsed = JsonPathPart::parse_optional_selector(peekable_cp);
        proof {
            assert(text.skip(name_len).skip(selector_len) =~= text.skip(name_len + selector_len));
        }
        let elem_selector = match parsed {
            Err(e) => {
                return Err(e);
            },
            Ok(selector) => selector,
        };
        match JsonPathPart::reject_filter(peekable_cp) {
            Err(e) => {
                return Err(e);
            },
            Ok(_) => {},
        }
        Ok(Some(JsonPathPart { path_name, elem_selector }))
    }
}

impl JsonPath {
    /// A path of these parts.
    pub fn new(parts: Vec<JsonPathPart>) -> (path: Self)
        ensures
            path.parts == parts,
    {
        JsonPath { parts }
    }

    /// Compiles the text of a path.
    ///
    /// Fails where the text holds a fragment that is no part of the path
    /// grammar, a bracket or a quote that is not closed, a number that is
    /// not written as its type requires, or a filter.
    pub fn parse(path_str: &str) -> (path: Result<Self, JsonError>)
        ensures
            match path {
                Ok(p) => compile(path_str@) matches Ok(segments) && segments == p@,
                Err(e) => compile(path_str@) matches Err(failure) && failure == e@,
            },
    {
        broadcast use {vstd::utf8::encode_utf8_valid_utf8, vstd::utf8::encode_utf8_decode_utf8};

        let mut path_parts: Vec<JsonPathPart> = Vec::new();
        let mut peekable_cp = PeekableCodePoints::new(path_str.as_bytes());
        proof {
            crate::peekable_codepoints::lemma_readable_decoded(path_str@, Seq::empty());
            assert(crate::peekable_codepoints::decoded(path_str@) + Seq::empty()
                =~= crate::peekable_codepoints::decoded(path_str@));
            let whole = compile(path_str@);
            if whole is Ok {
                assert(Seq::<Segment>::empty() + whole->Ok_0 =~= whole->Ok_0);
            }
        }
        loop
            invariant
                !peekable_cp.broken(),
                compile(path_str@) == crate::json_node::appended(
                    segments_of(path_parts@),
                    compile(peekable_cp.ahead()),
                ),
            decreases peekable_cp.ahead().len(),
        {
            let ghost text = peekable_cp.ahead();
            let ghost done = segments_of(path_parts@);
            let part = match JsonPathPart::parse_next(&mut peekable_cp) {
                Err(e) => {
                    return Err(e);
                },
                Ok(part) => part,
            };
            let part = match part {
                None => {
                    proof {
                        assert(done + Seq::<Segment>::empty() =~= done);
                    }
                    return Ok(JsonPath::new(path_parts));
                },
                Some(part) => part,
            };
            let ghost segment = part@;
            let ghost used = scan_part(text).1;
            path_parts.push(part);
            if let Some(c) = peekable_cp.peek_char(0)? {
                if c == '.' {
                    peekable_cp.skip(1)?;
                    proof {
                        assert(text.skip(used).skip(1) =~= text.skip(used + 1));
                    }
                }
            }
            proof {
                lemma_part_uses(text);
                let next = past_dot(text, used);
                assert(peekable_cp.ahead() == text.skip(next));
                assert(segments_of(path_parts@) =~= done + seq![segment]);
                let rest = compile(text.skip(next));
                if rest is Ok {
                    assert(done + (seq![segment] + rest->Ok_0) =~= segments_of(path_parts@)
                        + rest->Ok_0);
                }
            }
        }
    }
}

/// Reading a part uses up at least one character.
pub proof fn lemma_part_uses(text: Seq<char>)
    ensures
        scan_part(text).0 matches Ok(Some(_)) ==> 0 < scan_part(text).1,
{
    if scan_part(text).0 matches Ok(Some(_)) {
        let frag = frag_type(text)->Ok_0;
        let (name, name_len) = scan_name(text, frag);
        match frag {
            PartFragType::DotNotationPathName => {
                lemma_dot_name_end_bounds(text, 0, false);
            },
            PartFragType::BracketNotationPathName => {
                lemma_quote_end_bounds(text, 0, false, false);
            },
            _ => {},
        }
        assert(name_len > 0);
        let (selector, selector_len) = scan_optional_selector(text.skip(name_len));
        if frag_type(text.skip(name_len)) == Ok::<PartFragType, Failure>(PartFragType::ElementSelector) {
            lemma_selector_end_bounds(text.skip(name_len), 0);
        }
    }
}

/// A name in dot notation ends inside the text, at the place where the scan
/// stands or after it.
pub proof fn lemma_dot_name_end_bounds(text: Seq<char>, i: int, escape: bool)
    requires
        0 <= i <= text.len(),
    ensures
        i <= dot_name_end(text, i, escape) <= text.len(),
    decreases text.len() - i,
{
    if i < text.len() {
        if text[i] == '\\' {
            lemma_dot_name_end_bounds(text, i + 1, true);
        } else if (text[i] == '.' || text[i] == '[') && !escape {
        } else {
            lemma_dot_name_end_bounds(text, i + 1, false);
        }
    }
}

/// The quote that closes a name in bracket notation has the closing
/// bracket after it inside the text.
pub proof fn lemma_quote_end_bounds(text: Seq<char>, i: int, escape: bool, in_quote: bool)
    requires
        0 <= i <= text.len(),
    ensures
        quote_end(text, i, escape, in_quote) matches Ok(close) ==> i <= close && close + 2
            <= text.len(),
    decreases text.len() - i,
{
    if i < text.len() {
        if text[i] == '\\' {
            lemma_quote_end_bounds(text, i + 1, true, in_quote);
        } else if text[i] == '\'' && !escape {
            if !in_quote {
                lemma_quote_end_bounds(text, i + 1, false, true);
            }
        } else {
            lemma_quote_end_bounds(text, i + 1, false, in_quote);
        }
    }
}

/// The bracket that closes a selector lies inside the text.
pub proof fn lemma_selector_end_bounds(text: Seq<char>, i: int)
    requires
        0 <= i <= text.len(),
    ensures
        selector_end(text, i) matches Ok(end) ==> i <= end < text.len(),
    decreases text.len() - i,
{
    if i < text.len() && text[i] != ']' && (is_selector_char(text[i]) || (i == 0 && text[i] == '[')) {
        lemma_selector_end_bounds(text, i + 1);
    }
}

} // verus!
