//! The two ways to write a name in a path: after a dot, as in `.store`, and
//! between brackets and quotes, as in `['store']`. A path means the same in
//! either notation.

use crate::error::Failure;
use crate::json_node::prepended;
use crate::json_path::{
    check_no_filter, compile, dot_name_end, frag_type, is_selector_char, past_dot, quote_end,
    scan_bracket_name, scan_dot_name, scan_name, scan_optional_selector, scan_part, scan_selector,
    selector_end, selector_of, PartFragType, Segment,
};
use crate::text::is_digit;
use vstd::prelude::*;

verus! {

/// One step of a path as it is written: a name, and the text of a selector
/// after it, which may be empty.
pub struct WrittenStep {
    pub name: Seq<char>,
    pub selector: Seq<char>,
}

/// Whether a name can be written in either notation as it is: it is not
/// empty, holds no `.`, `[`, `'` and no backslash, and does not start with
/// `$` or `@`.
pub open spec fn is_plain_name(name: Seq<char>) -> bool {
    &&& name.len() > 0
    &&& name[0] != '$'
    &&& name[0] != '@'
    &&& forall|i: int|
        0 <= i < name.len() ==> {
            let c = #[trigger] name[i];
            c != '.' && c != '[' && c != '\'' && c != '\\'
        }
}

/// Whether `text` is empty or the text of one selector: an opening bracket,
/// then a digit, `-`, `:` or `*`, then characters that a selector may hold,
/// then the closing bracket.
pub open spec fn is_selector_text(text: Seq<char>) -> bool {
    text.len() == 0 || {
        &&& text.len() >= 3
        &&& text[0] == '['
        &&& text.last() == ']'
        &&& is_digit(text[1]) || text[1] == '-' || text[1] == ':' || text[1] == '*'
        &&& forall|i: int|
            1 <= i < text.len() - 1 ==> is_selector_char(#[trigger] text[i]) && text[i] != ']'
    }
}

/// Whether every step has a plain name and the text of a selector, or none.
pub open spec fn are_plain(steps: Seq<WrittenStep>) -> bool {
    forall|i: int|
        0 <= i < steps.len() ==> is_plain_name((#[trigger] steps[i]).name) && is_selector_text(
            steps[i].selector,
        )
}

/// The steps in dot notation: `.name` and the selector, for each in turn.
pub open spec fn dot_notation(steps: Seq<WrittenStep>) -> Seq<char>
    decreases steps.len(),
{
    if steps.len() == 0 {
        Seq::empty()
    } else {
        seq!['.'] + steps[0].name + steps[0].selector + dot_notation(steps.skip(1))
    }
}

/// The steps in bracket notation: `['name']` and the selector, for each in
/// turn.
pub open spec fn bracket_notation(steps: Seq<WrittenStep>) -> Seq<char>
    decreases steps.len(),
{
    if steps.len() == 0 {
        Seq::empty()
    } else {
        seq!['[', '\''] + steps[0].name + seq!['\'', ']'] + steps[0].selector + bracket_notation(
            steps.skip(1),
        )
    }
}

/// Whether `text` is empty or starts with a `.` or a `[`.
pub open spec fn starts_apart(text: Seq<char>) -> bool {
    text.len() == 0 || text[0] == '.' || text[0] == '['
}

/// A plain name in dot notation ends where the name ends.
pub proof fn lemma_dot_name_end_plain(name: Seq<char>, rest: Seq<char>, i: int)
    requires
        is_plain_name(name),
        starts_apart(rest),
        0 <= i <= name.len(),
    ensures
        dot_name_end(name + rest, i, false) == name.len(),
    decreases name.len() - i,
{
    let text = name + rest;
    if i < name.len() {
        assert(text[i] == name[i]);
        lemma_dot_name_end_plain(name, rest, i + 1);
    } else if rest.len() > 0 {
        assert(text[i] == rest[0]);
    }
}

/// A plain name in bracket notation ends at the quote after the name.
pub proof fn lemma_quote_end_plain(name: Seq<char>, rest: Seq<char>, i: int)
    requires
        is_plain_name(name),
        2 <= i <= name.len() + 2,
    ensures
        quote_end(seq!['[', '\''] + name + seq!['\'', ']'] + rest, i, false, true) == Ok::<
            int,
            Failure,
        >(name.len() as int + 2),
    decreases name.len() + 2 - i,
{
    let text = seq!['[', '\''] + name + seq!['\'', ']'] + rest;
    if i < name.len() + 2 {
        assert(text[i] == name[i - 2]);
        lemma_quote_end_plain(name, rest, i + 1);
    } else {
        assert(text[i] == '\'');
        assert(text[i + 1] == ']');
    }
}

/// The text of a selector ends at its closing bracket, whatever follows.
pub proof fn lemma_selector_end_text(selector: Seq<char>, rest: Seq<char>, i: int)
    requires
        is_selector_text(selector),
        selector.len() > 0,
        0 <= i < selector.len(),
    ensures
        selector_end(selector + rest, i) == Ok::<int, Failure>(selector.len() - 1),
    decreases selector.len() - i,
{
    let text = selector + rest;
    assert(text[i] == selector[i]);
    if i < selector.len() - 1 {
        lemma_selector_end_text(selector, rest, i + 1);
    }
}

/// What reading a selector, or none, finds at the text of a selector that
/// is followed by a text that starts apart.
pub proof fn lemma_scan_optional_selector(selector: Seq<char>, rest: Seq<char>)
    requires
        is_selector_text(selector),
        starts_apart(rest),
        rest.len() >= 2 && rest[0] == '[' ==> rest[1] == '\'',
        rest.len() == 1 ==> rest[0] == '.',
    ensures
        scan_optional_selector(selector + rest) == if selector.len() == 0 {
            (Ok::<Option<crate::json_path::Selector>, Failure>(None), 0int)
        } else {
            match selector_of(selector) {
                Ok(s) => (Ok(Some(s)), selector.len() as int),
                Err(e) => (Err(e), selector.len() as int),
            }
        },
        check_no_filter(rest) is Ok,
{
    let text = selector + rest;
    if selector.len() == 0 {
        assert(text =~= rest);
    } else {
        assert(text[0] == selector[0]);
        assert(text[1] == selector[1]);
        lemma_selector_end_text(selector, rest, 0);
        assert(text.take(selector.len() as int) =~= selector);
    }
}

/// The text of steps in either notation is empty or starts as a step does.
pub proof fn lemma_notation_starts(steps: Seq<WrittenStep>)
    requires
        are_plain(steps),
    ensures
        steps.len() == 0 ==> dot_notation(steps).len() == 0 && bracket_notation(steps).len() == 0,
        steps.len() > 0 ==> dot_notation(steps).len() >= 2 && dot_notation(steps)[0] == '.',
        steps.len() > 0 ==> bracket_notation(steps).len() >= 2 && bracket_notation(steps)[0] == '['
            && bracket_notation(steps)[1] == '\'',
{
    if steps.len() > 0 {
        assert(is_plain_name(steps[0].name));
    }
}

/// The steps after the first are plain where all are.
pub proof fn lemma_plain_rest(steps: Seq<WrittenStep>)
    requires
        are_plain(steps),
        steps.len() > 0,
    ensures
        are_plain(steps.skip(1)),
        is_plain_name(steps[0].name),
        is_selector_text(steps[0].selector),
{
    assert forall|i: int| 0 <= i < steps.skip(1).len() implies is_plain_name(
        (#[trigger] steps.skip(1)[i]).name,
    ) && is_selector_text(steps.skip(1)[i].selector) by {
        assert(steps.skip(1)[i] == steps[i + 1]);
    }
}

/// What compiling finds after a part: the same for the steps in dot
/// notation, whose first dot is passed over, as for the steps in bracket
/// notation.
pub proof fn lemma_steps_agree(steps: Seq<WrittenStep>)
    requires
        are_plain(steps),
    ensures
        compile(dot_notation(steps).skip(past_dot(dot_notation(steps), 0))) == compile(
            bracket_notation(steps),
        ),
    decreases steps.len(),
{
    let dotted = dot_notation(steps);
    let bracketed = bracket_notation(steps);
    lemma_notation_starts(steps);
    if steps.len() == 0 {
        assert(dotted.skip(0) =~= dotted);
    } else {
        lemma_plain_rest(steps);
        let name = steps[0].name;
        let selector = steps[0].selector;
        let later = steps.skip(1);
        lemma_notation_starts(later);
        lemma_steps_agree(later);
        let dot_rest = dot_notation(later);
        let bracket_rest = bracket_notation(later);
        // the part in dot notation
        let d = dotted.skip(1);
        assert(d =~= name + (selector + dot_rest));
        lemma_part_in_dot_notation(name, selector, dot_rest);
        // the part in bracket notation
        let b = bracketed;
        assert(b =~= seq!['[', '\''] + name + seq!['\'', ']'] + (selector + bracket_rest));
        lemma_part_in_bracket_notation(name, selector, bracket_rest);
        let d_used = name.len() as int + selector.len() as int;
        let b_used = name.len() as int + 4 + selector.len() as int;
        assert(d.skip(d_used) =~= dot_rest);
        assert(b.skip(b_used) =~= bracket_rest);
        if dot_rest.len() > 0 {
            assert(d[d_used] == dot_rest[0]);
            assert(d.skip(d_used + 1) =~= dot_rest.skip(1));
        } else {
            assert(d.skip(d_used) =~= dot_rest.skip(0));
        }
        if bracket_rest.len() > 0 {
            assert(b[b_used] == bracket_rest[0]);
        }
    }
}

/// What reading a part finds whose name is `name`, written with `written`
/// characters, and whose selector is written as `selector`.
pub open spec fn part_found(name: Seq<char>, written: int, selector: Seq<char>) -> (
    Result<Option<Segment>, Failure>,
    int,
) {
    if selector.len() == 0 {
        (Ok(Some(Segment { name, selector: None })), written)
    } else {
        match selector_of(selector) {
            Ok(s) => (Ok(Some(Segment { name, selector: Some(s) })), written + selector.len()),
            Err(e) => (Err(e), written + selector.len()),
        }
    }
}

/// A part with a plain name in dot notation: what reading it finds.
pub proof fn lemma_part_in_dot_notation(name: Seq<char>, selector: Seq<char>, rest: Seq<char>)
    requires
        is_plain_name(name),
        is_selector_text(selector),
        rest.len() == 0 || (rest.len() >= 2 && rest[0] == '.'),
    ensures
        scan_part(name + (selector + rest)) == part_found(name, name.len() as int, selector),
{
    let text = name + (selector + rest);
    let n = name.len() as int;
    let m = selector.len() as int;
    assert(text[0] == name[0]);
    assert(frag_type(text) == Ok::<PartFragType, Failure>(PartFragType::DotNotationPathName));
    assert(starts_apart(selector + rest)) by {
        if selector.len() > 0 {
            assert((selector + rest)[0] == selector[0]);
        } else {
            assert(selector + rest =~= rest);
        }
    }
    lemma_dot_name_end_plain(name, selector + rest, 0);
    assert(text.take(n) =~= name);
    assert(text.skip(n) =~= selector + rest);
    lemma_scan_optional_selector(selector, rest);
    assert(text.skip(n + m) =~= rest);
}

/// A part with a plain name in bracket notation: what reading it finds.
pub proof fn lemma_part_in_bracket_notation(name: Seq<char>, selector: Seq<char>, rest: Seq<char>)
    requires
        is_plain_name(name),
        is_selector_text(selector),
        rest.len() == 0 || (rest.len() >= 2 && rest[0] == '[' && rest[1] == '\''),
    ensures
        scan_part(seq!['[', '\''] + name + seq!['\'', ']'] + (selector + rest)) == part_found(
            name,
            name.len() as int + 4,
            selector,
        ),
{
    let n = name.len() as int;
    let m = selector.len() as int;
    let after = selector + rest;
    let text = seq!['[', '\''] + name + seq!['\'', ']'] + after;
    assert(text[0] == '[');
    assert(text[1] == '\'');
    assert(frag_type(text) == Ok::<PartFragType, Failure>(PartFragType::BracketNotationPathName));
    assert(quote_end(text, 0, false, false) == quote_end(text, 2, false, true)) by {
        assert(quote_end(text, 0, false, false) == quote_end(text, 1, false, false));
        assert(quote_end(text, 1, false, false) == quote_end(text, 2, false, true));
    }
    lemma_quote_end_plain(name, after, 2);
    assert(text.subrange(2, n + 2) =~= name);
    assert(text.skip(n + 4) =~= after);
    lemma_scan_optional_selector(selector, rest);
    assert(text.skip(n + 4 + m) =~= rest);
}

/// The start of a path, `$` and a selector or none, before steps in either
/// notation: what reading it finds.
pub proof fn lemma_start_part(selector: Seq<char>, rest: Seq<char>)
    requires
        is_selector_text(selector),
        rest.len() == 0 || (rest.len() >= 2 && (rest[0] == '.' || (rest[0] == '[' && rest[1]
            == '\''))),
    ensures
        scan_part(seq!['$'] + selector + rest) == part_found(seq!['$'], 1, selector),
{
    let text = seq!['$'] + selector + rest;
    let m = selector.len() as int;
    assert(text[0] == '$');
    assert(text.skip(1) =~= selector + rest);
    lemma_scan_optional_selector(selector, rest);
    assert(text.skip(1 + m) =~= rest);
}

/// A path means the same in dot notation and in bracket notation: the
/// text `$`, a selector or none, and steps with plain names compile to the
/// same segments, or fail in the same way, whether the names are written as
/// `.name` or as `['name']`.
pub proof fn lemma_notations_agree(start_selector: Seq<char>, steps: Seq<WrittenStep>)
    requires
        is_selector_text(start_selector),
        are_plain(steps),
    ensures
        compile(seq!['$'] + start_selector + dot_notation(steps)) == compile(
            seq!['$'] + start_selector + bracket_notation(steps),
        ),
{
    let dotted = dot_notation(steps);
    let bracketed = bracket_notation(steps);
    let d = seq!['$'] + start_selector + dotted;
    let b = seq!['$'] + start_selector + bracketed;
    let used = 1 + start_selector.len() as int;
    lemma_notation_starts(steps);
    lemma_start_part(start_selector, dotted);
    lemma_start_part(start_selector, bracketed);
    lemma_steps_agree(steps);
    assert(d.skip(used) =~= dotted);
    assert(b.skip(used) =~= bracketed);
    if steps.len() > 0 {
        assert(d[used] == dotted[0]);
        assert(b[used] == bracketed[0]);
        assert(d.skip(used + 1) =~= dotted.skip(1));
    } else {
        assert(dotted.skip(0) =~= dotted);
        assert(d =~= b);
    }
}

} // verus!
