use plainjson::error::JsonError;
use plainjson::json_path::{ArrayElementSelector, JsonPath, JsonPathPart};

fn part(name: &str, selector: Option<ArrayElementSelector>) -> JsonPathPart {
    JsonPathPart::new(name, selector)
}

fn path(text: &str) -> JsonPath {
    JsonPath::parse(text).unwrap()
}

fn parts(list: Vec<JsonPathPart>) -> JsonPath {
    JsonPath::new(list)
}

#[test]
fn an_empty_text_is_an_empty_path() {
    assert_eq!(path(""), parts(vec![]));
}

#[test]
fn names_in_dot_notation() {
    assert_eq!(path("$"), parts(vec![part("$", None)]));
    assert_eq!(path("@"), parts(vec![part("@", None)]));
    assert_eq!(
        path("$.a.b"),
        parts(vec![part("$", None), part("a", None), part("b", None)])
    );
    assert_eq!(path("a.b"), parts(vec![part("a", None), part("b", None)]));
    // a dot at the end is consumed
    assert_eq!(path("$.a."), parts(vec![part("$", None), part("a", None)]));
    // a dot before a bracket is optional
    assert_eq!(path("$.a['b']"), path("$.a.['b']"));
}

#[test]
fn a_backslash_escapes_in_a_name() {
    // the backslash stays in the name
    assert_eq!(
        path(r#"$.a\.b.c"#),
        parts(vec![part("$", None), part(r#"a\.b"#, None), part("c", None)])
    );
    assert_eq!(
        path(r#"$.a\[0][1]"#),
        parts(vec![
            part("$", None),
            part(r#"a\[0]"#, Some(ArrayElementSelector::Single(1)))
        ])
    );
    assert_eq!(
        path(r#"$['a\'b']"#),
        parts(vec![part("$", None), part(r#"a\'b"#, None)])
    );
}

#[test]
fn names_in_bracket_notation() {
    assert_eq!(
        path("$['a']['b c']"),
        parts(vec![part("$", None), part("a", None), part("b c", None)])
    );
    assert_eq!(
        path("$['a.b']['c[0]']"),
        parts(vec![part("$", None), part("a.b", None), part("c[0]", None)])
    );
    assert_eq!(path("['']"), parts(vec![part("", None)]));
    // a part in dot notation may follow without a dot
    assert_eq!(
        path("['a']b"),
        parts(vec![part("a", None), part("b", None)])
    );
}

#[test]
fn selectors() {
    assert_eq!(
        path("$[*]"),
        parts(vec![part("$", Some(ArrayElementSelector::All))])
    );
    assert_eq!(
        path("$[* ]"),
        parts(vec![part("$", Some(ArrayElementSelector::All))])
    );
    assert_eq!(
        path("$[7]"),
        parts(vec![part("$", Some(ArrayElementSelector::Single(7)))])
    );
    assert_eq!(
        path("$[0 7 ]"),
        parts(vec![part("$", Some(ArrayElementSelector::Single(7)))])
    );
    assert_eq!(
        path("$[1,2, 3]"),
        parts(vec![part(
            "$",
            Some(ArrayElementSelector::Multiple(vec![1, 2, 3]))
        )])
    );
    assert_eq!(
        path("$[3,0,1]"),
        parts(vec![part(
            "$",
            Some(ArrayElementSelector::Multiple(vec![3, 0, 1]))
        )])
    );
    assert_eq!(
        path("$[:]"),
        parts(vec![part("$", Some(ArrayElementSelector::Range(None, None)))])
    );
    assert_eq!(
        path("$[1:]"),
        parts(vec![part(
            "$",
            Some(ArrayElementSelector::Range(Some(1), None))
        )])
    );
    assert_eq!(
        path("$[:2]"),
        parts(vec![part(
            "$",
            Some(ArrayElementSelector::Range(None, Some(2)))
        )])
    );
    assert_eq!(
        path("$[-1: 2]"),
        parts(vec![part(
            "$",
            Some(ArrayElementSelector::Range(Some(-1), Some(2)))
        )])
    );
    assert_eq!(
        path("$[1:-2]"),
        parts(vec![part(
            "$",
            Some(ArrayElementSelector::Range(Some(1), Some(-2)))
        )])
    );
    assert_eq!(
        path("$[-2147483648:2147483647]"),
        parts(vec![part(
            "$",
            Some(ArrayElementSelector::Range(
                Some(-2147483648),
                Some(2147483647)
            ))
        )])
    );
    assert_eq!(
        path("$[18446744073709551615]").parts.len(),
        if usize::MAX as u128 == 18446744073709551615 {
            1
        } else {
            0
        }
    );
}

#[test]
fn a_part_has_one_selector_at_most() {
    assert!(matches!(
        JsonPath::parse("$[0][1]"),
        Err(JsonError::PathSyntax(t)) if t == "[1"
    ));
    assert!(matches!(
        JsonPath::parse("[0]"),
        Err(JsonError::PathSyntax(t)) if t == "[0"
    ));
}

#[test]
fn numbers_that_are_not_written_as_required() {
    for text in [
        "$[1,]",
        "$[1,,2]",
        "$[*,1]",
        "$[**]",
        "$[-1]",
        "$[1-]",
        "$[1,-2]",
        "$[-]",
        "$[:-]",
        "$[1:2:3]",
        "$[--1:]",
        "$[99999999999999999999999999]",
        "$[2147483648:]",
        "$[-2147483649:]",
        "$[:99999999999]",
    ] {
        assert!(
            matches!(JsonPath::parse(text), Err(JsonError::NumericFormat)),
            "{}",
            text
        );
    }
}

#[test]
fn fragments_that_are_no_part_of_a_path() {
    assert!(matches!(
        JsonPath::parse("$[x]"),
        Err(JsonError::PathSyntax(t)) if t == "[x"
    ));
    assert!(matches!(
        JsonPath::parse("$[]"),
        Err(JsonError::PathSyntax(t)) if t == "[]"
    ));
    assert!(matches!(
        JsonPath::parse("$[,1]"),
        Err(JsonError::PathSyntax(t)) if t == "[,"
    ));
    assert!(matches!(
        JsonPath::parse("$[ 1]"),
        Err(JsonError::PathSyntax(t)) if t == "[ "
    ));
    assert!(matches!(
        JsonPath::parse("$[1x]"),
        Err(JsonError::PathSyntax(t)) if t == "[1x"
    ));
    assert!(matches!(
        JsonPath::parse("$[1[2]]"),
        Err(JsonError::PathSyntax(t)) if t == "[1["
    ));
    assert!(matches!(
        JsonPath::parse("$['a'x]"),
        Err(JsonError::PathSyntax(t)) if t == "['a'x"
    ));
    // an empty name
    assert!(matches!(
        JsonPath::parse("$..a"),
        Err(JsonError::PathSyntax(t)) if t == "."
    ));
    assert!(matches!(
        JsonPath::parse(".a"),
        Err(JsonError::PathSyntax(t)) if t == "."
    ));
}

#[test]
fn brackets_and_quotes_that_are_not_closed() {
    assert!(matches!(
        JsonPath::parse("$["),
        Err(JsonError::UnmatchedBracket(t)) if t == "["
    ));
    assert!(matches!(
        JsonPath::parse("$[1, 2"),
        Err(JsonError::UnmatchedBracket(t)) if t == "[1, 2"
    ));
    assert!(matches!(
        JsonPath::parse("$['abc"),
        Err(JsonError::UnmatchedBracket(t)) if t == "['abc"
    ));
    assert!(matches!(
        JsonPath::parse("$['abc'"),
        Err(JsonError::UnmatchedBracket(t)) if t == "['abc'"
    ));
    assert!(matches!(
        JsonPath::parse(r#"$['abc\']"#),
        Err(JsonError::UnmatchedBracket(t)) if t == r#"['abc\']"#
    ));
}

#[test]
fn filters_are_rejected() {
    assert!(matches!(
        JsonPath::parse("$.book[?(@.price < 10)]"),
        Err(JsonError::PathSyntax(t)) if t == "[?"
    ));
    assert!(matches!(
        JsonPath::parse("$[0][?(@.a)]"),
        Err(JsonError::PathSyntax(t)) if t == "[?"
    ));
    assert!(matches!(
        JsonPath::parse("[?(@.a)]"),
        Err(JsonError::PathSyntax(t)) if t == "[?"
    ));
}

#[test]
fn the_two_notations_compile_to_the_same_path() {
    assert_eq!(path("$.store[:3]"), path("$['store'][:3]"));
    assert_eq!(
        path("$[1].a[*].b c.d[0, 2]"),
        path("$[1]['a'][*]['b c']['d'][0, 2]")
    );
    assert_eq!(path("$.a.b.c"), path("$['a']['b']['c']"));
    // and fail alike
    assert!(matches!(
        JsonPath::parse("$.a[1,].b"),
        Err(JsonError::NumericFormat)
    ));
    assert!(matches!(
        JsonPath::parse("$['a'][1,]['b']"),
        Err(JsonError::NumericFormat)
    ));
}
