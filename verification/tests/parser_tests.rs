use plainjson::error::JsonError;
use plainjson::json_node::{JsonNode, JsonObjProp};
use plainjson::json_tag::JsonTag;

fn lit(text: &str) -> JsonTag {
    JsonTag::Literal(String::from(text))
}

fn num(text: &str) -> JsonNode {
    JsonNode::PlainNumber(String::from(text))
}

fn string(text: &str) -> JsonNode {
    JsonNode::PlainString(String::from(text))
}

fn prop(name: &str, value: JsonNode) -> JsonObjProp {
    JsonObjProp::new(String::from(name), value)
}

fn one(text: &str) -> JsonNode {
    JsonNode::parse_single_node(text.as_bytes()).unwrap()
}

#[test]
fn literals_become_plain_values() {
    assert_eq!(one("123"), num("123"));
    assert_eq!(one("1.5"), num("1.5"));
    assert_eq!(one("5."), num("5."));
    assert_eq!(one(".5"), num(".5"));
    assert_eq!(one("007"), num("007"));
    assert_eq!(one("true"), JsonNode::PlainBoolean(true));
    assert_eq!(one("True"), JsonNode::PlainBoolean(true));
    assert_eq!(one("TRUE"), JsonNode::PlainBoolean(true));
    assert_eq!(one("false"), JsonNode::PlainBoolean(false));
    assert_eq!(one("False"), JsonNode::PlainBoolean(false));
    assert_eq!(one("FALSE"), JsonNode::PlainBoolean(false));
    assert_eq!(one("null"), JsonNode::PlainNull);
    assert_eq!(one("Null"), JsonNode::PlainNull);
    assert_eq!(one("NULL"), JsonNode::PlainNull);
    assert_eq!(one("tRuE"), JsonNode::PlainBoolean(true));
    assert_eq!(one("fAlSe"), JsonNode::PlainBoolean(false));
    assert_eq!(one("nUlL"), JsonNode::PlainNull);
    assert_eq!(one(r#""hello""#), string("hello"));
    assert_eq!(one("'hello'"), string("hello"));
    assert_eq!(one(r#""""#), string(""));
    assert_eq!(one(r#""123""#), string("123"));
    assert_eq!(one(r#""true""#), string("true"));
}

#[test]
fn other_literals_are_strings_as_they_are() {
    assert_eq!(one("hello"), string("hello"));
    assert_eq!(one("-5"), string("-5"));
    assert_eq!(one("1.2.3"), string("1.2.3"));
    assert_eq!(one("1e5"), string("1e5"));
    assert_eq!(one("truee"), string("truee"));
    assert_eq!(one("tru"), string("tru"));
    assert_eq!(one("nul"), string("nul"));
    assert_eq!(one("fals"), string("fals"));
    assert_eq!(one("yes"), string("yes"));
    // quotes that are no pair stay
    assert_eq!(one(r#""abc'"#), string(r#""abc'"#));
    assert_eq!(one(r#"'abc"#), string(r#"'abc"#));
    assert_eq!(one(r#"""#), string(r#"""#));
    // only the outer pair of quotes is taken off
    assert_eq!(one(r#""'a'""#), string("'a'"));
    // escapes are kept as they are written
    assert_eq!(one(r#""c\"""#), string(r#"c\""#));
    // digits outside ascii make no number
    assert_eq!(one("١٢٣"), string("١٢٣"));
}

#[test]
fn a_number_without_a_digit_is_an_error() {
    assert!(matches!(
        JsonNode::parse(".".as_bytes()),
        Err(JsonError::NumericFormat)
    ));
    assert!(matches!(
        JsonNode::parse_tags(&[lit("")]),
        Err(JsonError::NumericFormat)
    ));
    assert!(matches!(
        JsonNode::parse("[1, ., 2]".as_bytes()),
        Err(JsonError::NumericFormat)
    ));
}

#[test]
fn arrays_and_objects_nest() {
    assert_eq!(one("[]"), JsonNode::Array(vec![]));
    assert_eq!(one("{}"), JsonNode::Object(vec![]));
    assert_eq!(
        one("[1, [2, [3]], {\"a\": []}]"),
        JsonNode::Array(vec![
            num("1"),
            JsonNode::Array(vec![num("2"), JsonNode::Array(vec![num("3")])]),
            JsonNode::Object(vec![prop("a", JsonNode::Array(vec![]))]),
        ])
    );
}

#[test]
fn the_other_kind_of_bracket_does_not_count_in_matching() {
    // the curly bracket inside is closed by nothing, and the array still ends
    assert!(matches!(
        JsonNode::parse("[ { ]".as_bytes()),
        Err(JsonError::UnmatchedBracket(t)) if t == "{"
    ));
    // a closing curly bracket alone is passed over
    assert_eq!(one("[ 1 } ]"), JsonNode::Array(vec![num("1")]));
}

#[test]
fn a_bracket_without_its_close_is_an_error() {
    assert!(matches!(
        JsonNode::parse("[1, 2".as_bytes()),
        Err(JsonError::UnmatchedBracket(t)) if t == "["
    ));
    assert!(matches!(
        JsonNode::parse("{\"a\": 1".as_bytes()),
        Err(JsonError::UnmatchedBracket(t)) if t == "{"
    ));
    assert!(matches!(
        JsonNode::parse("[[1]".as_bytes()),
        Err(JsonError::UnmatchedBracket(t)) if t == "["
    ));
    assert!(matches!(
        JsonNode::parse("{\"a\": [}".as_bytes()),
        Err(JsonError::UnmatchedBracket(t)) if t == "["
    ));
}

#[test]
fn tokens_that_start_no_value_are_passed_over() {
    assert_eq!(
        JsonNode::parse(", : ] } 1 , 2".as_bytes()).unwrap(),
        vec![num("1"), num("2")]
    );
    assert_eq!(
        one("[,, 1 : 2 ,, }, 3]"),
        JsonNode::Array(vec![num("1"), num("2"), num("3")])
    );
    // between a name and its value too
    assert_eq!(
        one("{\"a\" :: , 1}"),
        JsonNode::Object(vec![prop("a", num("1"))])
    );
    // a name needs no colon
    assert_eq!(
        one("{\"a\" 1}"),
        JsonNode::Object(vec![prop("a", num("1"))])
    );
}

#[test]
fn names_lose_their_quotes_like_strings() {
    assert_eq!(
        one("{'a': 1, b: 2, \"c\": 3, 5: 6}"),
        JsonNode::Object(vec![
            prop("a", num("1")),
            prop("b", num("2")),
            prop("c", num("3")),
            prop("5", num("6")),
        ])
    );
    // a name of one quote character, or with quotes that are no pair, stays as it is
    let tags = vec![
        JsonTag::LeftCurly,
        lit("\""),
        JsonTag::Colon,
        lit("1"),
        JsonTag::Comma,
        lit("'d\""),
        JsonTag::Colon,
        lit("2"),
        JsonTag::RightCurly,
    ];
    assert_eq!(
        JsonNode::parse_tags(&tags).unwrap(),
        vec![JsonNode::Object(vec![
            prop("\"", num("1")),
            prop("'d\"", num("2"))
        ])]
    );
}

#[test]
fn a_malformed_object_is_an_error() {
    // a name that is no literal
    assert!(matches!(
        JsonNode::parse("{[1]: 2}".as_bytes()),
        Err(JsonError::MalformedObject)
    ));
    assert!(matches!(
        JsonNode::parse("{,\"a\": 1}".as_bytes()),
        Err(JsonError::MalformedObject)
    ));
    assert!(matches!(
        JsonNode::parse("{\"a\": 1,, \"b\": 2}".as_bytes()),
        Err(JsonError::MalformedObject)
    ));
    // a name that no value follows
    assert!(matches!(
        JsonNode::parse("{\"a\"}".as_bytes()),
        Err(JsonError::MalformedObject)
    ));
    assert!(matches!(
        JsonNode::parse("{\"a\":}".as_bytes()),
        Err(JsonError::MalformedObject)
    ));
    assert!(matches!(
        JsonNode::parse("{\"a\": 1, \"b\"}".as_bytes()),
        Err(JsonError::MalformedObject)
    ));
}

#[test]
fn a_name_may_occur_twice() {
    let mut node = one("{\"a\": 1, \"a\": 2}");
    assert_eq!(
        node,
        JsonNode::Object(vec![prop("a", num("1")), prop("a", num("2"))])
    );
    // a path finds the first
    assert_eq!(node.get_number("$.a").unwrap(), Some(String::from("1")));
}

#[test]
fn a_document_may_hold_several_values() {
    assert_eq!(
        JsonNode::parse("1 \"a\" [2] {}".as_bytes()).unwrap(),
        vec![
            num("1"),
            string("a"),
            JsonNode::Array(vec![num("2")]),
            JsonNode::Object(vec![]),
        ]
    );
    assert_eq!(JsonNode::parse("".as_bytes()).unwrap(), vec![]);
}

#[test]
fn a_single_node_must_be_the_only_one() {
    assert!(matches!(
        JsonNode::parse_single_node("".as_bytes()),
        Err(JsonError::NotSingleNode)
    ));
    assert!(matches!(
        JsonNode::parse_single_node("1 2".as_bytes()),
        Err(JsonError::NotSingleNode)
    ));
    assert!(matches!(
        JsonNode::parse_single_node("[1] [2]".as_bytes()),
        Err(JsonError::NotSingleNode)
    ));
    assert!(matches!(
        JsonNode::parse_single_node(&[b'1', 0xff]),
        Err(JsonError::Io(_))
    ));
}

#[test]
fn parse_tags_builds_from_tokens() {
    let tags = vec![
        JsonTag::LeftSquare,
        lit("1"),
        JsonTag::Comma,
        lit("\"a\""),
        JsonTag::RightSquare,
        lit("null"),
    ];
    assert_eq!(
        JsonNode::parse_tags(&tags).unwrap(),
        vec![
            JsonNode::Array(vec![num("1"), string("a")]),
            JsonNode::PlainNull
        ]
    );
}

#[test]
fn a_copy_is_equal() {
    let node = one("{\"a\": [1, \"b\", true, null, {\"c\": 2.5}]}");
    assert_eq!(node.clone(), node);
    let property = prop("x", node.clone());
    assert_eq!(property.clone(), property);
}
