use plainjson::error::JsonError;
use plainjson::json_node::{JsonNode, JsonObjProp};
use plainjson::json_path::{ArrayElementSelector, JsonPath, JsonPathPart};

const DOCUMENT: &str = r#"{"simple": 123, "array": ["a", "b", "c\""], "object": {"prop": "{true]", "nested": [true, false, 3, "yes", "no"]}}"#;

fn num(text: &str) -> JsonNode {
    JsonNode::PlainNumber(String::from(text))
}

fn string(text: &str) -> JsonNode {
    JsonNode::PlainString(String::from(text))
}

fn one(text: &str) -> JsonNode {
    JsonNode::parse_single_node(text.as_bytes()).unwrap()
}

fn letters() -> JsonNode {
    one(r#"["a", "b", "c", "d"]"#)
}

fn select(node: &mut JsonNode, selector: ArrayElementSelector) -> Result<Vec<JsonNode>, JsonError> {
    let path = JsonPath::new(vec![JsonPathPart::new("$", Some(selector))]);
    let found = path.json_path_get_raw(node)?;
    Ok(found.into_iter().map(|n| n.clone()).collect())
}

#[test]
fn listed_indexes_select_in_the_order_of_the_array() {
    let mut node = letters();
    assert_eq!(
        select(&mut node, ArrayElementSelector::Multiple(vec![3, 0, 1])).unwrap(),
        vec![string("a"), string("b"), string("d")]
    );
    // an index that is listed twice selects once, one that is out of bounds not at all
    assert_eq!(
        select(&mut node, ArrayElementSelector::Multiple(vec![2, 2, 9])).unwrap(),
        vec![string("c")]
    );
    assert_eq!(
        select(&mut node, ArrayElementSelector::Multiple(vec![])).unwrap(),
        vec![]
    );
}

#[test]
fn a_negative_start_counts_from_the_end() {
    let mut node = one(r#"[true, false, 3, "yes", "no"]"#);
    assert_eq!(
        select(&mut node, ArrayElementSelector::Range(Some(-4), None)).unwrap(),
        vec![
            JsonNode::PlainBoolean(false),
            num("3"),
            string("yes"),
            string("no")
        ]
    );
    assert_eq!(
        select(&mut node, ArrayElementSelector::Range(Some(-1), None)).unwrap(),
        vec![string("no")]
    );
    // further back than the array is long: all of it
    assert_eq!(
        select(&mut node, ArrayElementSelector::Range(Some(-9), None))
            .unwrap()
            .len(),
        5
    );
    assert_eq!(
        select(&mut node, ArrayElementSelector::Range(Some(i32::MIN), None))
            .unwrap()
            .len(),
        5
    );
}

#[test]
fn ranges() {
    let mut node = letters();
    assert_eq!(
        select(&mut node, ArrayElementSelector::Range(None, None)).unwrap(),
        vec![string("a"), string("b"), string("c"), string("d")]
    );
    assert_eq!(
        select(&mut node, ArrayElementSelector::All).unwrap(),
        vec![string("a"), string("b"), string("c"), string("d")]
    );
    assert_eq!(
        select(&mut node, ArrayElementSelector::Range(None, Some(2))).unwrap(),
        vec![string("a"), string("b")]
    );
    assert_eq!(
        select(&mut node, ArrayElementSelector::Range(None, Some(0))).unwrap(),
        vec![]
    );
    assert_eq!(
        select(&mut node, ArrayElementSelector::Range(Some(1), None)).unwrap(),
        vec![string("b"), string("c"), string("d")]
    );
    assert_eq!(
        select(&mut node, ArrayElementSelector::Range(Some(1), Some(3))).unwrap(),
        vec![string("b"), string("c")]
    );
    // an end beyond the array is cut, a start beyond it selects nothing
    assert_eq!(
        select(&mut node, ArrayElementSelector::Range(Some(2), Some(99))).unwrap(),
        vec![string("c"), string("d")]
    );
    assert_eq!(
        select(&mut node, ArrayElementSelector::Range(Some(4), None)).unwrap(),
        vec![]
    );
    assert_eq!(
        select(&mut node, ArrayElementSelector::Range(Some(3), Some(1))).unwrap(),
        vec![]
    );
    assert_eq!(
        select(&mut node, ArrayElementSelector::Range(Some(0), Some(i32::MAX))).unwrap().len(),
        4
    );
}

#[test]
fn a_single_index() {
    let mut node = letters();
    assert_eq!(
        select(&mut node, ArrayElementSelector::Single(2)).unwrap(),
        vec![string("c")]
    );
    assert_eq!(
        select(&mut node, ArrayElementSelector::Single(4)).unwrap(),
        vec![]
    );
    assert_eq!(
        select(&mut node, ArrayElementSelector::Single(usize::MAX)).unwrap(),
        vec![]
    );
}

#[test]
fn signs_that_a_range_does_not_allow() {
    let mut node = letters();
    for (start, end) in [
        (Some(-1), Some(2)),
        (Some(-1), Some(-1)),
        (Some(1), Some(-1)),
        (None, Some(-1)),
    ] {
        assert!(matches!(
            select(&mut node, ArrayElementSelector::Range(start, end)),
            Err(JsonError::SelectorRange(name)) if name == "$"
        ));
    }
    let mut document = one(DOCUMENT);
    assert!(matches!(
        document.get_raw("$.array[-1:2]"),
        Err(JsonError::SelectorRange(name)) if name == "array"
    ));
    // where the selector meets no array, its signs do not matter
    assert_eq!(document.get_raw("$.missing[-1:2]").unwrap(), None);
}

#[test]
fn a_selector_on_what_is_no_array_is_an_error() {
    let mut document = one(DOCUMENT);
    assert!(matches!(
        document.get_raw("$.simple[0]"),
        Err(JsonError::SelectorType(name)) if name == "simple"
    ));
    assert!(matches!(
        document.get_raw("$.object[*]"),
        Err(JsonError::SelectorType(name)) if name == "object"
    ));
    assert!(matches!(
        document.get_raw("$[0]"),
        Err(JsonError::SelectorType(name)) if name == "$"
    ));
    // the first node that the selector meets decides
    let mut mixed = one(r#"{"a": [{"b": [1]}, {"b": 2}, {"b": [3]}]}"#);
    assert!(matches!(
        mixed.get_raw("$.a[*].b[0]"),
        Err(JsonError::SelectorType(name)) if name == "b"
    ));
    assert!(matches!(
        mixed.get_raw("$.a[*].b[-1:0]"),
        Err(JsonError::SelectorRange(name)) if name == "b"
    ));
    assert!(matches!(
        mixed.get_raw("$.a[1:].b[-1:0]"),
        Err(JsonError::SelectorType(name)) if name == "b"
    ));
}

#[test]
fn a_name_that_is_not_there_selects_nothing() {
    let mut document = one(DOCUMENT);
    assert_eq!(document.get_raw("$.missing").unwrap(), None);
    assert_eq!(document.get_raw("$.simple.deeper").unwrap(), None);
    assert_eq!(document.get_raw("$.array.name").unwrap(), None);
    assert_eq!(document.get_str("$.object.nested[9]").unwrap(), None);
    assert_eq!(document.get_bool("$.missing.a.b[1]").unwrap(), None);
    assert_eq!(document.get_number("$.array[7:]").unwrap(), None);
}

#[test]
fn the_start_names_select_the_node_itself() {
    let mut document = one(DOCUMENT);
    let whole = document.clone();
    assert_eq!(document.get_raw("$").unwrap(), Some(&whole));
    assert_eq!(document.get_raw("@").unwrap(), Some(&whole));
    assert_eq!(document.get_raw("").unwrap(), Some(&whole));
    assert_eq!(document.get_raw("$.object.$.prop").unwrap(), Some(&string("{true]")));
}

#[test]
fn a_selector_fans_out() {
    let mut node = one(r#"{"rows": [{"id": 1, "tags": ["x", "y"]}, {"id": 2, "tags": ["z"]}, {"name": "n"}]}"#);
    let path = JsonPath::parse("$.rows[*].id").unwrap();
    assert_eq!(
        path.json_path_get_number(&mut node).unwrap(),
        vec![String::from("1"), String::from("2")]
    );
    let path = JsonPath::parse("$.rows[*].tags[*]").unwrap();
    assert_eq!(
        path.json_path_get_str(&mut node).unwrap(),
        vec![String::from("x"), String::from("y"), String::from("z")]
    );
    let path = JsonPath::parse("$.rows[0,1].tags[0]").unwrap();
    assert_eq!(
        path.json_path_get_str(&mut node).unwrap(),
        vec![String::from("x"), String::from("z")]
    );
}

#[test]
fn typed_reads() {
    let mut document = one(DOCUMENT);
    assert_eq!(
        document.get_number("$.simple").unwrap(),
        Some(String::from("123"))
    );
    assert_eq!(document.get_bool("$.object.nested[1]").unwrap(), Some(false));
    assert_eq!(document.get_bool("$.object.nested[0]").unwrap(), Some(true));
    assert_eq!(
        document.get_str("$.array[2]").unwrap(),
        Some(String::from(r#"c\""#))
    );
    assert_eq!(
        document.get_raw("$.object.nested[2]").unwrap(),
        Some(&num("3"))
    );
    let path = JsonPath::parse("$.object.nested[:2]").unwrap();
    assert_eq!(
        path.json_path_get_bool(&mut document).unwrap(),
        vec![true, false]
    );
}

#[test]
fn a_typed_read_of_another_kind_is_an_error() {
    let mut document = one(DOCUMENT);
    assert!(matches!(
        document.get_number("$.array[0]"),
        Err(JsonError::TypeMismatch)
    ));
    assert!(matches!(
        document.get_bool("$.simple"),
        Err(JsonError::TypeMismatch)
    ));
    assert!(matches!(
        document.get_str("$.object"),
        Err(JsonError::TypeMismatch)
    ));
    // one node of another kind among those selected is enough
    assert!(matches!(
        document.get_bool("$.object.nested[*]"),
        Err(JsonError::TypeMismatch)
    ));
    assert!(matches!(
        document.get_bool("$.object.nested[0,2]"),
        Err(JsonError::TypeMismatch)
    ));
    // a path that does not compile fails before anything is read
    assert!(matches!(
        document.get_bool("$.simple["),
        Err(JsonError::UnmatchedBracket(_))
    ));
}

#[test]
fn a_write_fans_out() {
    let mut node = one(r#"{"array": [1, 2, 3]}"#);
    node.set_str("$.array[*]", "x").unwrap();
    assert_eq!(node, one(r#"{"array": ["x", "x", "x"]}"#));
    node.set_null("$.array[1:]").unwrap();
    assert_eq!(node, one(r#"{"array": ["x", null, null]}"#));
    node.set_number("$.array[0, 2]", "7.5").unwrap();
    assert_eq!(node, one(r#"{"array": [7.5, null, 7.5]}"#));
    node.set_bool("$.array[1]", true).unwrap();
    assert_eq!(node, one(r#"{"array": [7.5, true, 7.5]}"#));
    node.set_raw("$.array[-1:]", &one("[[]]")).unwrap();
    assert_eq!(node, one(r#"{"array": [7.5, true, [[]]]}"#));
    node.set_raw("$", &JsonNode::PlainNull).unwrap();
    assert_eq!(node, JsonNode::PlainNull);
}

#[test]
fn a_write_to_nothing_writes_nothing() {
    let mut document = one(DOCUMENT);
    let before = document.clone();
    document.set_bool("$.missing", true).unwrap();
    document.set_null("$.array[5]").unwrap();
    document.set_str("$.object.nested[9:]", "x").unwrap();
    assert_eq!(document, before);
}

#[test]
fn a_write_that_fails_writes_nothing() {
    let mut document = one(DOCUMENT);
    let before = document.clone();
    assert!(matches!(
        document.set_bool("$.simple[0]", true),
        Err(JsonError::SelectorType(_))
    ));
    assert!(matches!(
        document.set_null("$.array[-1:1]"),
        Err(JsonError::SelectorRange(_))
    ));
    assert!(matches!(
        document.set_str("$.array[1", "x"),
        Err(JsonError::UnmatchedBracket(_))
    ));
    assert!(matches!(
        document.set_number("$.array[1,]", "1"),
        Err(JsonError::NumericFormat)
    ));
    assert!(matches!(
        document.set_raw("$.array[?(@)]", &JsonNode::PlainNull),
        Err(JsonError::PathSyntax(_))
    ));
    assert_eq!(document, before);
}

#[test]
fn what_was_written_is_read_back() {
    let mut document = one(DOCUMENT);
    document.set_number("$.object.nested[2]", "42").unwrap();
    assert_eq!(
        document.get_number("$.object.nested[2]").unwrap(),
        Some(String::from("42"))
    );
    document.set_str("$.object.prop", "new").unwrap();
    assert_eq!(
        document.get_str("$.object.prop").unwrap(),
        Some(String::from("new"))
    );
    document.set_bool("$.array[0]", false).unwrap();
    assert_eq!(document.get_bool("$.array[0]").unwrap(), Some(false));
    let subtree = one(r#"{"k": [1, 2]}"#);
    document.set_raw("$.simple", &subtree).unwrap();
    assert_eq!(document.get_raw("$.simple").unwrap(), Some(&subtree));
    document.set_null("$.array[*]").unwrap();
    let path = JsonPath::parse("$.array[*]").unwrap();
    assert_eq!(
        path.json_path_get_raw(&mut document).unwrap(),
        vec![
            &JsonNode::PlainNull,
            &JsonNode::PlainNull,
            &JsonNode::PlainNull
        ]
    );
}

#[test]
fn the_text_of_a_document_is_read_back_as_the_document() {
    let document = JsonNode::Object(vec![
        JsonObjProp::new(String::from("n"), num("12.5")),
        JsonObjProp::new(String::from("s"), string(r#"a \"quoted\" word, [x] {y}: z"#)),
        JsonObjProp::new(String::from("t"), JsonNode::PlainBoolean(true)),
        JsonObjProp::new(String::from("f"), JsonNode::PlainBoolean(false)),
        JsonObjProp::new(String::from("z"), JsonNode::PlainNull),
        JsonObjProp::new(String::from("empty"), string("")),
        JsonObjProp::new(String::from("e"), JsonNode::Array(vec![])),
        JsonObjProp::new(String::from("o"), JsonNode::Object(vec![])),
        JsonObjProp::new(
            String::from("a b"),
            JsonNode::Array(vec![
                num("1"),
                JsonNode::Array(vec![string("true"), JsonNode::Array(vec![num(".5")])]),
                JsonNode::Object(vec![JsonObjProp::new(
                    String::from("a b"),
                    JsonNode::Array(vec![JsonNode::Object(vec![])]),
                )]),
            ]),
        ),
    ]);
    let compact = document.to_string();
    assert_eq!(
        JsonNode::parse_single_node(compact.as_bytes()).unwrap(),
        document
    );
    let pretty = document.to_pretty_string();
    assert_eq!(
        JsonNode::parse_single_node(pretty.as_bytes()).unwrap(),
        document
    );
    for scalar in [num("0"), string("x y"), JsonNode::PlainNull, JsonNode::PlainBoolean(false)] {
        assert_eq!(
            JsonNode::parse_single_node(scalar.to_string().as_bytes()).unwrap(),
            scalar
        );
        assert_eq!(
            JsonNode::parse_single_node(scalar.to_pretty_string().as_bytes()).unwrap(),
            scalar
        );
    }
}

#[test]
fn the_text_of_a_document() {
    let document = one(r#"{"a": [1, {"b": null}, []], "c": {}}"#);
    assert_eq!(
        document.to_string(),
        r#"{"a": [1, {"b": null}, []], "c": {}}"#
    );
    assert_eq!(
        document.to_pretty_string(),
        "{\n    \"a\": [\n        1,\n{\n            \"b\": null\n        },\n[\n\n        ]\n    ],\n    \"c\": {\n\n    }\n}"
    );
    assert_eq!(num("1.50").to_string(), "1.50");
    assert_eq!(string("a").to_pretty_string(), "\"a\"");
    assert_eq!(JsonNode::Array(vec![]).to_string(), "[]");
    assert_eq!(JsonNode::Array(vec![]).to_pretty_string(), "[\n\n]");
}
