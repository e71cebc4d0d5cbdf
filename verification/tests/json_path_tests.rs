use plainjson::error::JsonError;
use plainjson::json_path::{ArrayElementSelector, JsonPath, JsonPathPart};

fn expected_path() -> JsonPath {
    JsonPath::new(vec![
        JsonPathPart::new("$", Some(ArrayElementSelector::Range(Some(-1), None))),
        JsonPathPart::new("store", Some(ArrayElementSelector::Range(None, Some(3)))),
        JsonPathPart::new("bicycle", Some(ArrayElementSelector::Multiple(vec![0, 13]))),
        JsonPathPart::new("color", Some(ArrayElementSelector::All)),
    ])
}

/// Test dot-notation-type JSONPath(without filter) parsing.
#[test]
fn test_no_filter_dot_notation() -> Result<(), JsonError> {
    let json_path_str = r#"$[-1:].store[:3].bicycle[0, 13].color[*]"#;
    let json_path = JsonPath::parse(json_path_str)?;
    assert_eq!(json_path, expected_path());
    Ok(())
}

/// Test bracket-notation-type JSONPath(without filter) parsing.
#[test]
fn test_no_filter_bracket_notation() -> Result<(), JsonError> {
    let json_path_str = r#"$[-1:]['store'][:3]['bicycle'][0, 13]['color'][*]"#;
    let json_path = JsonPath::parse(json_path_str)?;
    assert_eq!(json_path, expected_path());
    Ok(())
}

use plainjson::json_node::{JsonNode, JsonObjProp};

const DOCUMENT: &str = r#"{"simple": 123, "array": ["a", "b", "c\""], "object": {"prop": "{true]", "nested": [true, false, 3, "yes", "no"]}}"#;

fn number(text: &str) -> JsonNode {
    JsonNode::PlainNumber(String::from(text))
}

fn string(text: &str) -> JsonNode {
    JsonNode::PlainString(String::from(text))
}

/// Test JSONPath evaluation of array elements.
#[test]
fn test_json_path_get_array() -> Result<(), JsonError> {
    let json = r#"{"simple": 123, "array": ["a", "b", "c\""], "object": {"prop": "{true]"}}"#;
    let mut json_node = JsonNode::parse_single_node(json.as_bytes())?;

    let json_path = r#"$.array[1]"#;
    let json_path = JsonPath::parse(json_path)?;
    let selected = json_path.json_path_get_raw(&mut json_node)?;
    assert_eq!(selected, vec![&string("b")]);
    Ok(())
}

/// Test JSONPath evaluation of object property value.
#[test]
fn test_json_path_get_object() -> Result<(), JsonError> {
    let json = r#"{"simple": 123, "array": ["a", "b", "c\""], "object": {"prop": "{true]"}}"#;
    let mut json_node = JsonNode::parse_single_node(json.as_bytes())?;

    let json_path = r#"$.object.prop"#;
    let json_path = JsonPath::parse(json_path)?;
    let selected = json_path.json_path_get_raw(&mut json_node)?;
    assert_eq!(selected, vec![&string(r#"{true]"#)]);
    Ok(())
}

/// Test JSONPath evaluation, a little complex one.
#[test]
fn test_json_path_get_complex() -> Result<(), JsonError> {
    let mut json_node = JsonNode::parse_single_node(DOCUMENT.as_bytes())?;

    let json_path = r#"$.object.nested[-4:]"#;
    let json_path = JsonPath::parse(json_path)?;
    let selected = json_path.json_path_get_raw(&mut json_node)?;
    assert_eq!(
        selected,
        vec![
            &JsonNode::PlainBoolean(false),
            &number("3"),
            &string("yes"),
            &string("no"),
        ]
    );
    Ok(())
}

/// Test bracket-notation-type JSONPath evaluation.
#[test]
fn test_json_path_get_bracket_notation() -> Result<(), JsonError> {
    let mut json_node = JsonNode::parse_single_node(DOCUMENT.as_bytes())?;

    let json_path = r#"$['object']['nested'][1, 3]"#;
    let json_path = JsonPath::parse(json_path)?;
    let selected = json_path.json_path_get_raw(&mut json_node)?;
    assert_eq!(selected, vec![&JsonNode::PlainBoolean(false), &string("yes")]);
    Ok(())
}

/// Test value assignment by JSONPath, the simple one.
#[test]
fn test_json_path_set_simple() -> Result<(), JsonError> {
    let mut json_node = JsonNode::parse_single_node(DOCUMENT.as_bytes())?;

    let json_path = "$.simple";
    let json_path = JsonPath::parse(json_path)?;
    json_path.json_path_set_bool(&mut json_node, true)?;

    let selected = json_path.json_path_get_raw(&mut json_node)?;
    assert_eq!(selected, vec![&JsonNode::PlainBoolean(true)]);
    Ok(())
}

/// Test value assignment by JSONPath, the array.
#[test]
fn test_json_path_set_simple_array() -> Result<(), JsonError> {
    let mut json_node = JsonNode::parse_single_node(DOCUMENT.as_bytes())?;

    let json_path = "$.array[*]";
    let json_path = JsonPath::parse(json_path)?;
    json_path.json_path_set_str(&mut json_node, "yes")?;

    let selected = json_path.json_path_get_raw(&mut json_node)?;
    assert_eq!(selected, vec![&string("yes"), &string("yes"), &string("yes")]);
    Ok(())
}

/// Test value assignment by JSONPath, a little complex one.
#[test]
fn test_json_path_set_complex() -> Result<(), JsonError> {
    let mut json_node = JsonNode::parse_single_node(DOCUMENT.as_bytes())?;

    let json_path = "$.array";
    let json_path = JsonPath::parse(json_path)?;
    json_path.json_path_set_raw(
        &mut json_node,
        &JsonNode::Object(vec![
            JsonObjProp::new(String::from("hello"), number("1")),
            JsonObjProp::new(String::from("world"), number("2")),
            JsonObjProp::new(String::from("love"), number("3")),
        ]),
    )?;

    let selected = json_path.json_path_get_raw(&mut json_node)?;
    assert_eq!(
        selected,
        vec![&JsonNode::Object(vec![
            JsonObjProp::new(String::from("hello"), number("1")),
            JsonObjProp::new(String::from("world"), number("2")),
            JsonObjProp::new(String::from("love"), number("3")),
        ])]
    );
    Ok(())
}
