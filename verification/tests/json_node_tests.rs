use plainjson::error::JsonError;
use plainjson::json_node::{JsonNode, JsonObjProp};

fn num(text: &str) -> JsonNode {
    JsonNode::PlainNumber(String::from(text))
}

fn text(text: &str) -> JsonNode {
    JsonNode::PlainString(String::from(text))
}

/// Test JSON node parsing using a single-line JSON string.
#[test]
fn json_node_test_one_line() -> Result<(), JsonError> {
    let json = r#"{"simple": 123, "array": ["a", "b", "c\""], "object": {"prop": "{true]"}}"#;
    let json_node = JsonNode::parse_single_node(json.as_bytes())?;
    assert_eq!(
        json_node,
        JsonNode::Object(vec![
            JsonObjProp::new(String::from(r#"simple"#), num("123")),
            JsonObjProp::new(
                String::from(r#"array"#),
                JsonNode::Array(vec![text(r#"a"#), text(r#"b"#), text(r#"c\""#)]),
            ),
            JsonObjProp::new(
                String::from(r#"object"#),
                JsonNode::Object(vec![JsonObjProp::new(
                    String::from(r#"prop"#),
                    text(r#"{true]"#)
                )]),
            )
        ])
    );
    Ok(())
}

/// Test the text of a node on one line.
#[test]
fn test_node_to_string() -> Result<(), JsonError> {
    let json = r#"{"simple": 123, "array": ["a", "b", "c\""], "object": {"prop": "{true]", "test": [333]}}"#;
    let json_node = JsonNode::parse_single_node(json.as_bytes())?;

    let to_str = json_node.to_string();
    assert_eq!(json, &to_str);
    Ok(())
}

/// Test the text of a node in the indented form.
#[test]
fn test_node_to_string_alternate() -> Result<(), JsonError> {
    let json = r#"{
    "simple": 123,
    "array": [
        "a",
        "b",
        "c\""
    ],
    "object": {
        "prop": "{true]",
        "test": [
            333
        ]
    }
}"#;
    let json_node = JsonNode::parse_single_node(json.as_bytes())?;

    let to_str = json_node.to_pretty_string();
    assert_eq!(json, &to_str);
    Ok(())
}
