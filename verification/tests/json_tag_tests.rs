use plainjson::error::JsonError;
use plainjson::json_tag::JsonTag;

fn lit(text: &str) -> JsonTag {
    JsonTag::Literal(String::from(text))
}

fn expected_tags() -> Vec<JsonTag> {
    vec![
        // {
        JsonTag::LeftCurly,
        // "simple": 123
        lit(r#""simple""#),
        JsonTag::Colon,
        lit(r#"123"#),
        // ,
        JsonTag::Comma,
        // "array": ["a", "b", "c\""]
        lit(r#""array""#),
        JsonTag::Colon,
        JsonTag::LeftSquare,
        lit(r#""a""#),
        JsonTag::Comma,
        lit(r#""b""#),
        JsonTag::Comma,
        lit(r#""c\"""#),
        JsonTag::RightSquare,
        // ,
        JsonTag::Comma,
        // "object": {"prop": "{true]"}
        lit(r#""object""#),
        JsonTag::Colon,
        JsonTag::LeftCurly,
        lit(r#""prop""#),
        JsonTag::Colon,
        lit(r#""{true]""#),
        JsonTag::RightCurly,
        // }
        JsonTag::RightCurly,
    ]
}

#[test]
fn json_tag_test_one_line() -> Result<(), JsonError> {
    let json = r#"{"simple": 123, "array": ["a", "b", "c\""], "object": {"prop": "{true]"}}"#;
    let json_tag_list = JsonTag::parse(json.as_bytes())?;
    assert_eq!(json_tag_list, expected_tags());
    Ok(())
}

#[test]
fn test_multi_line() -> Result<(), JsonError> {
    let json = r#"
{
    "simple": 123,
    "array": [
        "a",
        "b",
        "c\""
    ],
    "object": {
        "prop": "{true]"
    }
}"#;
    let json_tag_list = JsonTag::parse(json.as_bytes())?;
    assert_eq!(json_tag_list, expected_tags());
    Ok(())
}

#[test]
fn test_multi_line_malformed() -> Result<(), JsonError> {
    let json = r#"
{
    "simple": 123,
    "array": [
        "a",
        "b",
        "c\""
    ],
    "obj
    ect": {
        "prop": "{true]"
    }
}"#;
    let json_tag_list = JsonTag::parse(json.as_bytes())?;
    assert_eq!(
        json_tag_list,
        vec![
            // {
            JsonTag::LeftCurly,
            // "simple": 123
            lit(r#""simple""#),
            JsonTag::Colon,
            lit(r#"123"#),
            // ,
            JsonTag::Comma,
            // "array": ["a", "b", "c\""]
            lit(r#""array""#),
            JsonTag::Colon,
            JsonTag::LeftSquare,
            lit(r#""a""#),
            JsonTag::Comma,
            lit(r#""b""#),
            JsonTag::Comma,
            lit(r#""c\"""#),
            JsonTag::RightSquare,
            // ,
            JsonTag::Comma,
            // "obj
            // ect": {"prop": "{true]"}
            lit(r#""obj"#),
            lit(r#"ect""#),
            JsonTag::Colon,
            JsonTag::LeftCurly,
            lit(r#""prop""#),
            JsonTag::Colon,
            lit(r#""{true]""#),
            JsonTag::RightCurly,
            // }
            JsonTag::RightCurly,
        ]
    );
    Ok(())
}
