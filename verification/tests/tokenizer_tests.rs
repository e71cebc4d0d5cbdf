use plainjson::json_tag::JsonTag;

fn lit(text: &str) -> JsonTag {
    JsonTag::Literal(String::from(text))
}

fn tags(text: &str) -> Vec<JsonTag> {
    JsonTag::parse(text.as_bytes()).unwrap()
}

#[test]
fn nothing_but_white_space_has_no_tokens() {
    assert_eq!(tags(""), vec![]);
    assert_eq!(tags(" \t\r\n\u{3000}"), vec![]);
}

#[test]
fn structural_characters_are_tokens_of_their_own() {
    assert_eq!(
        tags("{}[]:,"),
        vec![
            JsonTag::LeftCurly,
            JsonTag::RightCurly,
            JsonTag::LeftSquare,
            JsonTag::RightSquare,
            JsonTag::Colon,
            JsonTag::Comma,
        ]
    );
}

#[test]
fn a_literal_ends_at_white_space_or_a_structural_character() {
    assert_eq!(tags("abc def"), vec![lit("abc"), lit("def")]);
    assert_eq!(
        tags("abc,def"),
        vec![lit("abc"), JsonTag::Comma, lit("def")]
    );
    assert_eq!(tags("12\u{a0}34"), vec![lit("12"), lit("34")]);
}

#[test]
fn quotes_keep_white_space_and_structural_characters() {
    assert_eq!(tags(r#""a b,c:{}[]""#), vec![lit(r#""a b,c:{}[]""#)]);
    assert_eq!(tags("'a b' x"), vec![lit("'a b'"), lit("x")]);
    // the other kind of quote does not close
    assert_eq!(tags(r#""it's here" x"#), vec![lit(r#""it's here""#), lit("x")]);
    // a quote may open inside a literal
    assert_eq!(tags(r#"ab"c d"e f"#), vec![lit(r#"ab"c d"e"#), lit("f")]);
}

#[test]
fn a_backslash_escapes_the_next_character() {
    // an escaped quote does not close
    assert_eq!(tags(r#""a\"b" c"#), vec![lit(r#""a\"b""#), lit("c")]);
    // an escaped structural character does not end a literal
    assert_eq!(tags(r#"a\,b,c"#), vec![lit(r#"a\,b"#), JsonTag::Comma, lit("c")]);
    // white space ends a literal even after a backslash
    assert_eq!(tags("a\\ b"), vec![lit("a\\"), lit("b")]);
    // the escape lasts through a run of backslashes
    assert_eq!(tags(r#""a\\" b"#), vec![lit(r#""a\\" b"#)]);
}

#[test]
fn a_quote_that_is_not_closed_reaches_to_the_end() {
    assert_eq!(tags(r#""abc, def"#), vec![lit(r#""abc, def"#)]);
}

#[test]
fn a_line_break_inside_a_quote_gives_the_quote_up() {
    // the literal after the break is read afresh: its quote opens anew
    assert_eq!(
        tags("\"obj\n    ect\": 1"),
        vec![lit("\"obj"), lit("ect\": 1")]
    );
    assert_eq!(
        tags("\"obj\n    ect\": {\n\"a\": 1}"),
        vec![
            lit("\"obj"),
            lit("ect\""),
            JsonTag::Colon,
            JsonTag::LeftCurly,
            lit("\"a\""),
            JsonTag::Colon,
            lit("1"),
            JsonTag::RightCurly,
        ]
    );
    // after the quote is given up, white space ends the literal before the break
    assert_eq!(
        tags("\"a b\nc\""),
        vec![lit("\"a"), lit("b"), lit("c\"")]
    );
    // and so does a structural character
    assert_eq!(
        tags("'a,b\rc"),
        vec![lit("'a"), JsonTag::Comma, lit("b"), lit("c")]
    );
}

#[test]
fn characters_outside_ascii_are_part_of_literals() {
    assert_eq!(
        tags("{\"é\":\"€\"}"),
        vec![
            JsonTag::LeftCurly,
            lit("\"é\""),
            JsonTag::Colon,
            lit("\"€\""),
            JsonTag::RightCurly,
        ]
    );
}
