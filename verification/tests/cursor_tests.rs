use plainjson::error::JsonError;
use plainjson::json_tag::JsonTag;
use plainjson::peekable_codepoints::PeekableCodePoints;
use plainjson::text::{chars_of, digit, structural, white_space};

#[test]
fn peek_returns_the_next_characters_and_consumes_nothing() {
    let mut cursor = PeekableCodePoints::new("hello".as_bytes());
    assert_eq!(cursor.peek(2).unwrap(), "he");
    assert_eq!(cursor.peek(3).unwrap(), "hel");
    assert_eq!(cursor.peek(0).unwrap(), "");
    assert_eq!(cursor.peek_char(0).unwrap(), Some('h'));
}

#[test]
fn peek_is_cut_short_at_the_end_of_the_stream() {
    let mut cursor = PeekableCodePoints::new("hi".as_bytes());
    assert_eq!(cursor.peek(10).unwrap(), "hi");
    assert_eq!(cursor.peek_char(1).unwrap(), Some('i'));
    assert_eq!(cursor.peek_char(2).unwrap(), None);
    assert_eq!(cursor.peek_char(usize::MAX).unwrap(), None);
}

#[test]
fn pop_returns_and_consumes() {
    let mut cursor = PeekableCodePoints::new("hello".as_bytes());
    assert_eq!(cursor.pop(2).unwrap(), "he");
    assert_eq!(cursor.peek_char(0).unwrap(), Some('l'));
    assert_eq!(cursor.pop(10).unwrap(), "llo");
    assert_eq!(cursor.pop(1).unwrap(), "");
    assert_eq!(cursor.peek_char(0).unwrap(), None);
}

#[test]
fn pop_consumes_characters_not_bytes() {
    // three characters ahead, of two, three and one byte
    let mut cursor = PeekableCodePoints::new("é€a".as_bytes());
    assert_eq!(cursor.peek_char(2).unwrap(), Some('a'));
    assert_eq!(cursor.pop(1).unwrap(), "é");
    assert_eq!(cursor.peek_char(0).unwrap(), Some('€'));
    assert_eq!(cursor.pop(1).unwrap(), "€");
    assert_eq!(cursor.peek_char(0).unwrap(), Some('a'));
}

#[test]
fn skip_consumes_without_returning() {
    let mut cursor = PeekableCodePoints::new("abcdef".as_bytes());
    cursor.skip(2).unwrap();
    assert_eq!(cursor.peek(2).unwrap(), "cd");
    cursor.skip(0).unwrap();
    assert_eq!(cursor.peek_char(0).unwrap(), Some('c'));
    cursor.skip(100).unwrap();
    assert_eq!(cursor.peek_char(0).unwrap(), None);
}

#[test]
fn a_cursor_over_nothing_is_at_its_end() {
    let mut cursor = PeekableCodePoints::new(&[]);
    assert_eq!(cursor.peek_char(0).unwrap(), None);
    assert_eq!(cursor.peek(3).unwrap(), "");
    cursor.skip(3).unwrap();
    assert_eq!(cursor.pop(3).unwrap(), "");
}

#[test]
fn bytes_that_are_not_utf8_fail_where_they_are_reached() {
    let bytes = [b'a', b'b', 0xff, b'c'];
    let mut cursor = PeekableCodePoints::new(&bytes);
    // what stands before the bad byte can be read
    assert_eq!(cursor.peek_char(0).unwrap(), Some('a'));
    assert_eq!(cursor.peek(2).unwrap(), "ab");
    assert_eq!(cursor.pop(1).unwrap(), "a");
    // looking at the bad byte fails
    assert!(matches!(cursor.peek_char(1), Err(JsonError::Io(_))));
}

#[test]
fn a_character_cut_off_at_the_end_fails() {
    // the first two bytes of a character of three bytes
    let bytes = [b'a', 0xe2, 0x82];
    let mut cursor = PeekableCodePoints::new(&bytes);
    assert_eq!(cursor.peek_char(0).unwrap(), Some('a'));
    assert!(matches!(cursor.skip(2), Err(JsonError::Io(_))));
}

#[test]
fn the_tokenizer_fails_on_bytes_that_are_not_utf8() {
    let bytes = [b'{', b'"', 0xc3, 0x28, b'"', b'}'];
    assert!(matches!(JsonTag::parse(&bytes), Err(JsonError::Io(_))));
    let bytes = [b'[', b'1', b']', 0x80];
    assert!(matches!(JsonTag::parse(&bytes), Err(JsonError::Io(_))));
}

#[test]
fn read_json_tag_reads_one_token_at_a_time() {
    let mut cursor = PeekableCodePoints::new(" \t{ \"a b\" :12,}".as_bytes());
    let mut tags = Vec::new();
    while let Some(tag) = JsonTag::read_json_tag(&mut cursor).unwrap() {
        tags.push(tag);
    }
    assert_eq!(
        tags,
        vec![
            JsonTag::LeftCurly,
            JsonTag::Literal(String::from("\"a b\"")),
            JsonTag::Colon,
            JsonTag::Literal(String::from("12")),
            JsonTag::Comma,
            JsonTag::RightCurly,
        ]
    );
    assert_eq!(JsonTag::read_json_tag(&mut cursor).unwrap(), None);
}

#[test]
fn white_space_is_what_the_standard_library_says() {
    let mut code: u32 = 0;
    while code <= 0x10ffff {
        if let Some(c) = char::from_u32(code) {
            assert_eq!(white_space(c), c.is_whitespace(), "at {:x}", code);
        }
        code += 1;
    }
}

#[test]
fn character_classes() {
    for c in ['{', '}', '[', ']', ':', ','] {
        assert!(structural(c));
        assert!(!white_space(c));
        assert!(!digit(c));
    }
    for c in ['0', '5', '9'] {
        assert!(digit(c));
        assert!(!structural(c));
    }
    for c in ['a', '/', ':', '٣', '.'] {
        assert!(!digit(c));
    }
    assert!(white_space(' '));
    assert!(white_space('\n'));
    assert!(white_space('\u{a0}'));
    assert!(!white_space('x'));
}

#[test]
fn chars_of_gives_the_characters_in_order() {
    assert_eq!(chars_of("aé€"), vec!['a', 'é', '€']);
    assert_eq!(chars_of(""), Vec::<char>::new());
}

#[test]
fn the_text_of_a_tag() {
    assert_eq!(JsonTag::LeftCurly.text(), "{");
    assert_eq!(JsonTag::RightCurly.text(), "}");
    assert_eq!(JsonTag::LeftSquare.text(), "[");
    assert_eq!(JsonTag::RightSquare.text(), "]");
    assert_eq!(JsonTag::Colon.text(), ":");
    assert_eq!(JsonTag::Comma.text(), ",");
    assert_eq!(JsonTag::Literal(String::from("\"a\"")).text(), "\"a\"");
}

#[test]
fn tags_are_equal_where_they_are_the_same_token() {
    assert_eq!(JsonTag::Comma, JsonTag::Comma);
    assert_ne!(JsonTag::Comma, JsonTag::Colon);
    assert_eq!(
        JsonTag::Literal(String::from("a")),
        JsonTag::Literal(String::from("a"))
    );
    assert_ne!(
        JsonTag::Literal(String::from("a")),
        JsonTag::Literal(String::from("b"))
    );
    assert_ne!(JsonTag::Literal(String::from("{")), JsonTag::LeftCurly);
}

#[test]
fn what_is_well_formed_at_the_front_can_be_read() {
    // a character of four bytes
    let mut cursor = PeekableCodePoints::new("a😀b".as_bytes());
    assert_eq!(cursor.peek_char(1).unwrap(), Some('😀'));
    assert_eq!(cursor.pop(3).unwrap(), "a😀b");

    // a byte in the middle that continues nothing
    let bytes = [b'a', b'b', 0xe2, 0x28, 0xa1, b'c', b'd'];
    let mut cursor = PeekableCodePoints::new(&bytes);
    assert_eq!(cursor.peek(2).unwrap(), "ab");
    assert!(matches!(cursor.peek(3), Err(JsonError::Io(_))));

    // an encoding that is longer than it has to be
    let bytes = [b'a', 0xc0, 0x80];
    let mut cursor = PeekableCodePoints::new(&bytes);
    assert_eq!(cursor.pop(1).unwrap(), "a");
    assert!(matches!(cursor.peek_char(0), Err(JsonError::Io(_))));

    // half of a surrogate pair
    let bytes = [0xed, 0xa0, 0x80];
    let mut cursor = PeekableCodePoints::new(&bytes);
    assert!(matches!(cursor.peek_char(0), Err(JsonError::Io(_))));

    // a number beyond the last character
    let bytes = [0xf4, 0x90, 0x80, 0x80];
    let mut cursor = PeekableCodePoints::new(&bytes);
    assert!(matches!(cursor.skip(1), Err(JsonError::Io(_))));

    // the last character there is
    let bytes = [0xf4, 0x8f, 0xbf, 0xbf];
    let mut cursor = PeekableCodePoints::new(&bytes);
    assert_eq!(cursor.peek_char(0).unwrap(), Some('\u{10ffff}'));
    assert_eq!(cursor.peek_char(1).unwrap(), None);
}

#[test]
fn tokens_before_a_failure_are_read() {
    let bytes = [b'[', b'1', b',', b' ', b'2', b']', b' ', 0xff];
    let mut cursor = PeekableCodePoints::new(&bytes);
    assert_eq!(
        JsonTag::read_json_tag(&mut cursor).unwrap(),
        Some(JsonTag::LeftSquare)
    );
    assert_eq!(
        JsonTag::read_json_tag(&mut cursor).unwrap(),
        Some(JsonTag::Literal(String::from("1")))
    );
    assert_eq!(
        JsonTag::read_json_tag(&mut cursor).unwrap(),
        Some(JsonTag::Comma)
    );
    assert_eq!(
        JsonTag::read_json_tag(&mut cursor).unwrap(),
        Some(JsonTag::Literal(String::from("2")))
    );
    assert_eq!(
        JsonTag::read_json_tag(&mut cursor).unwrap(),
        Some(JsonTag::RightSquare)
    );
    // the white space is passed, then the bad byte is met
    assert!(matches!(
        JsonTag::read_json_tag(&mut cursor),
        Err(JsonError::Io(_))
    ));

    // a literal that runs into the failure is no token
    let bytes = [b'a', b'b', 0xff];
    let mut cursor = PeekableCodePoints::new(&bytes);
    assert!(matches!(
        JsonTag::read_json_tag(&mut cursor),
        Err(JsonError::Io(_))
    ));
}

/// What the cursor reads of `bytes` before it fails or ends, and whether it
/// fails.
fn read_through(bytes: &[u8]) -> (String, bool) {
    let mut cursor = PeekableCodePoints::new(bytes);
    let mut text = String::new();
    loop {
        match cursor.peek_char(0) {
            Err(_) => return (text, true),
            Ok(None) => return (text, false),
            Ok(Some(c)) => {
                text.push(c);
                cursor.skip(1).unwrap();
            }
        }
    }
}

#[test]
fn the_cursor_reads_the_well_formed_front_of_any_bytes() {
    // bytes of every kind that matters to UTF-8
    let kinds: [u8; 20] = [
        b'a', b'"', 0x7f, 0x80, 0x8f, 0x90, 0x9f, 0xa0, 0xbf, 0xc0, 0xc1, 0xc2, 0xdf, 0xe0, 0xed,
        0xef, 0xf0, 0xf4, 0xf5, 0xff,
    ];
    let mut seed: u64 = 0x2545f4914f6cdd1d;
    let mut bytes: Vec<u8> = Vec::new();
    let mut round = 0;
    while round < 20000 {
        bytes.clear();
        seed = seed
            .wrapping_mul(6364136223846793005)
            .wrapping_add(1442695040888963407);
        let len = (seed >> 60) as usize % 9;
        let mut i = 0;
        while i < len {
            seed = seed
                .wrapping_mul(6364136223846793005)
                .wrapping_add(1442695040888963407);
            bytes.push(kinds[(seed >> 33) as usize % kinds.len()]);
            i += 1;
        }
        let (front, well_formed) = match std::str::from_utf8(&bytes) {
            Ok(text) => (text, true),
            Err(e) => (
                std::str::from_utf8(&bytes[..e.valid_up_to()]).unwrap(),
                false,
            ),
        };
        let (read, failed) = read_through(&bytes);
        assert_eq!(read, front, "{:?}", bytes);
        assert_eq!(failed, !well_formed, "{:?}", bytes);
        round += 1;
    }
}
