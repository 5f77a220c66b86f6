use json_tree::{ErrorKind, Node, ParseError, Parser};

const VALUES: [&str; 12] = [
    "1",
    "007",
    "2.5",
    "2147483648",
    r#""s""#,
    r#""with space""#,
    "null",
    "true",
    "false",
    "{}",
    "[1, 2,]",
    r#"{"a": [null,],}"#,
];

const KEYS: [&str; 4] = ["", "k", "two words", "\\"];

fn read(text: &str) -> Result<Node, ParseError> {
    Parser::new(text.chars()).parse()
}

fn shown(text: &str) -> String {
    format!("{:?}", read(text).unwrap())
}

fn length(text: &str) -> usize {
    text.chars().count()
}

#[test]
fn element_with_its_comma_is_read() {
    for value in VALUES {
        match read(&format!("[{},]", value)).unwrap() {
            Node::Array(elements) => {
                assert_eq!(elements.len(), 1);
                assert_eq!(format!("{:?}", elements[0]), shown(value));
            },
            other => panic!("expected an array, got {:?}", other),
        }
    }
}

#[test]
fn element_without_its_comma_fails() {
    for value in VALUES {
        let error = read(&format!("[{}]", value)).unwrap_err();
        assert_eq!(
            error,
            ParseError { kind: ErrorKind::ExpectedComma, position: length(value) + 1 }
        );
    }
}

#[test]
fn member_with_its_comma_is_read() {
    for key in KEYS {
        for value in VALUES {
            match read(&format!("{{\"{}\":{},}}", key, value)).unwrap() {
                Node::Object(members) => {
                    assert_eq!(members.len(), 1);
                    let found = members.get(key).unwrap();
                    assert_eq!(format!("{:?}", found), shown(value));
                },
                other => panic!("expected an object, got {:?}", other),
            }
        }
    }
}

#[test]
fn member_without_its_comma_fails() {
    for key in KEYS {
        for value in VALUES {
            let error = read(&format!("{{\"{}\":{}}}", key, value)).unwrap_err();
            assert_eq!(
                error,
                ParseError {
                    kind: ErrorKind::ExpectedComma,
                    position: length(key) + length(value) + 4,
                }
            );
        }
    }
}

#[test]
fn later_member_under_a_key_replaces_the_earlier() {
    for first in VALUES {
        for second in VALUES {
            match read(&format!("{{\"k\":{},\"k\":{},}}", first, second)).unwrap() {
                Node::Object(members) => {
                    assert_eq!(members.len(), 1);
                    let found = members.get("k").unwrap();
                    assert_eq!(format!("{:?}", found), shown(second));
                },
                other => panic!("expected an object, got {:?}", other),
            }
        }
    }
}

#[test]
fn object_within_object_is_kept_whole() {
    for value in VALUES {
        match read(&format!("{{\"outer\":{{\"inner\":{},}},}}", value)).unwrap() {
            Node::Object(outer) => match outer.get("outer") {
                Some(Node::Object(inner)) => {
                    assert_eq!(inner.len(), 1);
                    assert_eq!(format!("{:?}", inner.get("inner").unwrap()), shown(value));
                },
                other => panic!("expected an object, got {:?}", other),
            },
            other => panic!("expected an object, got {:?}", other),
        }
    }
}

#[test]
fn value_reads_the_same_wherever_it_stands() {
    for value in VALUES {
        let alone = shown(value);
        assert_eq!(shown(&format!(" \n\t{}", value)), alone);
        assert_eq!(shown(&format!("{} ", value)), alone);
        assert_eq!(shown(&format!("{},", value)), alone);
        assert_eq!(shown(&format!("{}]", value)), alone);
    }
}

#[test]
fn quoted_text_parses_to_itself() {
    for body in ["", "a", "a b", "\\", "\\n", "{[,:]}", "h\u{e9}", "12.5", "null"] {
        for rest in ["", " ", "\"", ",1"] {
            match read(&format!("\"{}\"{}", body, rest)).unwrap() {
                Node::StringLiteral(text) => assert_eq!(text, body),
                other => panic!("expected a string, got {:?}", other),
            }
        }
    }
}

#[test]
fn keyword_is_read_whatever_follows() {
    for rest in ["", " ", "l", "1", ",", "null"] {
        assert!(matches!(read(&format!("null{}", rest)), Ok(Node::NullLiteral)));
        assert!(matches!(read(&format!("true{}", rest)), Ok(Node::BoolLiteral(true))));
        assert!(matches!(read(&format!("false{}", rest)), Ok(Node::BoolLiteral(false))));
    }
}

#[test]
fn empty_braces_and_brackets_may_hold_separators() {
    for gap in ["", " ", "\n", "\t", " \n\t "] {
        match read(&format!("{{{}}}", gap)).unwrap() {
            Node::Object(members) => assert!(members.is_empty()),
            other => panic!("expected an object, got {:?}", other),
        }
        match read(&format!("[{}]", gap)).unwrap() {
            Node::Array(elements) => assert!(elements.is_empty()),
            other => panic!("expected an array, got {:?}", other),
        }
    }
}

#[test]
fn stray_character_fails_where_it_stands() {
    for lead in ["", " ", "\n\t "] {
        for stray in ['-', '+', '.', '}', ']', ':', ',', 'x', 'N', 'T', '\r', '\''] {
            let error = read(&format!("{}{}1", lead, stray)).unwrap_err();
            assert_eq!(
                error,
                ParseError { kind: ErrorKind::UnexpectedCharacter, position: length(lead) }
            );
        }
    }
}

#[test]
fn unclosed_string_fails_at_its_opening_quote() {
    for lead in ["", "  "] {
        for body in ["", "abc", "a\\", "{1,}"] {
            let error = read(&format!("{}\"{}", lead, body)).unwrap_err();
            assert_eq!(
                error,
                ParseError { kind: ErrorKind::UnterminatedString, position: length(lead) }
            );
        }
    }
}

#[test]
fn key_without_colon_fails_where_the_colon_was_due() {
    for key in KEYS {
        for gap in ["", " ", "\n "] {
            for rest in ["", "1,}", "=1,}", "\"v\",}", "}"] {
                let error = read(&format!("{{\"{}\"{}{}", key, gap, rest)).unwrap_err();
                assert_eq!(
                    error,
                    ParseError {
                        kind: ErrorKind::ExpectedColon,
                        position: 3 + length(key) + length(gap),
                    }
                );
            }
        }
    }
}

#[test]
fn fraction_read_converts_to_a_float() {
    for (text, value) in [("0.5", 0.5f32), ("12.", 12.0), ("3.25", 3.25), ("10.0", 10.0)] {
        match read(text).unwrap() {
            Node::FloatLiteral(read) => {
                assert_eq!(read, text);
                assert_eq!(read.parse::<f32>().unwrap(), value);
            },
            other => panic!("expected a fraction, got {:?}", other),
        }
    }
}
