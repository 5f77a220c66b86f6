use json_tree::{ErrorKind, Keyword, Node, ParseError, Parser};

fn failure_of(text: &str) -> ParseError {
    match Parser::new(text.chars()).parse() {
        Ok(node) => panic!("expected a failure, got {:?}", node),
        Err(error) => error,
    }
}

#[test]
fn object_without_trailing_comma_is_rejected() {
    let error = failure_of(r#"{"key": 123}"#);
    assert_eq!(error, ParseError { kind: ErrorKind::ExpectedComma, position: 11 });
}

#[test]
fn array_without_trailing_comma_is_rejected() {
    let error = failure_of("[1, 2, 3]");
    assert_eq!(error, ParseError { kind: ErrorKind::ExpectedComma, position: 8 });
}

#[test]
fn array_with_trailing_comma_is_accepted() {
    assert!(Parser::new("[1, 2, 3,]".chars()).parse().is_ok());
}

#[test]
fn unterminated_string_is_reported_at_its_opening_quote() {
    let error = failure_of(r#"  "abc"#);
    assert_eq!(error, ParseError { kind: ErrorKind::UnterminatedString, position: 2 });
}

#[test]
fn unterminated_key_is_reported_at_its_opening_quote() {
    let error = failure_of(r#"{"abc"#);
    assert_eq!(error, ParseError { kind: ErrorKind::UnterminatedString, position: 1 });
}

#[test]
fn object_missing_colon_is_rejected() {
    let error = failure_of(r#"{"a" 1,}"#);
    assert_eq!(error, ParseError { kind: ErrorKind::ExpectedColon, position: 5 });
}

#[test]
fn object_ending_after_key_is_missing_its_colon() {
    let error = failure_of(r#"{"a""#);
    assert_eq!(error, ParseError { kind: ErrorKind::ExpectedColon, position: 4 });
}

#[test]
fn unrecognized_leading_character_is_rejected() {
    let error = failure_of("  x");
    assert_eq!(error, ParseError { kind: ErrorKind::UnexpectedCharacter, position: 2 });
}

#[test]
fn the_three_malformed_inputs_fail_in_three_different_ways() {
    let unterminated = failure_of(r#""abc"#).kind;
    let colon = failure_of(r#"{"a" 1,}"#).kind;
    let stray = failure_of("?").kind;
    assert_eq!(unterminated, ErrorKind::UnterminatedString);
    assert_eq!(colon, ErrorKind::ExpectedColon);
    assert_eq!(stray, ErrorKind::UnexpectedCharacter);
    assert_ne!(unterminated, colon);
    assert_ne!(colon, stray);
    assert_ne!(unterminated, stray);
}

#[test]
fn the_same_malformed_input_fails_the_same_way_each_time() {
    let first = failure_of(r#"[1, {"a": tru,},]"#);
    let second = failure_of(r#"[1, {"a": tru,},]"#);
    assert_eq!(first, second);
    assert_eq!(first, ParseError { kind: ErrorKind::MalformedLiteral(Keyword::True), position: 13 });
}

#[test]
fn negative_number_is_rejected() {
    let error = failure_of("-5");
    assert_eq!(error, ParseError { kind: ErrorKind::UnexpectedCharacter, position: 0 });
}

#[test]
fn leading_point_is_rejected() {
    let error = failure_of(".5");
    assert_eq!(error, ParseError { kind: ErrorKind::UnexpectedCharacter, position: 0 });
}

#[test]
fn carriage_return_is_not_skipped() {
    let error = failure_of("\r1");
    assert_eq!(error, ParseError { kind: ErrorKind::UnexpectedCharacter, position: 0 });
}

#[test]
fn empty_input_is_rejected() {
    let error = failure_of("");
    assert_eq!(error, ParseError { kind: ErrorKind::UnexpectedEndOfInput, position: 0 });
}

#[test]
fn blank_input_is_rejected_at_its_end() {
    let error = failure_of(" \n\t ");
    assert_eq!(error, ParseError { kind: ErrorKind::UnexpectedEndOfInput, position: 4 });
}

#[test]
fn array_that_ends_after_a_comma_is_rejected() {
    let error = failure_of("[1,");
    assert_eq!(error, ParseError { kind: ErrorKind::UnexpectedEndOfInput, position: 3 });
}

#[test]
fn number_with_two_points_is_rejected_at_its_start() {
    let error = failure_of(" 1.2.3");
    assert_eq!(error, ParseError { kind: ErrorKind::MalformedNumber, position: 1 });
}

#[test]
fn number_with_adjacent_points_is_rejected() {
    let error = failure_of("1..");
    assert_eq!(error, ParseError { kind: ErrorKind::MalformedNumber, position: 0 });
}

#[test]
fn misspelt_null_is_rejected_at_the_first_wrong_character() {
    let error = failure_of("nulL");
    assert_eq!(error, ParseError { kind: ErrorKind::MalformedLiteral(Keyword::Null), position: 3 });
}

#[test]
fn null_cut_short_is_rejected_at_the_end() {
    let error = failure_of("nu");
    assert_eq!(error, ParseError { kind: ErrorKind::MalformedLiteral(Keyword::Null), position: 2 });
}

#[test]
fn misspelt_true_is_rejected() {
    let error = failure_of("tree");
    assert_eq!(error, ParseError { kind: ErrorKind::MalformedLiteral(Keyword::True), position: 2 });
}

#[test]
fn misspelt_false_is_rejected() {
    let error = failure_of("fals");
    assert_eq!(error, ParseError { kind: ErrorKind::MalformedLiteral(Keyword::False), position: 4 });
}

#[test]
fn keywords_are_lower_case_only() {
    let error = failure_of("True");
    assert_eq!(error, ParseError { kind: ErrorKind::UnexpectedCharacter, position: 0 });
    let error = failure_of("tRUE");
    assert_eq!(error, ParseError { kind: ErrorKind::MalformedLiteral(Keyword::True), position: 1 });
}

#[test]
fn object_with_a_bare_word_for_a_key_is_rejected() {
    let error = failure_of("{x}");
    assert_eq!(error, ParseError { kind: ErrorKind::UnexpectedToken, position: 1 });
}

#[test]
fn object_that_is_never_closed_is_rejected() {
    let error = failure_of("{ ");
    assert_eq!(error, ParseError { kind: ErrorKind::UnexpectedToken, position: 2 });
}

#[test]
fn object_with_a_number_for_a_key_is_rejected() {
    let error = failure_of(r#"{"a": 1, 5: 2,}"#);
    assert_eq!(error, ParseError { kind: ErrorKind::UnexpectedToken, position: 9 });
}

#[test]
fn space_before_the_comma_of_a_member_is_rejected() {
    let error = failure_of(r#"{"a": 1 ,}"#);
    assert_eq!(error, ParseError { kind: ErrorKind::ExpectedComma, position: 7 });
}

#[test]
fn space_before_the_comma_of_an_element_is_accepted() {
    let node = Parser::new("[1 ,]".chars()).parse().unwrap();
    match node {
        Node::Array(elements) => assert_eq!(elements.len(), 1),
        other => panic!("expected an array, got {:?}", other),
    }
}

#[test]
fn failure_inside_a_nested_value_is_reported_where_it_lies() {
    let error = failure_of(r#"{"a": [1, {"b": ?,},],}"#);
    assert_eq!(error, ParseError { kind: ErrorKind::UnexpectedCharacter, position: 16 });
}

#[test]
fn comma_without_an_element_is_rejected() {
    let error = failure_of("[,]");
    assert_eq!(error, ParseError { kind: ErrorKind::UnexpectedCharacter, position: 1 });
    let error = failure_of("[1,,]");
    assert_eq!(error, ParseError { kind: ErrorKind::UnexpectedCharacter, position: 3 });
}

#[test]
fn comma_without_a_member_is_rejected() {
    let error = failure_of("{,}");
    assert_eq!(error, ParseError { kind: ErrorKind::UnexpectedToken, position: 1 });
    let error = failure_of(r#"{"a": 1,,}"#);
    assert_eq!(error, ParseError { kind: ErrorKind::UnexpectedToken, position: 8 });
}

#[test]
fn closing_bracket_alone_is_rejected() {
    let error = failure_of("]");
    assert_eq!(error, ParseError { kind: ErrorKind::UnexpectedCharacter, position: 0 });
    let error = failure_of("}");
    assert_eq!(error, ParseError { kind: ErrorKind::UnexpectedCharacter, position: 0 });
}
