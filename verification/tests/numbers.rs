use json_tree::{Node, Parser};

fn integer_of(text: &str) -> i32 {
    match Parser::new(text.chars()).parse() {
        Ok(Node::IntLiteral(value)) => value,
        other => panic!("expected an integer, got {:?}", other),
    }
}

fn fraction_text_of(text: &str) -> String {
    match Parser::new(text.chars()).parse() {
        Ok(Node::FloatLiteral(text)) => text,
        other => panic!("expected a fraction, got {:?}", other),
    }
}

#[test]
fn digits_parse_to_the_integer_they_write() {
    for value in [0, 1, 9, 10, 42, 100, 65536, 1_000_000, 2_147_483_646] {
        assert_eq!(integer_of(&format!("{}", value)), value);
    }
}

#[test]
fn largest_integer_is_an_integer() {
    assert_eq!(integer_of("2147483647"), i32::MAX);
}

#[test]
fn integer_one_past_the_largest_is_a_fraction() {
    let text = fraction_text_of("2147483648");
    assert_eq!(text, "2147483648");
    assert_eq!(text.parse::<f32>().unwrap(), 2147483648.0);
}

#[test]
fn very_long_integer_is_a_fraction() {
    let text = fraction_text_of("123456789012345678901234567890");
    assert_eq!(text, "123456789012345678901234567890");
    assert_eq!(text.parse::<f32>().unwrap(), 123456789012345678901234567890.0);
}

#[test]
fn leading_zeros_do_not_change_an_integer() {
    assert_eq!(integer_of("007"), 7);
    assert_eq!(integer_of("0000000000002147483647"), i32::MAX);
}

#[test]
fn fraction_keeps_its_text() {
    assert_eq!(fraction_text_of("123.45"), "123.45");
    assert_eq!(fraction_text_of("0.5"), "0.5");
    assert_eq!(fraction_text_of("3.14"), "3.14");
}

#[test]
fn fraction_converts_to_the_float_it_writes() {
    assert_eq!(fraction_text_of("0.5").parse::<f32>().unwrap(), 0.5);
    assert_eq!(fraction_text_of("10.25").parse::<f32>().unwrap(), 10.25);
}

#[test]
fn point_at_the_end_is_a_fraction() {
    let text = fraction_text_of("5.");
    assert_eq!(text, "5.");
    assert_eq!(text.parse::<f32>().unwrap(), 5.0);
}

#[test]
fn number_ends_at_the_first_other_character() {
    let mut parser = Parser::new("12abc".chars());
    match parser.parse() {
        Ok(Node::IntLiteral(value)) => assert_eq!(value, 12),
        other => panic!("expected an integer, got {:?}", other),
    }
}

#[test]
fn exponent_is_not_part_of_a_number() {
    let mut parser = Parser::new("1e5".chars());
    match parser.parse() {
        Ok(Node::IntLiteral(value)) => assert_eq!(value, 1),
        other => panic!("expected an integer, got {:?}", other),
    }
}

#[test]
fn separators_before_a_number_are_skipped() {
    assert_eq!(integer_of(" \n\t 123"), 123);
}
