//! The grammar, written as functions of the input and a position in it.
//!
//! The input is a sequence of characters and a position is an index into it.
//! Each production says, for a position, what value stands there and where it
//! ends, or why none does.

use vstd::prelude::*;
use crate::error::{ErrorKind, Failure, Keyword};
use crate::node::Value;

verus! {

/// What a production finds at a position: a result and the position just
/// behind what it read, or a failure.
pub type Outcome<T> = Result<(T, int), Failure>;

/// The failure of the given kind at the given position.
pub open spec fn failure<T>(kind: ErrorKind, position: int) -> Outcome<T> {
    Err(Failure { kind, position })
}

/// Space, newline and tab separate tokens. A carriage return does not.
pub open spec fn is_space(c: char) -> bool {
    c == ' ' || c == '\n' || c == '\t'
}

/// The ten digits of ASCII.
pub open spec fn is_digit(c: char) -> bool {
    '0' <= c && c <= '9'
}

/// The characters a number is collected from.
pub open spec fn is_numeric(c: char) -> bool {
    is_digit(c) || c == '.'
}

/// The length of the longest run of characters that satisfy `member`,
/// starting at `pos`.
pub open spec fn run_len(s: Seq<char>, pos: int, member: spec_fn(char) -> bool) -> nat
    decreases s.len() - pos,
{
    if 0 <= pos < s.len() && member(s[pos]) {
        (1 + run_len(s, pos + 1, member)) as nat
    } else {
        0
    }
}

/// How many separating characters stand at `pos`.
pub open spec fn space_run(s: Seq<char>, pos: int) -> nat {
    run_len(s, pos, |c: char| is_space(c))
}

/// How many digits and points stand at `pos`.
pub open spec fn number_run(s: Seq<char>, pos: int) -> nat {
    run_len(s, pos, |c: char| is_numeric(c))
}

/// How many characters other than a quote stand at `pos`.
pub open spec fn text_run(s: Seq<char>, pos: int) -> nat {
    run_len(s, pos, |c: char| c != '"')
}

/// What a digit counts for.
pub open spec fn digit_value(c: char) -> nat {
    if is_digit(c) {
        (c as int - '0' as int) as nat
    } else {
        0
    }
}

/// The number that a text of digits writes in base ten.
pub open spec fn decimal_value(text: Seq<char>) -> nat
    decreases text.len(),
{
    if text.len() == 0 {
        0
    } else {
        (10 * decimal_value(text.drop_last()) + digit_value(text.last())) as nat
    }
}

/// How many points a text holds.
pub open spec fn points(text: Seq<char>) -> nat
    decreases text.len(),
{
    if text.len() == 0 {
        0
    } else if text.last() == '.' {
        (points(text.drop_last()) + 1) as nat
    } else {
        points(text.drop_last())
    }
}

/// Whether a text writes an integer that fits in 32 bits with a sign: digits
/// only, at least one of them, and a number no larger than the largest such
/// integer.
pub open spec fn is_integer(text: Seq<char>) -> bool {
    &&& text.len() > 0
    &&& forall|i: int| 0 <= i < text.len() ==> is_digit(#[trigger] text[i])
    &&& decimal_value(text) <= i32::MAX
}

/// Whether a text writes a number in decimal notation: digits and at most
/// one point, with at least one digit.
pub open spec fn is_decimal(text: Seq<char>) -> bool {
    &&& forall|i: int| 0 <= i < text.len() ==> is_numeric(#[trigger] text[i])
    &&& points(text) <= 1
    &&& points(text) < text.len()
}

/// Whether a value is one that this notation can write: every integer in it
/// lies between 0 and the largest that 32 bits hold with a sign, every
/// decimal is a text that writes one and writes no integer that fits, and
/// every object has finitely many members.
pub open spec fn is_well_formed(value: Value) -> bool
    decreases value,
{
    match value {
        Value::Integer(i) => 0 <= i <= i32::MAX,
        Value::Float(text) => is_decimal(text) && !is_integer(text),
        Value::Object(members) => members.dom().finite() && forall|key: Seq<char>|
            members.contains_key(key) ==> is_well_formed(#[trigger] members[key]),
        Value::Array(elements) => forall|i: int|
            0 <= i < elements.len() ==> is_well_formed(#[trigger] elements[i]),
        _ => true,
    }
}

/// The value of a text: the integer it writes if it writes one that fits,
/// else the decimal it writes if it writes one, else none.
pub open spec fn number_value(text: Seq<char>) -> Option<Value> {
    if is_integer(text) {
        Some(Value::Integer(decimal_value(text) as int))
    } else if is_decimal(text) {
        Some(Value::Float(text))
    } else {
        None
    }
}

/// The number that begins at `start`: the longest run of digits and points,
/// taken as one text.
pub open spec fn number_at(s: Seq<char>, start: int) -> Outcome<Value> {
    let end = start + number_run(s, start);
    match number_value(s.subrange(start, end)) {
        Some(value) => Ok((value, end)),
        None => failure(ErrorKind::MalformedNumber, start),
    }
}

/// The string whose opening quote stands at `start`: every character up to
/// the next quote, as it stands. Nothing escapes a quote.
pub open spec fn string_at(s: Seq<char>, start: int) -> Outcome<Seq<char>> {
    let close = start + 1 + text_run(s, start + 1);
    if close < s.len() {
        Ok((s.subrange(start + 1, close), close + 1))
    } else {
        failure(ErrorKind::UnterminatedString, start)
    }
}

/// The spelling of a keyword.
pub open spec fn keyword_text(keyword: Keyword) -> Seq<char> {
    match keyword {
        Keyword::Null => seq!['n', 'u', 'l', 'l'],
        Keyword::True => seq!['t', 'r', 'u', 'e'],
        Keyword::False => seq!['f', 'a', 'l', 's', 'e'],
    }
}

/// The value a keyword stands for.
pub open spec fn keyword_value(keyword: Keyword) -> Value {
    match keyword {
        Keyword::Null => Value::Null,
        Keyword::True => Value::Boolean(true),
        Keyword::False => Value::Boolean(false),
    }
}

/// How far the input at `pos` agrees with `word`, given that it agrees on
/// the first `from` characters.
pub open spec fn agreement(s: Seq<char>, pos: int, word: Seq<char>, from: nat) -> nat
    decreases word.len() - from,
{
    if from < word.len() && 0 <= pos + from < s.len() && s[pos + from] == word[from as int] {
        agreement(s, pos, word, from + 1)
    } else {
        from
    }
}

/// The keyword at `start`. A failure lies at the first character that departs
/// from the keyword's spelling.
pub open spec fn keyword_at(s: Seq<char>, start: int, keyword: Keyword) -> Outcome<Value> {
    let agreed = agreement(s, start, keyword_text(keyword), 0);
    if agreed == keyword_text(keyword).len() {
        Ok((keyword_value(keyword), start + agreed))
    } else {
        failure(ErrorKind::MalformedLiteral(keyword), start + agreed)
    }
}

/// The value at `pos`, after any separating characters, and the number of
/// characters from `pos` to its end.
pub open spec fn value_at(s: Seq<char>, pos: int) -> Result<(Value, nat), Failure>
    decreases s.len() - pos, 0nat,
{
    let start = pos + space_run(s, pos);
    if start >= s.len() {
        Err(Failure { kind: ErrorKind::UnexpectedEndOfInput, position: start })
    } else {
        let first = s[start];
        let found: Outcome<Value> = if is_digit(first) {
            number_at(s, start)
        } else if first == '"' {
            match string_at(s, start) {
                Ok((text, end)) => Ok((Value::Text(text), end)),
                Err(failure) => Err(failure),
            }
        } else if first == '{' {
            members_at(s, start + 1, Map::empty())
        } else if first == '[' {
            elements_at(s, start + 1, Seq::empty())
        } else if first == 'n' {
            keyword_at(s, start, Keyword::Null)
        } else if first == 't' {
            keyword_at(s, start, Keyword::True)
        } else if first == 'f' {
            keyword_at(s, start, Keyword::False)
        } else {
            failure(ErrorKind::UnexpectedCharacter, start)
        };
        match found {
            Ok((value, end)) => Ok((value, (end - pos) as nat)),
            Err(failure) => Err(failure),
        }
    }
}

/// The rest of an object from `pos`, which lies behind the opening brace or
/// behind the comma of a member, given the members read so far.
///
/// A member is a key, a colon, a value and a comma. Separating characters may
/// stand before the key, before the colon and before the value, not before the
/// comma. The closing brace stands where a key could: behind the opening
/// brace or behind a comma.
pub open spec fn members_at(s: Seq<char>, pos: int, members: Map<Seq<char>, Value>) -> Outcome<Value>
    decreases s.len() - pos, 1nat,
{
    let start = pos + space_run(s, pos);
    if start < s.len() && s[start] == '"' {
        match string_at(s, start) {
            Err(failure) => Err(failure),
            Ok((key, key_end)) => {
                let colon = key_end + space_run(s, key_end);
                if colon < s.len() && s[colon] == ':' {
                    match value_at(s, colon + 1) {
                        Err(failure) => Err(failure),
                        Ok((value, span)) => {
                            let comma = colon + 1 + span;
                            if comma < s.len() && s[comma] == ',' {
                                members_at(s, comma + 1, members.insert(key, value))
                            } else {
                                failure(ErrorKind::ExpectedComma, comma)
                            }
                        },
                    }
                } else {
                    failure(ErrorKind::ExpectedColon, colon)
                }
            },
        }
    } else if start < s.len() && s[start] == '}' {
        Ok((Value::Object(members), start + 1))
    } else {
        failure(ErrorKind::UnexpectedToken, start)
    }
}

/// The rest of an array from `pos`, which lies behind the opening bracket or
/// behind the comma of an element, given the elements read so far.
///
/// An element is a value and a comma, with separating characters allowed
/// before either. The closing bracket stands where a value could: behind the
/// opening bracket or behind a comma.
pub open spec fn elements_at(s: Seq<char>, pos: int, elements: Seq<Value>) -> Outcome<Value>
    decreases s.len() - pos, 1nat,
{
    let start = pos + space_run(s, pos);
    if start >= s.len() {
        failure(ErrorKind::UnexpectedEndOfInput, start)
    } else if s[start] == ']' {
        Ok((Value::Array(elements), start + 1))
    } else {
        match value_at(s, start) {
            Err(failure) => Err(failure),
            Ok((value, span)) => {
                let comma = start + span + space_run(s, start + span);
                if comma < s.len() && s[comma] == ',' {
                    elements_at(s, comma + 1, elements.push(value))
                } else {
                    failure(ErrorKind::ExpectedComma, comma)
                }
            },
        }
    }
}

} // verus!
