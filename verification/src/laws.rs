//! What texts of given shapes parse to, whatever stands in the places that
//! the shape leaves open.

use vstd::prelude::*;
use crate::error::{ErrorKind, Failure, Keyword};
use crate::embedding::{
    framed_text_is_held, held_text_is_stretch, holds, joined_texts_are_held, part_is_held,
    value_reads_the_same,
};
use crate::grammar::{
    agreement, decimal_value, elements_at, failure, is_digit, is_numeric, is_space,
    keyword_text, keyword_value, members_at, number_value, points, space_run, string_at,
    value_at,
};
use crate::node::Value;
use crate::outcomes::{value_behind_spaces, value_lies_in_input};
use crate::runs::run_is_unique;

verus! {

/// A text that holds a point is not made of digits alone.
pub proof fn point_is_no_digit(text: Seq<char>)
    requires
        points(text) > 0,
    ensures
        exists|i: int| 0 <= i < text.len() && !is_digit(#[trigger] text[i]),
    decreases text.len(),
{
    if text.last() == '.' {
        assert(!is_digit(text[text.len() - 1]));
    } else {
        point_is_no_digit(text.drop_last());
        let i = choose|i: int|
            0 <= i < text.drop_last().len() && !is_digit(#[trigger] text.drop_last()[i]);
        assert(!is_digit(text[i]));
    }
}

/// A text that begins with a digit has fewer points than characters.
pub proof fn points_leave_room(text: Seq<char>)
    requires
        text.len() > 0,
        is_digit(text[0]),
    ensures
        points(text) < text.len(),
    decreases text.len(),
{
    if text.len() > 1 {
        points_leave_room(text.drop_last());
    } else {
        assert(points(text.drop_last()) == 0);
    }
}

/// A text of digits and points that begins with a digit is read as one
/// number, to its end.
pub proof fn number_text_is_read_whole(text: Seq<char>)
    requires
        text.len() > 0,
        is_digit(text[0]),
        forall|i: int| 0 <= i < text.len() ==> is_numeric(#[trigger] text[i]),
    ensures
        value_at(text, 0) == match number_value(text) {
            Some(value) => Ok::<(Value, nat), Failure>((value, text.len())),
            None => Err(Failure { kind: ErrorKind::MalformedNumber, position: 0 }),
        },
{
    assert(space_run(text, 0) == 0);
    run_is_unique(text, 0, |c: char| is_numeric(c), text.len());
    assert(text.subrange(0, text.len() as int) =~= text);
}

/// A text of digits whose number fits in 32 bits with a sign parses to the
/// integer it writes.
pub proof fn integer_text_parses_to_its_value(text: Seq<char>)
    requires
        text.len() > 0,
        forall|i: int| 0 <= i < text.len() ==> is_digit(#[trigger] text[i]),
        decimal_value(text) <= i32::MAX,
    ensures
        value_at(text, 0) == Ok::<(Value, nat), Failure>(
            (Value::Integer(decimal_value(text) as int), text.len()),
        ),
{
    number_text_is_read_whole(text);
}

/// A text of digits with one point among them, the first character a digit,
/// parses to a decimal that keeps the text.
pub proof fn fraction_text_parses_to_a_float(text: Seq<char>)
    requires
        text.len() > 0,
        is_digit(text[0]),
        forall|i: int| 0 <= i < text.len() ==> is_numeric(#[trigger] text[i]),
        points(text) == 1,
    ensures
        value_at(text, 0) == Ok::<(Value, nat), Failure>((Value::Float(text), text.len())),
{
    points_leave_room(text);
    point_is_no_digit(text);
    number_text_is_read_whole(text);
}

/// Characters between two quotes, none of them a quote, parse to themselves,
/// whatever follows the closing quote. A backslash is a character like any
/// other.
pub proof fn quoted_text_parses_to_itself(body: Seq<char>, rest: Seq<char>)
    requires
        forall|i: int| 0 <= i < body.len() ==> #[trigger] body[i] != '"',
    ensures
        value_at(seq!['"'] + body + seq!['"'] + rest, 0) == Ok::<(Value, nat), Failure>(
            (Value::Text(body), body.len() + 2),
        ),
{
    let text = seq!['"'] + body + seq!['"'] + rest;
    assert(text[0] == '"');
    assert(space_run(text, 0) == 0);
    assert forall|i: int| 1 <= i < 1 + body.len() implies #[trigger] text[i] != '"' by {
        assert(text[i] == body[i - 1]);
    }
    assert(text[1 + body.len() as int] == '"');
    run_is_unique(text, 1, |c: char| c != '"', body.len());
    assert(text.subrange(1, 1 + body.len() as int) =~= body);
}

/// Each keyword parses to the value it stands for, whatever follows it.
pub proof fn keyword_parses_to_its_value(keyword: Keyword, rest: Seq<char>)
    ensures
        value_at(keyword_text(keyword) + rest, 0) == Ok::<(Value, nat), Failure>(
            (keyword_value(keyword), keyword_text(keyword).len()),
        ),
{
    let text = keyword_text(keyword) + rest;
    assert(space_run(text, 0) == 0);
    reveal_with_fuel(agreement, 6);
    assert(agreement(text, 0, keyword_text(keyword), 0) == keyword_text(keyword).len());
}

/// Braces with nothing but separating characters between them parse to the
/// object without members.
pub proof fn empty_braces_parse_to_the_empty_object(gap: Seq<char>, rest: Seq<char>)
    requires
        forall|i: int| 0 <= i < gap.len() ==> is_space(#[trigger] gap[i]),
    ensures
        value_at(seq!['{'] + gap + seq!['}'] + rest, 0) == Ok::<(Value, nat), Failure>(
            (Value::Object(Map::empty()), gap.len() + 2),
        ),
{
    let text = seq!['{'] + gap + seq!['}'] + rest;
    assert(text[0] == '{');
    assert(space_run(text, 0) == 0);
    assert forall|i: int| 1 <= i < 1 + gap.len() implies is_space(#[trigger] text[i]) by {
        assert(text[i] == gap[i - 1]);
    }
    assert(text[1 + gap.len() as int] == '}');
    run_is_unique(text, 1, |c: char| is_space(c), gap.len());
}

/// Brackets with nothing but separating characters between them parse to the
/// array without elements.
pub proof fn empty_brackets_parse_to_the_empty_array(gap: Seq<char>, rest: Seq<char>)
    requires
        forall|i: int| 0 <= i < gap.len() ==> is_space(#[trigger] gap[i]),
    ensures
        value_at(seq!['['] + gap + seq![']'] + rest, 0) == Ok::<(Value, nat), Failure>(
            (Value::Array(Seq::empty()), gap.len() + 2),
        ),
{
    let text = seq!['['] + gap + seq![']'] + rest;
    assert(text[0] == '[');
    assert(space_run(text, 0) == 0);
    assert forall|i: int| 1 <= i < 1 + gap.len() implies is_space(#[trigger] text[i]) by {
        assert(text[i] == gap[i - 1]);
    }
    assert(text[1 + gap.len() as int] == ']');
    run_is_unique(text, 1, |c: char| is_space(c), gap.len());
}

/// Whether a text, read from its first character, is the given value and
/// nothing more.
pub open spec fn writes(text: Seq<char>, value: Value) -> bool {
    value_at(text, 0) == Ok::<(Value, nat), Failure>((value, text.len()))
}

/// A key between quotes.
pub open spec fn quoted(key: Seq<char>) -> Seq<char> {
    seq!['"'] + key + seq!['"']
}

/// The text of one element of an array: a value and the comma behind it.
pub open spec fn element_text(value_text: Seq<char>) -> Seq<char> {
    value_text + seq![',']
}

/// The text of one member of an object: a key between quotes, a colon, a
/// value and the comma behind it.
pub open spec fn member_text(key: Seq<char>, value_text: Seq<char>) -> Seq<char> {
    quoted(key) + seq![':'] + value_text + seq![',']
}

/// Where a text that writes a value is held and nothing behind it continues
/// a number, reading finds the value there.
pub proof fn value_is_read_where_held(t: Seq<char>, pos: int, text: Seq<char>, value: Value)
    requires
        writes(text, value),
        holds(t, pos, text),
        pos + text.len() < t.len() ==> !is_numeric(t[pos + text.len()]),
    ensures
        value_at(t, pos) == Ok::<(Value, nat), Failure>((value, text.len())),
{
    held_text_is_stretch(t, pos, text);
    value_reads_the_same(text, 0, t, pos);
}

/// Where a key between quotes is held, the key is read as a string.
pub proof fn key_is_read_where_held(t: Seq<char>, pos: int, key: Seq<char>)
    requires
        forall|i: int| 0 <= i < key.len() ==> #[trigger] key[i] != '"',
        holds(t, pos, quoted(key)),
    ensures
        t[pos] == '"',
        space_run(t, pos) == 0,
        string_at(t, pos) == Ok::<(Seq<char>, int), Failure>((key, pos + key.len() + 2)),
{
    let k = key.len() as int;
    held_text_is_stretch(t, pos, quoted(key));
    assert(t[pos] == '"') by {
        assert(quoted(key)[0] == t[pos + 0]);
    }
    assert forall|i: int| pos + 1 <= i < pos + 1 + k implies #[trigger] t[i] != '"' by {
        assert(quoted(key)[i - pos] == t[pos + (i - pos)]);
        assert(quoted(key)[i - pos] == key[i - pos - 1]);
    }
    assert(t[pos + 1 + k] == '"') by {
        assert(quoted(key)[k + 1] == t[pos + (k + 1)]);
    }
    run_is_unique(t, pos + 1, |c: char| c != '"', key.len());
    assert(holds(quoted(key), 1, key)) by {
        assert(quoted(key).subrange(1, 1 + k) =~= key);
    }
    part_is_held(t, pos, quoted(key), 1, key);
}

/// In an array, a value is followed by a comma, before which separating
/// characters may stand, and becomes the next element. Without the comma
/// the array fails.
pub proof fn element_is_read(
    t: Seq<char>,
    pos: int,
    text: Seq<char>,
    value: Value,
    elements: Seq<Value>,
)
    requires
        writes(text, value),
        holds(t, pos, text),
        pos + text.len() < t.len() ==> !is_numeric(t[pos + text.len()]),
    ensures
        elements_at(t, pos, elements) == {
            let comma = pos + text.len() + space_run(t, pos + text.len());
            if comma < t.len() && t[comma] == ',' {
                elements_at(t, comma + 1, elements.push(value))
            } else {
                failure::<Value>(ErrorKind::ExpectedComma, comma)
            }
        },
{
    let n = text.len() as int;
    let k = space_run(t, pos) as int;
    value_is_read_where_held(t, pos, text, value);
    value_lies_in_input(t, pos);
    value_behind_spaces(t, pos);
    assert(value_at(t, pos + k) == Ok::<(Value, nat), Failure>((value, (n - k) as nat)));
    assert(t[pos + k] != ']');
}

/// In an object, a key is followed by a colon, a value and a comma, and the
/// value becomes the member under that key. Without the comma directly
/// behind the value the object fails.
pub proof fn member_is_read(
    t: Seq<char>,
    pos: int,
    key: Seq<char>,
    text: Seq<char>,
    value: Value,
    members: Map<Seq<char>, Value>,
)
    requires
        forall|i: int| 0 <= i < key.len() ==> #[trigger] key[i] != '"',
        writes(text, value),
        holds(t, pos, quoted(key) + seq![':'] + text),
        pos + key.len() + text.len() + 3 < t.len() ==> !is_numeric(
            t[pos + key.len() + text.len() + 3],
        ),
    ensures
        members_at(t, pos, members) == {
            let comma = pos + key.len() + text.len() + 3;
            if comma < t.len() && t[comma] == ',' {
                members_at(t, comma + 1, members.insert(key, value))
            } else {
                failure::<Value>(ErrorKind::ExpectedComma, comma)
            }
        },
{
    let front = quoted(key) + seq![':'] + text;
    let k = key.len() as int;
    joined_texts_are_held(quoted(key) + seq![':'], text);
    joined_texts_are_held(quoted(key), seq![':']);
    part_is_held(t, pos, front, 0, quoted(key) + seq![':']);
    part_is_held(t, pos, quoted(key) + seq![':'], 0, quoted(key));
    part_is_held(t, pos, quoted(key) + seq![':'], k + 2, seq![':']);
    part_is_held(t, pos, front, k + 3, text);
    key_is_read_where_held(t, pos, key);
    assert(t[pos + k + 2] == ':') by {
        held_text_is_stretch(t, pos + k + 2, seq![':']);
        assert(seq![':'][0] == t[pos + k + 2 + 0]);
    }
    assert(space_run(t, pos + k + 2) == 0);
    value_is_read_where_held(t, pos + k + 3, text, value);
}

/// An array of one element: with the comma behind the element it is read,
/// without the comma it fails.
pub proof fn array_needs_the_trailing_comma(text: Seq<char>, value: Value)
    requires
        writes(text, value),
    ensures
        writes(seq!['['] + element_text(text) + seq![']'], Value::Array(seq![value])),
        value_at(seq!['['] + text + seq![']'], 0) == Err::<(Value, nat), Failure>(
            Failure { kind: ErrorKind::ExpectedComma, position: (text.len() + 1) as int },
        ),
{
    let n = text.len() as int;
    let good = seq!['['] + element_text(text) + seq![']'];
    framed_text_is_held('[', element_text(text), ']');
    joined_texts_are_held(text, seq![',']);
    part_is_held(good, 1, element_text(text), 0, text);
    assert(good[n + 1] == ',') by {
        held_text_is_stretch(good, 1, element_text(text));
        assert(element_text(text)[n] == good[1 + n]);
    }
    assert(space_run(good, 0) == 0);
    assert(space_run(good, n + 1) == 0);
    assert(space_run(good, n + 2) == 0);
    element_is_read(good, 1, text, value, Seq::empty());
    assert(Seq::<Value>::empty().push(value) =~= seq![value]);

    let bad = seq!['['] + text + seq![']'];
    framed_text_is_held('[', text, ']');
    assert(space_run(bad, 0) == 0);
    assert(space_run(bad, n + 1) == 0);
    element_is_read(bad, 1, text, value, Seq::empty());
}

/// An object of one member: with the comma behind the member it is read,
/// without the comma it fails.
pub proof fn object_needs_the_trailing_comma(key: Seq<char>, text: Seq<char>, value: Value)
    requires
        forall|i: int| 0 <= i < key.len() ==> #[trigger] key[i] != '"',
        writes(text, value),
    ensures
        writes(
            seq!['{'] + member_text(key, text) + seq!['}'],
            Value::Object(Map::empty().insert(key, value)),
        ),
        value_at(seq!['{'] + (quoted(key) + seq![':'] + text) + seq!['}'], 0) == Err::<
            (Value, nat),
            Failure,
        >(
            Failure {
                kind: ErrorKind::ExpectedComma,
                position: (key.len() + text.len() + 4) as int,
            },
        ),
{
    let front = quoted(key) + seq![':'] + text;
    let f = front.len() as int;
    let good = seq!['{'] + member_text(key, text) + seq!['}'];
    framed_text_is_held('{', member_text(key, text), '}');
    joined_texts_are_held(front, seq![',']);
    part_is_held(good, 1, member_text(key, text), 0, front);
    assert(good[f + 1] == ',') by {
        held_text_is_stretch(good, 1, member_text(key, text));
        assert(member_text(key, text)[f] == good[1 + f]);
    }
    assert(space_run(good, 0) == 0);
    assert(space_run(good, f + 2) == 0);
    member_is_read(good, 1, key, text, value, Map::empty());

    let bad = seq!['{'] + front + seq!['}'];
    framed_text_is_held('{', front, '}');
    assert(space_run(bad, 0) == 0);
    member_is_read(bad, 1, key, text, value, Map::empty());
}

/// Of two members under one key the later one stays: the object holds one
/// member under that key, with the later value.
pub proof fn later_member_replaces_earlier(
    key: Seq<char>,
    first: Seq<char>,
    first_value: Value,
    second: Seq<char>,
    second_value: Value,
)
    requires
        forall|i: int| 0 <= i < key.len() ==> #[trigger] key[i] != '"',
        writes(first, first_value),
        writes(second, second_value),
    ensures
        writes(
            seq!['{'] + (member_text(key, first) + member_text(key, second)) + seq!['}'],
            Value::Object(Map::empty().insert(key, second_value)),
        ),
{
    let one = quoted(key) + seq![':'] + first;
    let two = quoted(key) + seq![':'] + second;
    let a = one.len() as int;
    let b = two.len() as int;
    let both = member_text(key, first) + member_text(key, second);
    let t = seq!['{'] + both + seq!['}'];
    assert(t.len() == a + b + 4 && t[0] == '{' && t[a + b + 3] == '}' && holds(t, 1, both)) by {
        framed_text_is_held('{', both, '}');
    }
    assert(holds(t, 1, one) && t[a + 1] == ',') by {
        joined_texts_are_held(member_text(key, first), member_text(key, second));
        joined_texts_are_held(one, seq![',']);
        part_is_held(t, 1, both, 0, member_text(key, first));
        part_is_held(t, 1, member_text(key, first), 0, one);
        held_text_is_stretch(t, 1, member_text(key, first));
        assert(member_text(key, first)[a] == t[1 + a]);
    }
    assert(holds(t, a + 2, two) && t[a + b + 2] == ',') by {
        joined_texts_are_held(member_text(key, first), member_text(key, second));
        joined_texts_are_held(two, seq![',']);
        part_is_held(t, 1, both, a + 1, member_text(key, second));
        part_is_held(t, a + 2, member_text(key, second), 0, two);
        held_text_is_stretch(t, a + 2, member_text(key, second));
        assert(member_text(key, second)[b] == t[a + 2 + b]);
    }
    let once = Map::<Seq<char>, Value>::empty().insert(key, first_value);
    let twice = once.insert(key, second_value);
    assert(members_at(t, 1, Map::empty()) == members_at(t, a + 2, once)) by {
        member_is_read(t, 1, key, first, first_value, Map::empty());
    }
    assert(members_at(t, a + 2, once) == members_at(t, a + b + 3, twice)) by {
        member_is_read(t, a + 2, key, second, second_value, once);
    }
    assert(members_at(t, a + b + 3, twice) == Ok::<(Value, int), Failure>(
        (Value::Object(twice), a + b + 4),
    )) by {
        assert(space_run(t, a + b + 3) == 0);
    }
    assert(twice =~= Map::<Seq<char>, Value>::empty().insert(key, second_value));
    assert(space_run(t, 0) == 0);
}

/// An object that is the value of a member of an object is held whole under
/// that member's key.
pub proof fn object_within_object(
    outer_key: Seq<char>,
    inner_key: Seq<char>,
    text: Seq<char>,
    value: Value,
)
    requires
        forall|i: int| 0 <= i < outer_key.len() ==> #[trigger] outer_key[i] != '"',
        forall|i: int| 0 <= i < inner_key.len() ==> #[trigger] inner_key[i] != '"',
        writes(text, value),
    ensures
        writes(
            seq!['{'] + member_text(
                outer_key,
                seq!['{'] + member_text(inner_key, text) + seq!['}'],
            ) + seq!['}'],
            Value::Object(
                Map::empty().insert(
                    outer_key,
                    Value::Object(Map::empty().insert(inner_key, value)),
                ),
            ),
        ),
{
    object_needs_the_trailing_comma(inner_key, text, value);
    object_needs_the_trailing_comma(
        outer_key,
        seq!['{'] + member_text(inner_key, text) + seq!['}'],
        Value::Object(Map::empty().insert(inner_key, value)),
    );
}

/// A text of nothing but separating characters holds no value: reading
/// fails at its end.
pub proof fn blank_text_fails(text: Seq<char>)
    requires
        forall|i: int| 0 <= i < text.len() ==> is_space(#[trigger] text[i]),
    ensures
        value_at(text, 0) == Err::<(Value, nat), Failure>(
            Failure { kind: ErrorKind::UnexpectedEndOfInput, position: text.len() as int },
        ),
{
    run_is_unique(text, 0, |c: char| is_space(c), text.len());
}

/// A character that can begin no value fails as unexpected, where it stands,
/// whatever follows it.
pub proof fn stray_character_fails(lead: Seq<char>, c: char, rest: Seq<char>)
    requires
        forall|i: int| 0 <= i < lead.len() ==> is_space(#[trigger] lead[i]),
        !is_space(c),
        !is_digit(c),
        c != '"' && c != '{' && c != '[' && c != 'n' && c != 't' && c != 'f',
    ensures
        value_at(lead + seq![c] + rest, 0) == Err::<(Value, nat), Failure>(
            Failure { kind: ErrorKind::UnexpectedCharacter, position: lead.len() as int },
        ),
{
    let text = lead + seq![c] + rest;
    assert forall|i: int| 0 <= i < lead.len() implies is_space(#[trigger] text[i]) by {
        assert(text[i] == lead[i]);
    }
    assert(text[lead.len() as int] == c);
    run_is_unique(text, 0, |c: char| is_space(c), lead.len());
}

/// A string that is opened and not closed fails as unterminated, at its
/// opening quote.
pub proof fn unclosed_string_fails(lead: Seq<char>, body: Seq<char>)
    requires
        forall|i: int| 0 <= i < lead.len() ==> is_space(#[trigger] lead[i]),
        forall|i: int| 0 <= i < body.len() ==> #[trigger] body[i] != '"',
    ensures
        value_at(lead + seq!['"'] + body, 0) == Err::<(Value, nat), Failure>(
            Failure { kind: ErrorKind::UnterminatedString, position: lead.len() as int },
        ),
{
    let text = lead + seq!['"'] + body;
    let start = lead.len() as int;
    assert forall|i: int| 0 <= i < lead.len() implies is_space(#[trigger] text[i]) by {
        assert(text[i] == lead[i]);
    }
    assert(text[start] == '"');
    run_is_unique(text, 0, |c: char| is_space(c), lead.len());
    assert forall|i: int| start + 1 <= i < start + 1 + body.len() implies #[trigger] text[i]
        != '"' by {
        assert(text[i] == body[i - start - 1]);
    }
    run_is_unique(text, start + 1, |c: char| c != '"', body.len());
}

/// An object whose first key is not followed by a colon fails for want of
/// the colon, at the place where it was due. Separating characters may stand
/// between the key and that place.
pub proof fn key_without_colon_fails(key: Seq<char>, gap: Seq<char>, rest: Seq<char>)
    requires
        forall|i: int| 0 <= i < key.len() ==> #[trigger] key[i] != '"',
        forall|i: int| 0 <= i < gap.len() ==> is_space(#[trigger] gap[i]),
        rest.len() > 0 ==> !is_space(rest[0]) && rest[0] != ':',
    ensures
        value_at(seq!['{', '"'] + key + seq!['"'] + gap + rest, 0) == Err::<(Value, nat), Failure>(
            Failure { kind: ErrorKind::ExpectedColon, position: (3 + key.len() + gap.len()) as int },
        ),
{
    let text = seq!['{', '"'] + key + seq!['"'] + gap + rest;
    let close = 2 + key.len() as int;
    let colon = close + 1 + gap.len();
    assert(text[0] == '{');
    assert(text[1] == '"');
    assert forall|i: int| 2 <= i < close implies #[trigger] text[i] != '"' by {
        assert(text[i] == key[i - 2]);
    }
    assert(text[close] == '"');
    assert forall|i: int| close + 1 <= i < colon implies is_space(#[trigger] text[i]) by {
        assert(text[i] == gap[i - close - 1]);
    }
    if rest.len() > 0 {
        assert(text[colon] == rest[0]);
    }
    assert(space_run(text, 0) == 0);
    assert(space_run(text, 1) == 0);
    run_is_unique(text, 2, |c: char| c != '"', key.len());
    run_is_unique(text, close + 1, |c: char| is_space(c), gap.len());
    assert(members_at(text, 1, Map::empty()) == Err::<(Value, int), Failure>(
        Failure { kind: ErrorKind::ExpectedColon, position: colon },
    ));
}

} // verus!
