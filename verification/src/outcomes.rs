//! What holds of every outcome of the grammar: where it lies in the input
//! and which values it can hold.

use vstd::prelude::*;
use crate::error::Failure;
use crate::grammar::{
    elements_at, is_digit, is_numeric, is_space, is_well_formed, members_at, run_len, space_run,
    value_at,
};
use crate::node::Value;
use crate::runs::{agreement_is_bounded, run_is_maximal};

verus! {

/// A value that is read lies in the input and reaches beyond the separating
/// characters before it, and a failure lies at or behind the position at
/// which reading began, in the input or at its end.
pub proof fn value_lies_in_input(s: Seq<char>, pos: int)
    requires
        0 <= pos <= s.len(),
    ensures
        match value_at(s, pos) {
            Ok((_, span)) => space_run(s, pos) < span && pos + span <= s.len(),
            Err(failure) => pos <= failure.position <= s.len(),
        },
    decreases s.len() - pos, 0nat,
{
    run_is_maximal(s, pos, |c: char| is_space(c));
    let start = pos + space_run(s, pos);
    if start < s.len() {
        let first = s[start];
        if is_digit(first) {
            run_is_maximal(s, start, |c: char| is_numeric(c));
        } else if first == '"' {
            run_is_maximal(s, start + 1, |c: char| c != '"');
        } else if first == '{' {
            members_lie_in_input(s, start + 1, Map::empty());
        } else if first == '[' {
            elements_lie_in_input(s, start + 1, Seq::empty());
        } else if first == 'n' {
            agreement_is_bounded(s, start, seq!['n', 'u', 'l', 'l'], 0);
        } else if first == 't' {
            agreement_is_bounded(s, start, seq!['t', 'r', 'u', 'e'], 0);
        } else if first == 'f' {
            agreement_is_bounded(s, start, seq!['f', 'a', 'l', 's', 'e'], 0);
        }
    }
}

/// The rest of an object, where it is read, ends in the input behind where
/// it began; a failure in it lies in the input or at its end.
pub proof fn members_lie_in_input(s: Seq<char>, pos: int, members: Map<Seq<char>, Value>)
    requires
        0 <= pos <= s.len(),
    ensures
        match members_at(s, pos, members) {
            Ok((_, end)) => pos < end <= s.len(),
            Err(failure) => pos <= failure.position <= s.len(),
        },
    decreases s.len() - pos, 1nat,
{
    run_is_maximal(s, pos, |c: char| is_space(c));
    let start = pos + space_run(s, pos);
    if start < s.len() && s[start] == '"' {
        run_is_maximal(s, start + 1, |c: char| c != '"');
        let close = start + 1 + run_len(s, start + 1, |c: char| c != '"');
        if close < s.len() {
            let key = s.subrange(start + 1, close);
            run_is_maximal(s, close + 1, |c: char| is_space(c));
            let colon = close + 1 + space_run(s, close + 1);
            if colon < s.len() && s[colon] == ':' {
                value_lies_in_input(s, colon + 1);
                match value_at(s, colon + 1) {
                    Ok((value, span)) => {
                        let comma = colon + 1 + span;
                        if comma < s.len() && s[comma] == ',' {
                            members_lie_in_input(s, comma + 1, members.insert(key, value));
                        }
                    },
                    Err(_) => {},
                }
            }
        }
    }
}

/// The rest of an array, where it is read, ends in the input behind where it
/// began; a failure in it lies in the input or at its end.
pub proof fn elements_lie_in_input(s: Seq<char>, pos: int, elements: Seq<Value>)
    requires
        0 <= pos <= s.len(),
    ensures
        match elements_at(s, pos, elements) {
            Ok((_, end)) => pos < end <= s.len(),
            Err(failure) => pos <= failure.position <= s.len(),
        },
    decreases s.len() - pos, 1nat,
{
    run_is_maximal(s, pos, |c: char| is_space(c));
    let start = pos + space_run(s, pos);
    if start < s.len() && s[start] != ']' {
        value_lies_in_input(s, start);
        match value_at(s, start) {
            Ok((value, span)) => {
                run_is_maximal(s, start + span, |c: char| is_space(c));
                let comma = start + span + space_run(s, start + span);
                if comma < s.len() && s[comma] == ',' {
                    elements_lie_in_input(s, comma + 1, elements.push(value));
                }
            },
            Err(_) => {},
        }
    }
}

/// Reading a value from behind the separating characters before it finds
/// the same as reading it from before them.
pub proof fn value_behind_spaces(s: Seq<char>, pos: int)
    requires
        0 <= pos <= s.len(),
    ensures
        value_at(s, pos + space_run(s, pos)) == match value_at(s, pos) {
            Ok((value, span)) => Ok::<(Value, nat), Failure>(
                (value, (span - space_run(s, pos)) as nat),
            ),
            Err(failure) => Err(failure),
        },
{
    run_is_maximal(s, pos, |c: char| is_space(c));
    let start = pos + space_run(s, pos);
    assert(space_run(s, start) == 0);
    if start < s.len() {
        let first = s[start];
        if is_digit(first) {
            run_is_maximal(s, start, |c: char| is_numeric(c));
        } else if first == '"' {
            run_is_maximal(s, start + 1, |c: char| c != '"');
        } else if first == '{' {
            members_lie_in_input(s, start + 1, Map::empty());
        } else if first == '[' {
            elements_lie_in_input(s, start + 1, Seq::empty());
        } else if first == 'n' {
            agreement_is_bounded(s, start, seq!['n', 'u', 'l', 'l'], 0);
        } else if first == 't' {
            agreement_is_bounded(s, start, seq!['t', 'r', 'u', 'e'], 0);
        } else if first == 'f' {
            agreement_is_bounded(s, start, seq!['f', 'a', 'l', 's', 'e'], 0);
        }
    }
}

/// An array is well formed when each of its elements is.
pub proof fn array_is_well_formed_by_elements(elements: Seq<Value>)
    ensures
        is_well_formed(Value::Array(elements)) <==> forall|i: int|
            0 <= i < elements.len() ==> is_well_formed(#[trigger] elements[i]),
{
    assert(Value::Array(elements)->Array_0 == elements);
}

/// A value that is read is well formed. In particular the text of a decimal
/// is digits with at most one point and at least one digit, a number is a
/// decimal only where it is no integer that fits, and no integer is
/// negative.
pub proof fn value_read_is_well_formed(s: Seq<char>, pos: int)
    requires
        0 <= pos <= s.len(),
    ensures
        value_at(s, pos) matches Ok((value, _)) ==> is_well_formed(value),
    decreases s.len() - pos, 0nat,
{
    run_is_maximal(s, pos, |c: char| is_space(c));
    let start = pos + space_run(s, pos);
    if start < s.len() {
        let first = s[start];
        if is_digit(first) {
            run_is_maximal(s, start, |c: char| is_numeric(c));
        } else if first == '{' {
            members_read_are_well_formed(s, start + 1, Map::empty());
        } else if first == '[' {
            elements_read_are_well_formed(s, start + 1, Seq::empty());
        }
    }
}

/// The rest of an object adds to members that are well formed only members
/// that are.
pub proof fn members_read_are_well_formed(s: Seq<char>, pos: int, members: Map<Seq<char>, Value>)
    requires
        0 <= pos <= s.len(),
        is_well_formed(Value::Object(members)),
    ensures
        members_at(s, pos, members) matches Ok((value, _)) ==> is_well_formed(value),
    decreases s.len() - pos, 1nat,
{
    run_is_maximal(s, pos, |c: char| is_space(c));
    let start = pos + space_run(s, pos);
    if start < s.len() && s[start] == '"' {
        run_is_maximal(s, start + 1, |c: char| c != '"');
        let close = start + 1 + run_len(s, start + 1, |c: char| c != '"');
        if close < s.len() {
            let key = s.subrange(start + 1, close);
            run_is_maximal(s, close + 1, |c: char| is_space(c));
            let colon = close + 1 + space_run(s, close + 1);
            if colon < s.len() && s[colon] == ':' {
                value_lies_in_input(s, colon + 1);
                value_read_is_well_formed(s, colon + 1);
                match value_at(s, colon + 1) {
                    Ok((value, span)) => {
                        let comma = colon + 1 + span;
                        if comma < s.len() && s[comma] == ',' {
                            members_read_are_well_formed(s, comma + 1, members.insert(key, value));
                        }
                    },
                    Err(_) => {},
                }
            }
        }
    }
}

/// The rest of an array adds to elements that are well formed only
/// elements that are.
pub proof fn elements_read_are_well_formed(s: Seq<char>, pos: int, elements: Seq<Value>)
    requires
        0 <= pos <= s.len(),
        is_well_formed(Value::Array(elements)),
    ensures
        elements_at(s, pos, elements) matches Ok((value, _)) ==> is_well_formed(value),
    decreases s.len() - pos, 1nat,
{
    run_is_maximal(s, pos, |c: char| is_space(c));
    let start = pos + space_run(s, pos);
    if start < s.len() && s[start] != ']' {
        value_lies_in_input(s, start);
        value_read_is_well_formed(s, start);
        match value_at(s, start) {
            Ok((value, span)) => {
                run_is_maximal(s, start + span, |c: char| is_space(c));
                let comma = start + span + space_run(s, start + span);
                if comma < s.len() && s[comma] == ',' {
                    let longer = elements.push(value);
                    array_is_well_formed_by_elements(elements);
                    array_is_well_formed_by_elements(longer);
                    assert forall|i: int| 0 <= i < longer.len() implies is_well_formed(
                        #[trigger] longer[i],
                    ) by {
                        if i < elements.len() {
                            assert(longer[i] == elements[i]);
                        }
                    }
                    elements_read_are_well_formed(s, comma + 1, longer);
                }
            },
            Err(_) => {},
        }
    }
}

} // verus!
