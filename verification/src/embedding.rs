//! A value reads the same wherever it stands: what the grammar finds depends
//! on the characters it reads and on the one behind them, not on their place
//! in the input nor on what else the input holds.

use vstd::prelude::*;
use crate::error::Failure;
use crate::grammar::{
    agreement, elements_at, is_digit, is_numeric, is_space, members_at, run_len, space_run,
    string_at, value_at,
};
use crate::node::Value;
use crate::outcomes::{elements_lie_in_input, members_lie_in_input, value_lies_in_input};
use crate::runs::{agreement_is_bounded, run_is_maximal, run_is_unique};

verus! {

/// Whether `t` holds from `q` the same `n` characters that `s` holds from
/// `p`.
pub open spec fn same_stretch(s: Seq<char>, p: int, t: Seq<char>, q: int, n: int) -> bool {
    &&& 0 <= p
    &&& 0 <= q
    &&& 0 <= n
    &&& p + n <= s.len()
    &&& q + n <= t.len()
    &&& forall|i: int| p <= i < p + n ==> #[trigger] s[i] == t[i - p + q]
}

/// Whether the character behind the stretch in `t` is harmless: there is
/// none, or it cannot continue a number, or `s` holds the same one behind
/// its stretch.
pub open spec fn same_sequel(s: Seq<char>, p: int, t: Seq<char>, q: int, n: int) -> bool {
    ||| q + n == t.len()
    ||| !is_numeric(t[q + n])
    ||| (p + n < s.len() && s[p + n] == t[q + n])
}

/// Whether `t` holds the text `x` at `pos`.
pub open spec fn holds(t: Seq<char>, pos: int, x: Seq<char>) -> bool {
    0 <= pos && pos + x.len() <= t.len() && t.subrange(pos, pos + x.len()) == x
}

/// A text that is held is a stretch of the text that holds it.
pub proof fn held_text_is_stretch(t: Seq<char>, pos: int, x: Seq<char>)
    requires
        holds(t, pos, x),
    ensures
        same_stretch(x, 0, t, pos, x.len() as int),
        forall|i: int| 0 <= i < x.len() ==> #[trigger] x[i] == t[pos + i],
{
    let part = t.subrange(pos, pos + x.len());
    assert forall|i: int| 0 <= i < x.len() implies #[trigger] x[i] == t[pos + i] by {
        assert(part[i] == t[pos + i]);
    }
    assert forall|i: int| 0 <= i < 0 + x.len() implies #[trigger] x[i] == t[i - 0 + pos] by {
        assert(x[i] == t[pos + i]);
    }
}

/// Where a text is held, its parts are held.
pub proof fn part_is_held(t: Seq<char>, pos: int, x: Seq<char>, from: int, part: Seq<char>)
    requires
        holds(t, pos, x),
        holds(x, from, part),
    ensures
        holds(t, pos + from, part),
{
    held_text_is_stretch(t, pos, x);
    held_text_is_stretch(x, from, part);
    let a = t.subrange(pos + from, pos + from + part.len());
    assert forall|i: int| 0 <= i < part.len() implies #[trigger] a[i] == part[i] by {
        assert(part[i] == x[from + i]);
        assert(x[from + i] == t[pos + (from + i)]);
    }
    assert(a =~= part);
}

/// A text between two characters is held behind the first, and the two
/// characters stand before and behind it.
pub proof fn framed_text_is_held(open: char, inner: Seq<char>, close: char)
    ensures
        (seq![open] + inner + seq![close]).len() == inner.len() + 2,
        (seq![open] + inner + seq![close])[0] == open,
        (seq![open] + inner + seq![close])[inner.len() as int + 1] == close,
        holds(seq![open] + inner + seq![close], 1, inner),
{
    let t = seq![open] + inner + seq![close];
    assert(t.subrange(1, 1 + inner.len() as int) =~= inner);
}

/// Of two texts joined, each is held where it stands.
pub proof fn joined_texts_are_held(a: Seq<char>, b: Seq<char>)
    ensures
        holds(a + b, 0, a),
        holds(a + b, a.len() as int, b),
{
    assert((a + b).subrange(0, a.len() as int) =~= a);
    assert((a + b).subrange(a.len() as int, (a.len() + b.len()) as int) =~= b);
}

/// A part of a stretch is a stretch.
pub proof fn part_of_stretch(s: Seq<char>, p: int, t: Seq<char>, q: int, n: int, from: int, m: int)
    requires
        same_stretch(s, p, t, q, n),
        0 <= from,
        0 <= m,
        from + m <= n,
    ensures
        same_stretch(s, p + from, t, q + from, m),
{
    assert forall|i: int| p + from <= i < p + from + m implies #[trigger] s[i] == t[i - (p + from)
        + (q + from)] by {
        assert(s[i] == t[i - p + q]);
    }
}

/// The parts of two texts that lie in a stretch are equal.
pub proof fn text_in_stretch(s: Seq<char>, p: int, t: Seq<char>, q: int, n: int, from: int, m: int)
    requires
        same_stretch(s, p, t, q, n),
        0 <= from,
        0 <= m,
        from + m <= n,
    ensures
        s.subrange(p + from, p + from + m) == t.subrange(q + from, q + from + m),
{
    let a = s.subrange(p + from, p + from + m);
    let b = t.subrange(q + from, q + from + m);
    assert forall|i: int| 0 <= i < m implies #[trigger] a[i] == b[i] by {
        assert(s[p + from + i] == t[(p + from + i) - p + q]);
    }
    assert(a =~= b);
}

/// A run that ends inside a stretch is the same run in the other text.
pub proof fn run_is_the_same(
    s: Seq<char>,
    p: int,
    t: Seq<char>,
    q: int,
    n: int,
    from: int,
    member: spec_fn(char) -> bool,
)
    requires
        same_stretch(s, p, t, q, n),
        0 <= from,
        from + run_len(s, p + from, member) < n,
    ensures
        run_len(t, q + from, member) == run_len(s, p + from, member),
{
    let r = run_len(s, p + from, member);
    run_is_maximal(s, p + from, member);
    assert forall|i: int| q + from <= i < q + from + r implies member(#[trigger] t[i]) by {
        assert(s[i - q + p] == t[i]);
    }
    assert(s[p + from + r] == t[q + from + r]);
    run_is_unique(t, q + from, member, r);
}

/// Agreement with a word that is complete inside a stretch is complete in
/// the other text.
pub proof fn agreement_is_the_same(
    s: Seq<char>,
    p: int,
    t: Seq<char>,
    q: int,
    n: int,
    at: int,
    word: Seq<char>,
    from: nat,
)
    requires
        same_stretch(s, p, t, q, n),
        0 <= at,
        from <= word.len(),
        at + word.len() <= n,
        agreement(s, p + at, word, from) == word.len(),
    ensures
        agreement(t, q + at, word, from) == word.len(),
    decreases word.len() - from,
{
    if from < word.len() {
        assert(s[p + at + from] == t[q + at + from]);
        agreement_is_bounded(s, p + at, word, from);
        agreement_is_the_same(s, p, t, q, n, at, word, from + 1);
    }
}

/// A string that is closed inside a stretch is the same string in the other
/// text.
pub proof fn string_is_the_same(s: Seq<char>, p: int, t: Seq<char>, q: int, n: int, at: int)
    requires
        same_stretch(s, p, t, q, n),
        0 <= at,
        string_at(s, p + at) matches Ok((_, end)) && end - p <= n,
    ensures
        string_at(s, p + at) matches Ok((text, end)) && string_at(t, q + at) == Ok::<
            (Seq<char>, int),
            Failure,
        >((text, end - p + q)),
{
    let r = run_len(s, p + at + 1, |c: char| c != '"') as int;
    run_is_maximal(s, p + at + 1, |c: char| c != '"');
    run_is_the_same(s, p, t, q, n, at + 1, |c: char| c != '"');
    text_in_stretch(s, p, t, q, n, at + 1, r);
}

/// A value that is read in one text is read in any text that holds the same
/// characters, at whatever place, provided that what follows them there
/// cannot continue a number.
pub proof fn value_reads_the_same(s: Seq<char>, p: int, t: Seq<char>, q: int)
    requires
        value_at(s, p) matches Ok((_, n)) && same_stretch(s, p, t, q, n as int) && same_sequel(
            s,
            p,
            t,
            q,
            n as int,
        ),
    ensures
        value_at(t, q) == value_at(s, p),
    decreases s.len() - p, 0nat,
{
    let n = value_at(s, p)->Ok_0.1 as int;
    value_lies_in_input(s, p);
    run_is_maximal(s, p, |c: char| is_space(c));
    let k = space_run(s, p) as int;
    let start = p + k;
    let first = s[start];
    if is_digit(first) {
        run_is_maximal(s, start, |c: char| is_numeric(c));
    } else if first == '"' {
        run_is_maximal(s, start + 1, |c: char| c != '"');
    } else if first == '{' {
        members_lie_in_input(s, start + 1, Map::empty());
    } else if first == '[' {
        elements_lie_in_input(s, start + 1, Seq::empty());
    }
    assert(k < n);
    run_is_the_same(s, p, t, q, n, 0, |c: char| is_space(c));
    assert(s[start] == t[q + k]);
    if is_digit(first) {
        let r = run_len(s, start, |c: char| is_numeric(c)) as int;
        assert(k + r == n);
        assert forall|i: int| q + k <= i < q + k + r implies is_numeric(#[trigger] t[i]) by {
            assert(s[i - q + p] == t[i]);
        }
        run_is_unique(t, q + k, |c: char| is_numeric(c), r as nat);
        text_in_stretch(s, p, t, q, n, k, r);
    } else if first == '"' {
        string_is_the_same(s, p, t, q, n, k);
    } else if first == '{' {
        part_of_stretch(s, p, t, q, n, k + 1, n - k - 1);
        members_read_the_same(s, start + 1, t, q + k + 1, Map::empty());
    } else if first == '[' {
        part_of_stretch(s, p, t, q, n, k + 1, n - k - 1);
        elements_read_the_same(s, start + 1, t, q + k + 1, Seq::empty());
    } else if first == 'n' {
        agreement_is_the_same(s, p, t, q, n, k, seq!['n', 'u', 'l', 'l'], 0);
    } else if first == 't' {
        agreement_is_the_same(s, p, t, q, n, k, seq!['t', 'r', 'u', 'e'], 0);
    } else if first == 'f' {
        agreement_is_the_same(s, p, t, q, n, k, seq!['f', 'a', 'l', 's', 'e'], 0);
    }
}

/// The rest of an object that is read in one text is read in any text that
/// holds the same characters, at whatever place.
pub proof fn members_read_the_same(
    s: Seq<char>,
    p: int,
    t: Seq<char>,
    q: int,
    members: Map<Seq<char>, Value>,
)
    requires
        members_at(s, p, members) matches Ok((_, end)) && same_stretch(s, p, t, q, end - p),
    ensures
        members_at(s, p, members) matches Ok((value, end)) && members_at(t, q, members) == Ok::<
            (Value, int),
            Failure,
        >((value, end - p + q)),
    decreases s.len() - p, 1nat,
{
    let end = members_at(s, p, members)->Ok_0.1;
    let n = end - p;
    members_lie_in_input(s, p, members);
    run_is_maximal(s, p, |c: char| is_space(c));
    let k = space_run(s, p) as int;
    let start = p + k;
    if s[start] == '"' {
        let key = string_at(s, start)->Ok_0.0;
        let key_end = string_at(s, start)->Ok_0.1;
        run_is_maximal(s, start + 1, |c: char| c != '"');
        run_is_maximal(s, key_end, |c: char| is_space(c));
        let colon = key_end + space_run(s, key_end);
        value_lies_in_input(s, colon + 1);
        let span = value_at(s, colon + 1)->Ok_0.1 as int;
        let value = value_at(s, colon + 1)->Ok_0.0;
        let comma = colon + 1 + span;
        members_lie_in_input(s, comma + 1, members.insert(key, value));
        assert(comma + 1 < end);
        run_is_the_same(s, p, t, q, n, 0, |c: char| is_space(c));
        assert(s[start] == t[q + k]);
        string_is_the_same(s, p, t, q, n, k);
        run_is_the_same(s, p, t, q, n, key_end - p, |c: char| is_space(c));
        assert(s[colon] == t[colon - p + q]);
        part_of_stretch(s, p, t, q, n, colon + 1 - p, span);
        assert(s[comma] == t[comma - p + q]);
        value_reads_the_same(s, colon + 1, t, colon + 1 - p + q);
        part_of_stretch(s, p, t, q, n, comma + 1 - p, end - comma - 1);
        members_read_the_same(s, comma + 1, t, comma + 1 - p + q, members.insert(key, value));
    } else {
        assert(end == start + 1);
        run_is_the_same(s, p, t, q, n, 0, |c: char| is_space(c));
        assert(s[start] == t[q + k]);
    }
}

/// The rest of an array that is read in one text is read in any text that
/// holds the same characters, at whatever place.
pub proof fn elements_read_the_same(
    s: Seq<char>,
    p: int,
    t: Seq<char>,
    q: int,
    elements: Seq<Value>,
)
    requires
        elements_at(s, p, elements) matches Ok((_, end)) && same_stretch(s, p, t, q, end - p),
    ensures
        elements_at(s, p, elements) matches Ok((value, end)) && elements_at(t, q, elements) == Ok::<
            (Value, int),
            Failure,
        >((value, end - p + q)),
    decreases s.len() - p, 1nat,
{
    let end = elements_at(s, p, elements)->Ok_0.1;
    let n = end - p;
    elements_lie_in_input(s, p, elements);
    run_is_maximal(s, p, |c: char| is_space(c));
    let k = space_run(s, p) as int;
    let start = p + k;
    if s[start] != ']' {
        value_lies_in_input(s, start);
        let span = value_at(s, start)->Ok_0.1 as int;
        let value = value_at(s, start)->Ok_0.0;
        run_is_maximal(s, start + span, |c: char| is_space(c));
        let g = space_run(s, start + span) as int;
        let comma = start + span + g;
        elements_lie_in_input(s, comma + 1, elements.push(value));
        assert(comma + 1 < end);
        run_is_the_same(s, p, t, q, n, 0, |c: char| is_space(c));
        assert(s[start] == t[q + k]);
        part_of_stretch(s, p, t, q, n, k, span);
        assert(s[start + span] == t[q + k + span]);
        value_reads_the_same(s, start, t, q + k);
        run_is_the_same(s, p, t, q, n, k + span, |c: char| is_space(c));
        assert(s[comma] == t[comma - p + q]);
        part_of_stretch(s, p, t, q, n, comma + 1 - p, end - comma - 1);
        elements_read_the_same(s, comma + 1, t, comma + 1 - p + q, elements.push(value));
    } else {
        assert(end == start + 1);
        run_is_the_same(s, p, t, q, n, 0, |c: char| is_space(c));
        assert(s[start] == t[q + k]);
    }
}

} // verus!
