//! Runs of characters: how far a run reaches and what bounds it.

use vstd::prelude::*;
use crate::grammar::{agreement, run_len};

verus! {

/// A run ends inside the input, holds only members, and is not followed by
/// one.
pub proof fn run_is_maximal(s: Seq<char>, pos: int, member: spec_fn(char) -> bool)
    requires
        0 <= pos <= s.len(),
    ensures
        pos + run_len(s, pos, member) <= s.len(),
        forall|i: int| pos <= i < pos + run_len(s, pos, member) ==> member(#[trigger] s[i]),
        pos + run_len(s, pos, member) < s.len() ==> !member(s[pos + run_len(s, pos, member)]),
    decreases s.len() - pos,
{
    if pos < s.len() && member(s[pos]) {
        run_is_maximal(s, pos + 1, member);
    }
}

/// A stretch of members that is not followed by one is the run.
pub proof fn run_is_unique(s: Seq<char>, pos: int, member: spec_fn(char) -> bool, n: nat)
    requires
        0 <= pos,
        pos + n <= s.len(),
        forall|i: int| pos <= i < pos + n ==> member(#[trigger] s[i]),
        pos + n < s.len() ==> !member(s[pos + n]),
    ensures
        run_len(s, pos, member) == n,
    decreases n,
{
    if n > 0 {
        assert(member(s[pos]));
        run_is_unique(s, pos + 1, member, (n - 1) as nat);
    }
}

/// Agreement with a word never runs past the word or past the input.
pub proof fn agreement_is_bounded(s: Seq<char>, pos: int, word: Seq<char>, from: nat)
    requires
        0 <= pos,
        from <= word.len(),
        pos + from <= s.len(),
    ensures
        from <= agreement(s, pos, word, from) <= word.len(),
        pos + agreement(s, pos, word, from) <= s.len(),
    decreases word.len() - from,
{
    if from < word.len() && pos + from < s.len() && s[pos + from] == word[from as int] {
        agreement_is_bounded(s, pos, word, from + 1);
    }
}

} // verus!
