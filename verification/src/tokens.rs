//! Token limits and the caller's token counter.

use vstd::prelude::*;
use crate::text::string_of;

verus! {

/// A slice is flushed once it holds at least this many tokens.
pub const MIN_TOKENS: usize = 128;

/// Text of at most this many tokens is kept in one piece.
pub const MAX_TOKENS: usize = 254;

/// The counter may be called on every string.
pub open spec fn callable<F: Fn(&str) -> usize>(f: F) -> bool {
    forall|s: &str| #[trigger] call_requires(f, (s,))
}

/// The counter gives equal counts for equal texts.
pub open spec fn deterministic<F: Fn(&str) -> usize>(f: F) -> bool {
    forall|x: &str, y: &str, r1: usize, r2: usize|
        #![trigger call_ensures(f, (x,), r1), call_ensures(f, (y,), r2)]
        x@ == y@ && call_ensures(f, (x,), r1) && call_ensures(f, (y,), r2) ==> r1 == r2
}

/// The counter can return `r` for a text with the characters `s`.
pub open spec fn counts_as<F: Fn(&str) -> usize>(f: F, s: Seq<char>, r: usize) -> bool {
    exists|x: &str| x@ == s && #[trigger] call_ensures(f, (x,), r)
}

/// The count that the counter gives for a text with the characters `s`.
pub open spec fn token_count<F: Fn(&str) -> usize>(f: F, s: Seq<char>) -> int {
    (choose|r: usize| #[trigger] counts_as(f, s, r)) as int
}

/// The counter as a function on character sequences.
pub open spec fn token_fn<F: Fn(&str) -> usize>(f: F) -> spec_fn(Seq<char>) -> int {
    |s: Seq<char>| token_count(f, s)
}

proof fn lemma_token_count<F: Fn(&str) -> usize>(f: F, x: &str, r: usize)
    requires
        deterministic(f),
        call_ensures(f, (x,), r),
    ensures
        token_count(f, x@) == r,
{
    assert(counts_as(f, x@, r));
    let r2 = choose|r2: usize| #[trigger] counts_as(f, x@, r2);
    let y = choose|y: &str| y@ == x@ && #[trigger] call_ensures(f, (y,), r2);
    assert(call_ensures(f, (y,), r2));
}

/// Counts the tokens of `text` with `f`.
pub fn count_tokens_of<F: Fn(&str) -> usize>(f: &F, text: &Vec<char>) -> (r: usize)
    requires
        callable(*f),
    ensures
        counts_as(*f, text@, r),
        deterministic(*f) ==> r == (token_fn(*f))(text@),
{
    let s = string_of(text);
    let st = s.as_str();
    let r: usize = f(st);
    assert(counts_as(*f, text@, r));
    proof {
        if deterministic(*f) {
            lemma_token_count(*f, st, r);
        }
    }
    r
}

} // verus!
