use vstd::prelude::*;
use vstd::string::StrSliceExecFns;

verus! {

/// Number of characters that make up one token in the rough estimate.
pub const CHARS_PER_TOKEN: usize = 4;

/// Rough token estimate of a text: one token for every four characters,
/// rounded down. The count is in characters, not bytes.
pub open spec fn spec_approx_tokens(text: Seq<char>) -> nat {
    text.len() / 4
}

/// Estimates how many tokens `s` amounts to.
pub fn approx_tokens(s: &str) -> (tokens: usize)
    ensures
        tokens == spec_approx_tokens(s@),
        tokens * 4 <= s@.len() < tokens * 4 + 4,
{
    s.unicode_len() / CHARS_PER_TOKEN
}

/// An optional index as a mathematical integer.
pub open spec fn index_value(index: Option<usize>) -> Option<int> {
    match index {
        Some(i) => Some(i as int),
        None => None,
    }
}

} // verus!
