//! The shell-style word splitting that commit arguments and quoted diff
//! headers go through, provided by the `shell_words` crate.

use vstd::prelude::*;

verus! {

/// What `shell_words::split` returns for `line`: its words, or `None` where it
/// reports a missing closing quote.
pub uninterp spec fn shell_words_split(line: Seq<char>) -> Option<Seq<Seq<char>>>;

/// Calls `shell_words::split`. The contract claims only that the result is
/// the named function of the input, with its error mapped to `None`.
#[verifier::external_body]
pub fn shell_split(line: &str) -> (r: Option<Vec<String>>)
    ensures
        match r {
            Some(words) => shell_words_split(line@) == Some(words.deep_view()),
            None => shell_words_split(line@) is None,
        },
{
    shell_words::split(line).ok()
}

} // verus!
