//! Searching standard input.

use vstd::prelude::*;

use crate::text::{contains, contains_seq, lowercase_of, to_lowercase};

verus! {

/// Whether a line of standard input is shown: its lower-cased text contains
/// the pattern, taken as it is given.
pub fn stdin_line_matches(text: &str, pattern: &str) -> (res: bool)
    ensures
        res == contains_seq(lowercase_of(text@), pattern@),
{
    let lower = to_lowercase(text);
    contains(lower.as_str(), pattern)
}

} // verus!
