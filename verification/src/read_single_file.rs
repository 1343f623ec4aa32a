//! Searching one file.

use vstd::prelude::*;

use crate::text::{contains, contains_seq, lowercase_of, to_lowercase};

verus! {

/// Whether a line of a file is shown: its lower-cased text contains the
/// lower-cased pattern.
pub fn file_line_matches(text: &str, pattern: &str) -> (res: bool)
    ensures
        res == contains_seq(lowercase_of(text@), lowercase_of(pattern@)),
{
    let lower = to_lowercase(text);
    let lower_pattern = to_lowercase(pattern);
    contains(lower.as_str(), lower_pattern.as_str())
}

} // verus!
