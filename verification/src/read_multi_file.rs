//! Searching a directory.

use vstd::prelude::*;

use crate::text::{occurs_at, starts_with};

verus! {

/// Whether a directory entry is searched: it is a file whose name does not
/// start with a dot.
pub fn is_listed_file(is_file: bool, file_name: &str) -> (res: bool)
    ensures
        res == (is_file && !occurs_at(file_name@, "."@, 0)),
{
    is_file && !starts_with(file_name, ".")
}

} // verus!
