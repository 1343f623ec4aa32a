//! What the program does with a path given on the command line.

use vstd::prelude::*;

use crate::text::{contains, contains_seq};

verus! {

/// What is done with a path that is not a directory.
#[derive(Debug, PartialEq, Eq, Structural, Clone, Copy)]
pub enum FileAction {
    /// Read it as a PDF file.
    ReadPdf,
    /// Search its lines for the pattern.
    SearchText,
    /// Leave it alone.
    Ignore,
}

/// A path whose file name contains `.pdf` is read as a PDF file; a path with
/// another file name is left alone; a path without a file name (one that
/// ends in `..`) is searched as text.
pub fn file_action(file_name: Option<&str>) -> (res: FileAction)
    ensures
        res == match file_name {
            Some(name) => if contains_seq(name@, ".pdf"@) {
                FileAction::ReadPdf
            } else {
                FileAction::Ignore
            },
            None => FileAction::SearchText,
        },
{
    match file_name {
        Some(name) => if contains(name, ".pdf") {
            FileAction::ReadPdf
        } else {
            FileAction::Ignore
        },
        None => FileAction::SearchText,
    }
}

} // verus!
