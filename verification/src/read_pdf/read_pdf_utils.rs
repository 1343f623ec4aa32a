//! The header line of a PDF file (`%PDF-1.4`).

use vstd::prelude::*;
use vstd::utf8::{decode_utf8, valid_utf8};

use crate::text::{split_chars, split_on, strings_of, strings_view};

verus! {

/// `std::str::from_utf8`, owned: the decoded text exactly when the bytes are
/// valid UTF-8.
#[verifier::external_body]
fn utf8_text(bytes: &[u8]) -> (res: Option<String>)
    ensures
        res is Some <==> valid_utf8(bytes@),
        res matches Some(s) ==> s@ == decode_utf8(bytes@),
{
    std::str::from_utf8(bytes).ok().map(|s| s.to_string())
}

/// The first index at or after `i` that holds a line feed (or the end).
pub open spec fn line_end(b: Seq<u8>, i: int) -> int
    decreases b.len() - i,
{
    if 0 <= i < b.len() && b[i] != 10 {
        line_end(b, i + 1)
    } else {
        i
    }
}

/// The bytes before the first line feed.
pub open spec fn first_line(b: Seq<u8>) -> Seq<u8> {
    b.subrange(0, line_end(b, 0))
}

/// The `-`-separated fields of the first line, read as UTF-8; `None` for no
/// bytes or a first line that is not UTF-8.
pub open spec fn header_fields(b: Seq<u8>) -> Option<Seq<Seq<char>>> {
    if b.len() == 0 {
        None
    } else if valid_utf8(first_line(b)) {
        Some(split_on(decode_utf8(first_line(b)), '-'))
    } else {
        None
    }
}

/// The `-`-separated fields of the header line: for `%PDF-1.4` they are
/// `%PDF` and `1.4`, the version.
pub fn pdf_header_fields(bytes: &[u8]) -> (res: Option<Vec<String>>)
    ensures
        match res {
            Some(fields) => header_fields(bytes@) == Some(strings_view(fields@)),
            None => header_fields(bytes@) is None,
        },
{
    let n = bytes.len();
    if n == 0 {
        return None;
    }
    let mut first_line_bytes: Vec<u8> = Vec::new();
    let mut i: usize = 0;
    while i < n && bytes[i] != 10
        invariant
            i <= n,
            n == bytes@.len(),
            line_end(bytes@, 0) == line_end(bytes@, i as int),
            first_line_bytes@ == bytes@.subrange(0, i as int),
        decreases n - i,
    {
        first_line_bytes.push(bytes[i]);
        assert(first_line_bytes@ =~= bytes@.subrange(0, i + 1));
        i = i + 1;
    }
    let first = utf8_text(first_line_bytes.as_slice())?;
    let chars = crate::text::chars_of(first.as_str());
    let pieces = split_chars(chars.as_slice(), '-');
    Some(strings_of(&pieces))
}

} // verus!
