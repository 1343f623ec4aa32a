//! Byte-level helpers shared by the PDF readers: the markers that delimit PDF
//! objects, searching for a marker, cutting out an object's content, and
//! reading the reference that follows a dictionary key.

use vstd::prelude::*;
use vstd::slice::slice_subrange;
use vstd::utf8::{decode_utf8, valid_utf8};

use crate::text::{
    is_white_space, occurs_at, parsed_i64, string_of, trim_back, trim_chars, trim_front, trimmed,
};

verus! {

#[verifier::external_type_specification]
#[verifier::external_body]
pub struct ExIoError(std::io::Error);

// ----- markers -----

/// `obj`
pub open spec fn obj_start_marker() -> Seq<u8> {
    seq![111u8, 98u8, 106u8]
}

/// `endobj`
pub open spec fn obj_end_marker() -> Seq<u8> {
    seq![101u8, 110u8, 100u8, 111u8, 98u8, 106u8]
}

/// `/Catalog`
pub open spec fn catalog_marker() -> Seq<u8> {
    seq![47u8, 67u8, 97u8, 116u8, 97u8, 108u8, 111u8, 103u8]
}

/// `/Pages`
pub open spec fn pages_marker() -> Seq<u8> {
    seq![47u8, 80u8, 97u8, 103u8, 101u8, 115u8]
}

/// `/Page`
pub open spec fn page_marker() -> Seq<u8> {
    seq![47u8, 80u8, 97u8, 103u8, 101u8]
}

/// `/Kids`
pub open spec fn kids_marker() -> Seq<u8> {
    seq![47u8, 75u8, 105u8, 100u8, 115u8]
}

/// `/Count`
pub open spec fn count_marker() -> Seq<u8> {
    seq![47u8, 67u8, 111u8, 117u8, 110u8, 116u8]
}

/// `/Contents`
pub open spec fn contents_marker() -> Seq<u8> {
    seq![47u8, 67u8, 111u8, 110u8, 116u8, 101u8, 110u8, 116u8, 115u8]
}

pub fn obj_start_bytes() -> (m: Vec<u8>)
    ensures
        m@ == obj_start_marker(),
{
    let m = vec![111u8, 98u8, 106u8];
    assert(m@ =~= obj_start_marker());
    m
}

pub fn obj_end_bytes() -> (m: Vec<u8>)
    ensures
        m@ == obj_end_marker(),
{
    let m = vec![101u8, 110u8, 100u8, 111u8, 98u8, 106u8];
    assert(m@ =~= obj_end_marker());
    m
}

pub fn catalog_bytes() -> (m: Vec<u8>)
    ensures
        m@ == catalog_marker(),
{
    let m = vec![47u8, 67u8, 97u8, 116u8, 97u8, 108u8, 111u8, 103u8];
    assert(m@ =~= catalog_marker());
    m
}

pub fn pages_bytes() -> (m: Vec<u8>)
    ensures
        m@ == pages_marker(),
{
    let m = vec![47u8, 80u8, 97u8, 103u8, 101u8, 115u8];
    assert(m@ =~= pages_marker());
    m
}

pub fn page_bytes() -> (m: Vec<u8>)
    ensures
        m@ == page_marker(),
{
    let m = vec![47u8, 80u8, 97u8, 103u8, 101u8];
    assert(m@ =~= page_marker());
    m
}

pub fn kids_bytes() -> (m: Vec<u8>)
    ensures
        m@ == kids_marker(),
{
    let m = vec![47u8, 75u8, 105u8, 100u8, 115u8];
    assert(m@ =~= kids_marker());
    m
}

pub fn count_bytes() -> (m: Vec<u8>)
    ensures
        m@ == count_marker(),
{
    let m = vec![47u8, 67u8, 111u8, 117u8, 110u8, 116u8];
    assert(m@ =~= count_marker());
    m
}

pub fn contents_bytes() -> (m: Vec<u8>)
    ensures
        m@ == contents_marker(),
{
    let m = vec![47u8, 67u8, 111u8, 110u8, 116u8, 101u8, 110u8, 116u8, 115u8];
    assert(m@ =~= contents_marker());
    m
}

// ----- text of bytes -----

/// What `String::from_utf8_lossy` makes of a byte sequence.
pub uninterp spec fn utf8_lossy(bytes: Seq<u8>) -> Seq<char>;

/// `String::from_utf8_lossy`, owned. Its result is named (the rules for
/// replacing ill-formed sequences take pages); on valid UTF-8 it is the
/// decoded text, unchanged, and otherwise each ill-formed sequence is
/// replaced by U+FFFD, so the text holds at least one.
#[verifier::external_body]
fn from_utf8_lossy(bytes: &[u8]) -> (s: String)
    ensures
        s@ == utf8_lossy(bytes@),
        valid_utf8(bytes@) ==> s@ == decode_utf8(bytes@),
        !valid_utf8(bytes@) ==> s@.contains('\u{FFFD}'),
{
    String::from_utf8_lossy(bytes).into_owned()
}

/// The bytes read as UTF-8 (ill-formed sequences replaced), without leading
/// and trailing white space.
pub fn convert_bytes_str(bytes: &[u8]) -> (res: String)
    ensures
        res@ == trimmed(utf8_lossy(bytes@)),
        valid_utf8(bytes@) ==> res@ == trimmed(decode_utf8(bytes@)),
        !valid_utf8(bytes@) ==> res@.contains('\u{FFFD}'),
{
    let s = from_utf8_lossy(bytes);
    proof {
        if !valid_utf8(bytes@) {
            let i = choose|i: int| 0 <= i < s@.len() && s@[i] == '\u{FFFD}';
            crate::text::lemma_trimmed_keeps(s@, i);
        }
    }
    crate::text::trim(s.as_str())
}

/// The `i64` that the bytes write as UTF-8 text, white space around it
/// allowed: what `convert_bytes_str` and `str::parse` make of them.
pub open spec fn decimal_i64(b: Seq<u8>) -> Option<i64> {
    if valid_utf8(b) {
        parsed_i64(trimmed(decode_utf8(b)))
    } else {
        None
    }
}

/// Reading bytes as text and parsing an `i64` from it gives `decimal_i64`.
pub proof fn lemma_decimal_i64(b: Seq<u8>, text: Seq<char>)
    requires
        valid_utf8(b) ==> text == trimmed(decode_utf8(b)),
        !valid_utf8(b) ==> text.contains('\u{FFFD}'),
    ensures
        parsed_i64(text) == decimal_i64(b),
{
    if !valid_utf8(b) {
        let i = choose|i: int| 0 <= i < text.len() && text[i] == '\u{FFFD}';
        crate::text::lemma_parsed_i64_needs_digits(text, i);
    }
}

/// The text that one byte of a line stands for: a byte below 0x80 stands for
/// its ASCII character, except the vertical tab and the form feed, which
/// trimming drops; any other byte, and a read error, stand for nothing.
pub open spec fn byte_text(byte: std::io::Result<u8>) -> Seq<char> {
    match byte {
        Ok(b) => if b < 128 && b != 11 && b != 12 {
            seq![b as char]
        } else {
            Seq::empty()
        },
        Err(_) => Seq::empty(),
    }
}

/// The text of one byte read from a file: line breaks, tabs and spaces as
/// they are, other ASCII bytes as their character once trimmed, nothing for
/// a byte that is not UTF-8 by itself or for a read error.
pub fn convert_byte_str(byte: std::io::Result<u8>) -> (res: String)
    ensures
        res@ == byte_text(byte),
{
    match byte {
        Ok(b) => {
            if b == 10 || b == 13 || b == 9 || b == 32 {
                let v = vec![b as char];
                assert(v@ =~= seq![b as char]);
                return string_of(v.as_slice());
            }
            if b < 128 {
                let v = vec![b as char];
                let t = trim_chars(v.as_slice());
                proof {
                    let s = v@;
                    assert(s.len() == 1);
                    assert(is_white_space(s[0]) <==> (b == 11 || b == 12));
                    assert(s =~= seq![b as char]);
                    if is_white_space(s[0]) {
                        assert(s.drop_first() =~= Seq::<char>::empty());
                        assert(trim_front(s.drop_first()) == s.drop_first());
                        assert(trim_back(s.drop_first()) == s.drop_first());
                    } else {
                        assert(trim_front(s) == s);
                        assert(s.last() == s[0]);
                        assert(trim_back(s) == s);
                    }
                }
                string_of(t.as_slice())
            } else {
                String::new()
            }
        },
        Err(_) => String::new(),
    }
}

/// Whether a byte read from a file is a line feed.
pub fn is_new_ln(byte: &std::io::Result<u8>) -> (res: bool)
    ensures
        res == (*byte matches Ok(b) && b == 10u8),
{
    match byte {
        Ok(b) => *b == 10u8,
        Err(_) => false,
    }
}

// ----- searching for a marker -----

/// The first index at or after `i` where `p` occurs in `s`.
pub open spec fn first_occurrence_from(s: Seq<u8>, p: Seq<u8>, i: int) -> Option<int>
    decreases s.len() + 1 - i,
{
    if i < 0 || i + p.len() > s.len() {
        None
    } else if occurs_at(s, p, i) {
        Some(i)
    } else {
        first_occurrence_from(s, p, i + 1)
    }
}

/// The first index where `p` occurs in `s`.
pub open spec fn first_occurrence(s: Seq<u8>, p: Seq<u8>) -> Option<int> {
    first_occurrence_from(s, p, 0)
}

/// Whether `p` occurs in `s` at index `i`.
fn bytes_occur_at(s: &[u8], p: &[u8], i: usize) -> (res: bool)
    ensures
        res == occurs_at(s@, p@, i as int),
{
    if i > s.len() || p.len() > s.len() - i {
        return false;
    }
    let m = p.len();
    let sl = s.len();
    let mut k: usize = 0;
    while k < m
        invariant
            m == p@.len(),
            sl == s@.len(),
            i + p@.len() <= s@.len(),
            k <= p@.len(),
            forall|t: int| 0 <= t < k ==> s@[i + t] == p@[t],
        decreases m - k,
    {
        if s[i + k] != p[k] {
            assert(s@.subrange(i as int, i + p@.len())[k as int] != p@[k as int]);
            return false;
        }
        k = k + 1;
    }
    assert(s@.subrange(i as int, i + p@.len()) =~= p@);
    true
}

/// The index of the first occurrence of `marker` in `bytes`.
pub fn get_pos_by_markers(bytes: &[u8], marker: &[u8]) -> (res: Option<usize>)
    requires
        marker@.len() > 0,
    ensures
        match res {
            Some(i) => first_occurrence(bytes@, marker@) == Some(i as int),
            None => first_occurrence(bytes@, marker@) is None,
        },
{
    let n = bytes.len();
    let m = marker.len();
    if m > n {
        return None;
    }
    let mut i: usize = 0;
    while i <= n - m
        invariant
            m == marker@.len(),
            n == bytes@.len(),
            m > 0,
            m <= n,
            i + m <= n + 1,
            first_occurrence(bytes@, marker@) == first_occurrence_from(bytes@, marker@, i as int),
        decreases n + 1 - i - m,
    {
        if bytes_occur_at(bytes, marker, i) {
            return Some(i);
        }
        i = i + 1;
    }
    None
}

/// The bytes strictly between the first `obj` and the first `endobj` after it.
pub open spec fn obj_content(b: Seq<u8>) -> Option<Seq<u8>> {
    match first_occurrence(b, obj_start_marker()) {
        None => None,
        Some(i) => {
            let start = i + obj_start_marker().len();
            match first_occurrence(b.subrange(start, b.len() as int), obj_end_marker()) {
                None => None,
                Some(j) => Some(b.subrange(start, start + j)),
            }
        },
    }
}

pub proof fn lemma_first_occurrence_from_bounds(s: Seq<u8>, p: Seq<u8>, i: int)
    ensures
        first_occurrence_from(s, p, i) matches Some(k) ==> i <= k && occurs_at(s, p, k),
    decreases s.len() + 1 - i,
{
    if !(i < 0 || i + p.len() > s.len()) && !occurs_at(s, p, i) {
        lemma_first_occurrence_from_bounds(s, p, i + 1);
    }
}

/// The content of the first object: what lies between `obj` and `endobj`.
pub fn extract_obj_content(bytes: &[u8]) -> (res: Option<&[u8]>)
    ensures
        match res {
            Some(c) => obj_content(bytes@) == Some(c@),
            None => obj_content(bytes@) is None,
        },
{
    let start_marker = obj_start_bytes();
    let end_marker = obj_end_bytes();
    let found = get_pos_by_markers(bytes, start_marker.as_slice())?;
    proof {
        lemma_first_occurrence_from_bounds(bytes@, obj_start_marker(), 0);
    }
    let n = bytes.len();
    assert(found + obj_start_marker().len() <= n);
    let content_start = found + start_marker.len();
    let rest = slice_subrange(bytes, content_start, bytes.len());
    let offset = get_pos_by_markers(rest, end_marker.as_slice())?;
    proof {
        lemma_first_occurrence_from_bounds(rest@, obj_end_marker(), 0);
    }
    let content_end = content_start + offset;
    Some(slice_subrange(bytes, content_start, content_end))
}

// ----- flattening -----

/// Line feeds and angle brackets become spaces; other bytes stay.
pub open spec fn flatten_byte(b: u8) -> u8 {
    if b == 10 || b == 60 || b == 62 {
        32
    } else {
        b
    }
}

/// The bytes with every line feed, `<` and `>` made a space.
pub open spec fn flattened(b: Seq<u8>) -> Seq<u8> {
    b.map_values(|x: u8| flatten_byte(x))
}

/// The bytes with line feeds, `<` and `>` turned into spaces.
pub fn flatten_objs(bytes: &[u8]) -> (res: Vec<u8>)
    ensures
        res@ == flattened(bytes@),
{
    let n = bytes.len();
    let mut res: Vec<u8> = Vec::new();
    let mut i: usize = 0;
    while i < n
        invariant
            i <= n,
            n == bytes@.len(),
            res@ == bytes@.subrange(0, i as int).map_values(|b: u8| flatten_byte(b)),
        decreases n - i,
    {
        let b = bytes[i];
        let f = if b == 10 || b == 60 || b == 62 {
            32u8
        } else {
            b
        };
        res.push(f);
        assert(res@ =~= bytes@.subrange(0, i + 1).map_values(|b: u8| flatten_byte(b)));
        i = i + 1;
    }
    assert(bytes@.subrange(0, n as int) =~= bytes@);
    res
}

// ----- the reference after a key -----

/// A line feed or a space.
pub open spec fn is_blank(b: u8) -> bool {
    b == 10 || b == 32
}

/// The first index at or after `i` that does not hold a blank (or the end).
pub open spec fn skip_blanks(s: Seq<u8>, i: int) -> int
    decreases s.len() - i,
{
    if 0 <= i < s.len() && is_blank(s[i]) {
        skip_blanks(s, i + 1)
    } else {
        i
    }
}

/// The first index at or after `i` that holds a `/` (or the end).
pub open spec fn next_slash(s: Seq<u8>, i: int) -> int
    decreases s.len() - i,
{
    if 0 <= i < s.len() && s[i] != 47 {
        next_slash(s, i + 1)
    } else {
        i
    }
}

/// The value that follows a key at `pos`: blanks skipped, then everything up
/// to the next `/` or the end.
pub open spec fn ref_bytes(s: Seq<u8>, pos: int) -> Seq<u8> {
    let q = skip_blanks(s, pos);
    if q >= s.len() {
        Seq::empty()
    } else {
        s.subrange(q, next_slash(s, q))
    }
}

pub proof fn lemma_skip_blanks_bounds(s: Seq<u8>, i: int)
    requires
        0 <= i,
    ensures
        i <= skip_blanks(s, i),
        i <= s.len() ==> skip_blanks(s, i) <= s.len(),
        skip_blanks(s, i) < s.len() ==> !is_blank(s[skip_blanks(s, i)]),
        forall|k: int| i <= k < skip_blanks(s, i) ==> is_blank(#[trigger] s[k]),
    decreases s.len() - i,
{
    if 0 <= i < s.len() && is_blank(s[i]) {
        lemma_skip_blanks_bounds(s, i + 1);
    }
}

pub proof fn lemma_next_slash_bounds(s: Seq<u8>, i: int)
    requires
        0 <= i <= s.len(),
    ensures
        i <= next_slash(s, i) <= s.len(),
        next_slash(s, i) < s.len() ==> s[next_slash(s, i)] == 47,
        forall|k: int| i <= k < next_slash(s, i) ==> #[trigger] s[k] != 47,
    decreases s.len() - i,
{
    if 0 <= i < s.len() && s[i] != 47 {
        lemma_next_slash_bounds(s, i + 1);
    }
}

/// Appends to `child_obj_bytes` the value that follows a key at
/// `child_type_pos`: blanks (line feeds, spaces) skipped, then the bytes up to
/// the next `/` or the end of `bytes`.
pub fn get_ref_bytes(bytes: &[u8], child_type_pos: usize, child_obj_bytes: &mut Vec<u8>)
    ensures
        final(child_obj_bytes)@ == old(child_obj_bytes)@ + ref_bytes(bytes@, child_type_pos as int),
{
    let n = bytes.len();
    let mut pos = child_type_pos;
    while pos < n && (bytes[pos] == 10 || bytes[pos] == 32)
        invariant
            n == bytes@.len(),
            child_type_pos <= pos,
            pos > n ==> pos == child_type_pos,
            skip_blanks(bytes@, child_type_pos as int) == skip_blanks(bytes@, pos as int),
            *child_obj_bytes == *old(child_obj_bytes),
        decreases n - pos,
    {
        pos = pos + 1;
    }
    if pos >= n {
        assert(ref_bytes(bytes@, child_type_pos as int) =~= Seq::<u8>::empty());
        return;
    }
    let q = pos;
    let ghost base = child_obj_bytes@;
    proof {
        lemma_next_slash_bounds(bytes@, q as int);
    }
    while pos < n && bytes[pos] != 47
        invariant
            n == bytes@.len(),
            q <= pos <= n,
            next_slash(bytes@, q as int) == next_slash(bytes@, pos as int),
            child_obj_bytes@ == base + bytes@.subrange(q as int, pos as int),
            base == old(child_obj_bytes)@,
            skip_blanks(bytes@, child_type_pos as int) == q,
            q < n,
        decreases n - pos,
    {
        child_obj_bytes.push(bytes[pos]);
        assert(child_obj_bytes@ =~= base + bytes@.subrange(q as int, pos + 1));
        pos = pos + 1;
    }
}

// ----- laws -----

pub proof fn lemma_first_occurrence_from_is_first(s: Seq<u8>, p: Seq<u8>, i: int)
    requires
        0 <= i,
    ensures
        first_occurrence_from(s, p, i) matches Some(k) ==> occurs_at(s, p, k) && forall|j: int|
            i <= j < k ==> !occurs_at(s, p, j),
        first_occurrence_from(s, p, i) is None ==> forall|j: int| i <= j ==> !occurs_at(s, p, j),
    decreases s.len() + 1 - i,
{
    if !(i + p.len() > s.len()) && !occurs_at(s, p, i) {
        lemma_first_occurrence_from_is_first(s, p, i + 1);
        assert forall|j: int| i <= j && !(i + 1 <= j) implies !occurs_at(s, p, j) by {
            assert(j == i);
        }
    }
}

/// The index `get_pos_by_markers` reports is an occurrence of the marker and
/// no earlier index is one; when it reports none, the marker occurs nowhere.
pub proof fn lemma_first_occurrence_is_first(s: Seq<u8>, p: Seq<u8>)
    ensures
        first_occurrence(s, p) matches Some(i) ==> occurs_at(s, p, i) && forall|j: int|
            0 <= j < i ==> !occurs_at(s, p, j),
        first_occurrence(s, p) is None ==> forall|j: int| !occurs_at(s, p, j),
{
    lemma_first_occurrence_from_is_first(s, p, 0);
}

/// The text of a byte is at most one ASCII character, and it is a line
/// break exactly for a line feed.
pub proof fn lemma_byte_text(byte: std::io::Result<u8>)
    ensures
        (byte_text(byte) == seq!['\n']) <==> (byte matches Ok(b) && b == 10u8),
        vstd::utf8::is_ascii_chars(byte_text(byte)),
        byte_text(byte).len() <= 1,
{
    match byte {
        Ok(b) => {
            if b < 128 && b != 11 && b != 12 {
                let t = byte_text(byte);
                assert(t.len() == 1);
                if t == seq!['\n'] {
                    assert(t[0] == '\n');
                    assert((b as char) as u32 == b as u32);
                }
            }
        },
        Err(_) => {
            assert(byte_text(byte).len() == 0);
        },
    }
}

/// The content of an object lies right after an `obj` and right before an
/// `endobj`.
pub proof fn lemma_obj_content_between_markers(b: Seq<u8>)
    ensures
        obj_content(b) matches Some(c) ==> {
            &&& first_occurrence(b, obj_start_marker()) matches Some(i)
            &&& occurs_at(b, obj_start_marker(), i)
            &&& b.subrange(i + 3, i + 3 + c.len()) == c
            &&& occurs_at(b, obj_end_marker(), i + 3 + c.len())
        },
{
    if let Some(c) = obj_content(b) {
        let i = first_occurrence(b, obj_start_marker())->0;
        lemma_first_occurrence_from_bounds(b, obj_start_marker(), 0);
        let rest = b.subrange(i + 3, b.len() as int);
        let j = first_occurrence(rest, obj_end_marker())->0;
        lemma_first_occurrence_from_bounds(rest, obj_end_marker(), 0);
        assert(b.subrange(i + 3 + j, i + 3 + j + 6) =~= rest.subrange(j, j + 6));
        assert(c.len() == j);
    }
}

/// Flattening keeps the length, leaves no line feed or angle bracket, and
/// flattening again changes nothing.
pub proof fn lemma_flatten(b: Seq<u8>)
    ensures
        flattened(b).len() == b.len(),
        forall|k: int|
            0 <= k < b.len() ==> #[trigger] flattened(b)[k] != 10 && flattened(b)[k] != 60
                && flattened(b)[k] != 62,
        flattened(flattened(b)) == flattened(b),
{
    assert(flattened(flattened(b)) =~= flattened(b));
}

pub proof fn lemma_next_slash_in_bounds(s: Seq<u8>, i: int)
    requires
        0 <= i <= s.len(),
    ensures
        i <= next_slash(s, i) <= s.len(),
        forall|k: int| i <= k < next_slash(s, i) ==> #[trigger] s[k] != 47,
{
    lemma_next_slash_bounds(s, i);
}

/// The value read after a key is a piece of the bytes at or after the key's
/// end that holds no `/` and does not start with a line feed or a space.
pub proof fn lemma_ref_bytes_shape(s: Seq<u8>, pos: int)
    requires
        0 <= pos,
    ensures
        forall|k: int| 0 <= k < ref_bytes(s, pos).len() ==> #[trigger] ref_bytes(s, pos)[k] != 47,
        ref_bytes(s, pos).len() > 0 ==> !is_blank(ref_bytes(s, pos)[0]),
        ref_bytes(s, pos).len() > 0 ==> {
            let a = skip_blanks(s, pos);
            &&& pos <= a
            &&& a + ref_bytes(s, pos).len() <= s.len()
            &&& s.subrange(a, a + ref_bytes(s, pos).len()) == ref_bytes(s, pos)
        },
{
    lemma_skip_blanks_bounds(s, pos);
    let q = skip_blanks(s, pos);
    if q < s.len() {
        lemma_next_slash_bounds(s, q);
        let r = ref_bytes(s, pos);
        assert forall|k: int| 0 <= k < r.len() implies #[trigger] r[k] != 47 by {
            assert(r[k] == s[q + k]);
        }
        assert(s.subrange(q, q + r.len()) == r);
    }
}

} // verus!
