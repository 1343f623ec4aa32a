//! Reading a content object's stream dictionary: its text, the `/Length` of
//! the stream, and the names of its `/Filter` (one name, or an array).
//!
//! What a reader of the object is told comes back as a `ContentReport`, in
//! the order it is learnt: the dictionary text, the length, a missing bracket
//! of the filter array, and the filter names.

use vstd::prelude::*;
use vstd::slice::slice_subrange;

use crate::text::{
    chars_of, parse_i64, parsed_i64, remove_all, remove_all_chars, split_chars, split_on,
    string_of, strings_of, strings_view, trim_chars, trimmed,
};
use crate::utils::{
    convert_bytes_str, decimal_i64, extract_obj_content, first_occurrence, flatten_objs, flattened,
    get_pos_by_markers, get_ref_bytes, lemma_first_occurrence_from_bounds, obj_content, ref_bytes,
    utf8_lossy,
};

verus! {

// ----- markers -----

/// `<<`
pub open spec fn dict_start_marker() -> Seq<u8> {
    seq![60u8, 60u8]
}

/// `>>`
pub open spec fn dict_end_marker() -> Seq<u8> {
    seq![62u8, 62u8]
}

/// `/Length`
pub open spec fn length_marker() -> Seq<u8> {
    seq![47u8, 76u8, 101u8, 110u8, 103u8, 116u8, 104u8]
}

/// `/Filter`
pub open spec fn filter_marker() -> Seq<u8> {
    seq![47u8, 70u8, 105u8, 108u8, 116u8, 101u8, 114u8]
}

/// `[`
pub open spec fn array_start_marker() -> Seq<u8> {
    seq![91u8]
}

/// `]`
pub open spec fn array_end_marker() -> Seq<u8> {
    seq![93u8]
}

fn marker(m: &[u8]) -> (res: Vec<u8>)
    ensures
        res@ == m@,
{
    vstd::slice::slice_to_vec(m)
}

// ----- the dictionary -----

/// The bytes between the first `<<` and the first `>>`.
pub open spec fn dictionary_of(b: Seq<u8>) -> Option<Seq<u8>> {
    match (first_occurrence(b, dict_start_marker()), first_occurrence(b, dict_end_marker())) {
        (Some(s), Some(e)) => Some(b.subrange(s + 2, e)),
        _ => None,
    }
}

/// The first `>>` comes before the end of the first `<<`, so there is no
/// range between them.
pub open spec fn dictionary_unreadable(b: Seq<u8>) -> bool {
    &&& first_occurrence(b, dict_start_marker()) matches Some(s)
    &&& first_occurrence(b, dict_end_marker()) matches Some(e)
    &&& e < s + 2
}

/// The bytes between the first `<<` and the first `>>`.
pub fn get_dictionary(bytes: &[u8]) -> (res: Option<&[u8]>)
    requires
        !dictionary_unreadable(bytes@),
    ensures
        match res {
            Some(d) => dictionary_of(bytes@) == Some(d@),
            None => dictionary_of(bytes@) is None,
        },
{
    let open = marker(&[60u8, 60u8]);
    let close = marker(&[62u8, 62u8]);
    assert(open@ =~= dict_start_marker());
    assert(close@ =~= dict_end_marker());
    let found = get_pos_by_markers(bytes, open.as_slice())?;
    proof {
        lemma_first_occurrence_from_bounds(bytes@, dict_start_marker(), 0);
    }
    let n = bytes.len();
    let dict_start_pos = found + open.len();
    let dict_end_pos = get_pos_by_markers(bytes, close.as_slice())?;
    proof {
        lemma_first_occurrence_from_bounds(bytes@, dict_end_marker(), 0);
    }
    Some(slice_subrange(bytes, dict_start_pos, dict_end_pos))
}

/// Where a key of the dictionary starts.
pub fn check_dictionary(bytes: &[u8], dict_type: &[u8]) -> (res: Option<usize>)
    requires
        dict_type@.len() > 0,
    ensures
        match res {
            Some(i) => first_occurrence(bytes@, dict_type@) == Some(i as int),
            None => first_occurrence(bytes@, dict_type@) is None,
        },
{
    get_pos_by_markers(bytes, dict_type)
}

// ----- the filter names -----

/// What went wrong reading a filter array.
#[derive(Debug, PartialEq, Eq, Structural, Clone, Copy)]
pub enum DecodeArrayIssue {
    /// There is no `[`.
    StartNotFound,
    /// There is no `]`.
    EndNotFound,
}

/// The names in the first `[` ... `]` of the bytes: the text from `[` up to
/// `]` read as UTF-8 and trimmed, with line feeds, brackets and slashes taken
/// out, trimmed again, and split at each space.
pub open spec fn decode_types_outcome(b: Seq<u8>) -> Result<Seq<Seq<char>>, DecodeArrayIssue> {
    match first_occurrence(b, array_start_marker()) {
        None => Err(DecodeArrayIssue::StartNotFound),
        Some(s) => match first_occurrence(b, array_end_marker()) {
            None => Err(DecodeArrayIssue::EndNotFound),
            Some(e) => {
                let text = trimmed(utf8_lossy(b.subrange(s, e)));
                let cleaned = remove_all(
                    remove_all(remove_all(remove_all(text, seq!['\n']), seq!['[']), seq![']']),
                    seq!['/'],
                );
                Ok(split_on(trimmed(cleaned), ' '))
            },
        },
    }
}

/// The first `]` comes before the first `[`.
pub open spec fn decode_types_unreadable(b: Seq<u8>) -> bool {
    &&& first_occurrence(b, array_start_marker()) matches Some(s)
    &&& first_occurrence(b, array_end_marker()) matches Some(e)
    &&& e < s
}

fn remove_char(v: &Vec<char>, c: char) -> (res: Vec<char>)
    ensures
        res@ == remove_all(v@, seq![c]),
{
    let p = vec![c];
    assert(p@ =~= seq![c]);
    remove_all_chars(v.as_slice(), p.as_slice())
}

/// Appends the names of the filter array to `decode_dict`; when a bracket is
/// missing, nothing is appended and the issue is returned.
pub fn extract_decode_types(bytes: &[u8], filter_pos: usize, decode_dict: &mut Vec<String>) -> (res:
    Option<DecodeArrayIssue>)
    requires
        !decode_types_unreadable(bytes@),
    ensures
        match decode_types_outcome(bytes@) {
            Ok(names) => res is None && strings_view(final(decode_dict)@) == strings_view(
                old(decode_dict)@,
            ) + names,
            Err(issue) => res == Some(issue) && final(decode_dict)@ == old(decode_dict)@,
        },
{
    let open = marker(&[91u8]);
    let close = marker(&[93u8]);
    assert(open@ =~= array_start_marker());
    assert(close@ =~= array_end_marker());
    let decode_dict_start_pos = match get_pos_by_markers(bytes, open.as_slice()) {
        Some(pos) => pos,
        None => {
            return Some(DecodeArrayIssue::StartNotFound);
        },
    };
    let decode_dict_end_pos = match get_pos_by_markers(bytes, close.as_slice()) {
        Some(pos) => pos,
        None => {
            return Some(DecodeArrayIssue::EndNotFound);
        },
    };
    proof {
        lemma_first_occurrence_from_bounds(bytes@, array_start_marker(), 0);
        lemma_first_occurrence_from_bounds(bytes@, array_end_marker(), 0);
    }
    let filter_bytes = slice_subrange(bytes, decode_dict_start_pos, decode_dict_end_pos);
    let text = convert_bytes_str(filter_bytes);
    let chars = chars_of(text.as_str());
    let no_newline = remove_char(&chars, '\n');
    let no_open = remove_char(&no_newline, '[');
    let no_close = remove_char(&no_open, ']');
    let no_slash = remove_char(&no_close, '/');
    let cleaned = trim_chars(no_slash.as_slice());
    let pieces = split_chars(cleaned.as_slice(), ' ');
    let names = strings_of(&pieces);
    let ghost before = decode_dict@;
    let mut i: usize = 0;
    while i < names.len()
        invariant
            i <= names@.len(),
            strings_view(decode_dict@) == strings_view(before) + strings_view(names@).subrange(
                0,
                i as int,
            ),
        decreases names@.len() - i,
    {
        let name = string_of(chars_of(names[i].as_str()).as_slice());
        let ghost prev = decode_dict@;
        decode_dict.push(name);
        assert(decode_dict@ == prev.push(name));
        assert(strings_view(decode_dict@) =~= strings_view(prev).push(name@));
        assert(strings_view(names@)[i as int] == names@[i as int]@);
        assert(strings_view(names@).subrange(0, i + 1) =~= strings_view(names@).subrange(
            0,
            i as int,
        ).push(name@));
        i = i + 1;
    }
    assert(strings_view(names@).subrange(0, i as int) =~= strings_view(names@));
    None
}

/// A line feed, a space or a `/`: skipped before a filter name.
pub open spec fn is_filter_gap(b: u8) -> bool {
    b == 10 || b == 32 || b == 47
}

/// The first index at or after `i` that is not a gap (or the end).
pub open spec fn skip_filter_gaps(s: Seq<u8>, i: int) -> int
    decreases s.len() - i,
{
    if 0 <= i < s.len() && is_filter_gap(s[i]) {
        skip_filter_gaps(s, i + 1)
    } else {
        i
    }
}

/// The first index at or after `i` that holds a `/` or a line feed (or the
/// end).
pub open spec fn filter_name_end(s: Seq<u8>, i: int) -> int
    decreases s.len() - i,
{
    if 0 <= i < s.len() && s[i] != 47 && s[i] != 10 {
        filter_name_end(s, i + 1)
    } else {
        i
    }
}

/// The filter names after `/Filter` (ending at `filter_pos`), and the issue
/// with a filter array: gaps skipped, then either an array `[` ... `]` (its
/// names), a single name up to the next `/` or line feed (read as UTF-8 and
/// trimmed), or nothing at the end of the bytes.
pub open spec fn filter_outcome(b: Seq<u8>, filter_pos: int) -> (
    Seq<Seq<char>>,
    Option<DecodeArrayIssue>,
) {
    let q = skip_filter_gaps(b, filter_pos);
    if q >= b.len() {
        (Seq::empty(), None)
    } else if b[q] == 91 {
        match decode_types_outcome(b) {
            Ok(names) => (names, None),
            Err(issue) => (Seq::empty(), Some(issue)),
        }
    } else {
        (seq![trimmed(utf8_lossy(b.subrange(q, filter_name_end(b, q))))], None)
    }
}

/// The filter is an array whose brackets cannot be read.
pub open spec fn filter_unreadable(b: Seq<u8>, filter_pos: int) -> bool {
    let q = skip_filter_gaps(b, filter_pos);
    q < b.len() && b[q] == 91 && decode_types_unreadable(b)
}

pub proof fn lemma_skip_filter_gaps_bounds(s: Seq<u8>, i: int)
    requires
        0 <= i,
    ensures
        i <= skip_filter_gaps(s, i),
        i <= s.len() ==> skip_filter_gaps(s, i) <= s.len(),
        skip_filter_gaps(s, i) < s.len() ==> !is_filter_gap(s[skip_filter_gaps(s, i)]),
    decreases s.len() - i,
{
    if 0 <= i < s.len() && is_filter_gap(s[i]) {
        lemma_skip_filter_gaps_bounds(s, i + 1);
    }
}

/// The filter names after `/Filter`, `None` when there are none, and the
/// issue with a filter array.
pub fn extract_filter_dictionary(bytes: &[u8], filter_pos: usize) -> (res: (
    Option<Vec<String>>,
    Option<DecodeArrayIssue>,
))
    requires
        !filter_unreadable(bytes@, filter_pos as int),
    ensures
        ({
            let (names, issue) = filter_outcome(bytes@, filter_pos as int);
            &&& res.1 == issue
            &&& match res.0 {
                Some(d) => names.len() > 0 && strings_view(d@) == names,
                None => names.len() == 0,
            }
        }),
{
    let n = bytes.len();
    let mut decode_dict: Vec<String> = Vec::new();
    let mut issue: Option<DecodeArrayIssue> = None;
    let mut pos = filter_pos;
    while pos < n && (bytes[pos] == 10 || bytes[pos] == 32 || bytes[pos] == 47)
        invariant
            n == bytes@.len(),
            filter_pos <= pos,
            pos > n ==> pos == filter_pos,
            skip_filter_gaps(bytes@, filter_pos as int) == skip_filter_gaps(bytes@, pos as int),
        decreases n - pos,
    {
        pos = pos + 1;
    }
    let ghost q = pos as int;
    if pos < n {
        if bytes[pos] == 91 {
            issue = extract_decode_types(bytes, filter_pos, &mut decode_dict);
        } else {
            let start = pos;
            let mut filter_dict_bytes: Vec<u8> = Vec::new();
            while pos < n && bytes[pos] != 47 && bytes[pos] != 10
                invariant
                    n == bytes@.len(),
                    start <= pos <= n,
                    filter_name_end(bytes@, start as int) == filter_name_end(bytes@, pos as int),
                    filter_dict_bytes@ == bytes@.subrange(start as int, pos as int),
                decreases n - pos,
            {
                filter_dict_bytes.push(bytes[pos]);
                assert(filter_dict_bytes@ =~= bytes@.subrange(start as int, pos + 1));
                pos = pos + 1;
            }
            let name = convert_bytes_str(filter_dict_bytes.as_slice());
            decode_dict.push(name);
            assert(strings_view(decode_dict@) =~= seq![name@]);
        }
    } else {
        assert(strings_view(decode_dict@) =~= Seq::<Seq<char>>::empty());
    }
    if decode_dict.len() > 0 {
        return (Some(decode_dict), issue);
    }
    (None, issue)
}

// ----- the report -----

/// What reading a content object tells, in the order it is learnt.
pub struct ContentReport {
    /// The dictionary, flattened and read as text.
    pub dictionary: Option<String>,
    /// The `/Length` of the stream.
    pub content_length: Option<i64>,
    /// A missing bracket of the filter array.
    pub decode_array_issue: Option<DecodeArrayIssue>,
    /// The filter names.
    pub decoded: Option<Vec<String>>,
}

/// The filter names as text sequences.
pub open spec fn decoded_view(d: Option<Vec<String>>) -> Option<Seq<Seq<char>>> {
    match d {
        Some(v) => Some(strings_view(v@)),
        None => None,
    }
}

/// Length, filter-array issue and filter names of a (flattened) dictionary:
/// the `/Length` value must be a decimal `i64`; the filter comes after
/// `/Filter`.
pub open spec fn dictionary_notes(b: Seq<u8>) -> (
    Option<i64>,
    Option<DecodeArrayIssue>,
    Option<Seq<Seq<char>>>,
) {
    match first_occurrence(b, length_marker()) {
        None => (None, None, None),
        Some(p) => {
            let len_bytes = ref_bytes(b, p + length_marker().len());
            if len_bytes.len() == 0 {
                (None, None, None)
            } else {
                match decimal_i64(len_bytes) {
                    None => (None, None, None),
                    Some(len) => match first_occurrence(b, filter_marker()) {
                        None => (Some(len), None, None),
                        Some(f) => {
                            let (names, issue) = filter_outcome(b, f + filter_marker().len());
                            (
                                Some(len),
                                issue,
                                if names.len() > 0 {
                                    Some(names)
                                } else {
                                    None
                                },
                            )
                        },
                    },
                }
            }
        },
    }
}

/// Reading the filter of a (flattened) dictionary fails.
pub open spec fn dictionary_notes_unreadable(b: Seq<u8>) -> bool {
    &&& first_occurrence(b, length_marker()) matches Some(p)
    &&& ref_bytes(b, p + length_marker().len()).len() > 0
    &&& decimal_i64(ref_bytes(b, p + length_marker().len())) is Some
    &&& first_occurrence(b, filter_marker()) matches Some(f)
    &&& filter_unreadable(b, f + filter_marker().len())
}

/// What a (flattened) dictionary says of the stream: its length, the
/// filter-array issue and the filter names; the dictionary text is not set.
pub fn parse_dictionary(bytes: &[u8]) -> (report: ContentReport)
    requires
        !dictionary_notes_unreadable(bytes@),
    ensures
        ({
            let (len, issue, names) = dictionary_notes(bytes@);
            &&& report.dictionary is None
            &&& report.content_length == len
            &&& report.decode_array_issue == issue
            &&& decoded_view(report.decoded) == names
        }),
{
    let mut report = empty_report();
    let length = marker(&[47u8, 76u8, 101u8, 110u8, 103u8, 116u8, 104u8]);
    let filter = marker(&[47u8, 70u8, 105u8, 108u8, 116u8, 101u8, 114u8]);
    assert(length@ =~= length_marker());
    assert(filter@ =~= filter_marker());
    let n = bytes.len();
    let length_dict_pos = match check_dictionary(bytes, length.as_slice()) {
        Some(pos) => {
            proof {
                lemma_first_occurrence_from_bounds(bytes@, length_marker(), 0);
            }
            pos + length.len()
        },
        None => return report,
    };
    let mut len_bytes: Vec<u8> = Vec::new();
    get_ref_bytes(bytes, length_dict_pos, &mut len_bytes);
    assert(len_bytes@ =~= ref_bytes(bytes@, length_dict_pos as int));
    if len_bytes.len() > 0 {
        let len_text = convert_bytes_str(len_bytes.as_slice());
        proof {
            crate::utils::lemma_decimal_i64(len_bytes@, len_text@);
        }
        let content_len: i64 = match parse_i64(len_text.as_str()) {
            Some(l) => l,
            None => return report,
        };
        report.content_length = Some(content_len);
        let filter_pos = match check_dictionary(bytes, filter.as_slice()) {
            Some(pos) => {
                proof {
                    lemma_first_occurrence_from_bounds(bytes@, filter_marker(), 0);
                }
                pos + filter.len()
            },
            None => return report,
        };
        if filter_pos > 0 {
            let (decoded, issue) = extract_filter_dictionary(bytes, filter_pos);
            report.decode_array_issue = issue;
            report.decoded = decoded;
        }
    }
    report
}

/// A new report that tells nothing yet.
pub fn empty_report() -> (res: ContentReport)
    ensures
        res.dictionary is None,
        res.content_length is None,
        res.decode_array_issue is None,
        res.decoded is None,
{
    ContentReport { dictionary: None, content_length: None, decode_array_issue: None, decoded: None }
}

/// Reading the content object at a position fails: its dictionary's brackets
/// are out of order, or its filter array's are.
pub open spec fn content_object_unreadable(ob: Seq<u8>) -> bool {
    match obj_content(ob) {
        None => false,
        Some(c) => dictionary_unreadable(c) || match dictionary_of(c) {
            Some(d) => dictionary_notes_unreadable(flattened(d)),
            None => false,
        },
    }
}

/// Reads the content object that starts at `start_idx`: the text of its
/// dictionary (flattened, read as UTF-8, trimmed), then what the dictionary
/// says of the stream's length and filters. Nothing is told when the object
/// has no `obj` ... `endobj` content or its content no `<<` ... `>>`.
pub fn get_content_object(bytes: &[u8], start_idx: usize) -> (res: ContentReport)
    requires
        start_idx <= bytes@.len(),
        !content_object_unreadable(bytes@.subrange(start_idx as int, bytes@.len() as int)),
    ensures
        ({
            let ob = bytes@.subrange(start_idx as int, bytes@.len() as int);
            match obj_content(ob) {
                Some(c) => match dictionary_of(c) {
                    Some(d) => {
                        let flat = flattened(d);
                        let (len, issue, names) = dictionary_notes(flat);
                        &&& res.dictionary matches Some(t) && t@ == trimmed(utf8_lossy(flat))
                        &&& res.content_length == len
                        &&& res.decode_array_issue == issue
                        &&& decoded_view(res.decoded) == names
                    },
                    None => res.dictionary is None && res.content_length is None
                        && res.decode_array_issue is None && res.decoded is None,
                },
                None => res.dictionary is None && res.content_length is None
                    && res.decode_array_issue is None && res.decoded is None,
            }
        }),
{
    let obj_bytes = slice_subrange(bytes, start_idx, bytes.len());
    let content_bytes = match extract_obj_content(obj_bytes) {
        Some(cb) => cb,
        None => return empty_report(),
    };
    let dictionary_bytes = match get_dictionary(content_bytes) {
        Some(dict_bytes) => dict_bytes,
        None => return empty_report(),
    };
    let skimmed_dict_bytes = flatten_objs(dictionary_bytes);
    let dictionary_text = convert_bytes_str(skimmed_dict_bytes.as_slice());
    let mut report = parse_dictionary(skimmed_dict_bytes.as_slice());
    report.dictionary = Some(dictionary_text);
    report
}

// ----- laws -----

/// The filter names do not depend on the order of the keys: once `/Length`
/// holds a decimal value, the filter is read after the first `/Filter`,
/// wherever that stands, before `/Length` or after it.
pub proof fn lemma_filter_read_in_any_order(b: Seq<u8>, p: int, f: int, len: i64)
    requires
        first_occurrence(b, length_marker()) == Some(p),
        ref_bytes(b, p + 7).len() > 0,
        decimal_i64(ref_bytes(b, p + 7)) == Some(len),
        first_occurrence(b, filter_marker()) == Some(f),
    ensures
        dictionary_notes(b).0 == Some(len),
        dictionary_notes(b).1 == filter_outcome(b, f + 7).1,
        filter_outcome(b, f + 7).0.len() > 0 ==> dictionary_notes(b).2 == Some(
            filter_outcome(b, f + 7).0,
        ),
        filter_outcome(b, f + 7).0.len() == 0 ==> dictionary_notes(b).2 is None,
{
}

/// Without a decimal `/Length`, a dictionary tells nothing, whatever its
/// filter.
pub proof fn lemma_no_length_no_notes(b: Seq<u8>)
    requires
        !(first_occurrence(b, length_marker()) matches Some(p) && decimal_i64(
            ref_bytes(b, p + 7),
        ) is Some && ref_bytes(b, p + 7).len() > 0),
    ensures
        dictionary_notes(b) == (None::<i64>, None::<DecodeArrayIssue>, None::<Seq<Seq<char>>>),
{
}

/// Gaps are skipped one by one: from `i`, past a run of gap bytes, the first
/// byte that is not a gap (or the end) is reached.
pub proof fn lemma_skip_filter_gaps_run(b: Seq<u8>, i: int, k: int)
    requires
        0 <= i <= k <= b.len(),
        forall|j: int| i <= j < k ==> is_filter_gap(#[trigger] b[j]),
        k == b.len() || !is_filter_gap(b[k]),
    ensures
        skip_filter_gaps(b, i) == k,
    decreases k - i,
{
    if i < k {
        lemma_skip_filter_gaps_run(b, i + 1, k);
    }
}

/// A name runs up to the first `/` or line feed (or the end).
pub proof fn lemma_filter_name_run(b: Seq<u8>, i: int, k: int)
    requires
        0 <= i <= k <= b.len(),
        forall|j: int| i <= j < k ==> #[trigger] b[j] != 47 && b[j] != 10,
        k == b.len() || b[k] == 47 || b[k] == 10,
    ensures
        filter_name_end(b, i) == k,
    decreases k - i,
{
    if i < k {
        lemma_filter_name_run(b, i + 1, k);
    }
}

/// A single filter name: after `/Filter`, a run of gaps (spaces, line feeds,
/// slashes), then a name that does not open an array and runs to the next
/// `/` or line feed (or the end), gives that whole name, read as text and
/// trimmed, and no issue.
pub proof fn lemma_single_filter_name(b: Seq<u8>, filter_pos: int, q: int, e: int)
    requires
        0 <= filter_pos <= q < e <= b.len(),
        forall|j: int| filter_pos <= j < q ==> is_filter_gap(#[trigger] b[j]),
        !is_filter_gap(b[q]),
        b[q] != 91,
        forall|j: int| q <= j < e ==> #[trigger] b[j] != 47 && b[j] != 10,
        e == b.len() || b[e] == 47 || b[e] == 10,
    ensures
        filter_outcome(b, filter_pos) == (
            seq![trimmed(utf8_lossy(b.subrange(q, e)))],
            None::<DecodeArrayIssue>,
        ),
{
    lemma_skip_filter_gaps_run(b, filter_pos, q);
    lemma_filter_name_run(b, q, e);
}

} // verus!
