//! Reading the cross-reference data at the end of a PDF file: where the
//! cross-reference table starts (`startxref`), the byte offset of each object
//! (the table), and the root object named by the trailer.
//!
//! The file is read byte by byte by the caller; each reader here is a state
//! machine that takes one byte (or read error) at a time and says whether to
//! go on. A line is the text of the bytes before a line feed, each byte taken
//! as `convert_byte_str` takes it, so lines are always ASCII.

use vstd::prelude::*;
use std::collections::HashMap;

use crate::models::{ObjectType, PdfObject};
use crate::text::{
    ascii_lowercase, char_vecs_view, chars_equal, chars_of, contains, contains_chars,
    contains_seq, lowercase_of, parse_i64, parse_u64, parse_usize, parsed_i64, parsed_u64,
    parsed_usize, remove_all, remove_all_chars, split, split_chars, split_on, string_of,
    to_lowercase, trim, trim_chars, trimmed,
};
use crate::utils::{byte_text, convert_byte_str, is_new_ln, lemma_byte_text};

verus! {

broadcast use vstd::std_specs::hash::group_hash_axioms;

/// The text of a byte, and whether it was a line feed.
fn next_text(byte: std::io::Result<u8>) -> (res: (bool, String))
    ensures
        res.0 == (byte_text(byte) == seq!['\n']),
        res.1@ == byte_text(byte),
{
    proof {
        lemma_byte_text(byte);
    }
    let newline = is_new_ln(&byte);
    let text = convert_byte_str(byte);
    (newline, text)
}

// ----- names in a dictionary line -----

/// The text after the name in the last `/`-separated segment (scanning from
/// the end) that contains `name` once lower-cased.
pub open spec fn last_named(segs: Seq<Seq<char>>, name: Seq<char>, n: int) -> Seq<char>
    decreases n,
{
    if n <= 0 {
        Seq::empty()
    } else {
        let x = segs[n - 1];
        if x.len() > 0 && contains_seq(lowercase_of(x), name) {
            trimmed(remove_all(lowercase_of(x), name))
        } else {
            last_named(segs, name, n - 1)
        }
    }
}

/// What follows `name` in a dictionary line: `<<` and `>>` taken out, the
/// line trimmed and split at `/`, and of the last segment whose lower-cased
/// text contains `name`, that text with `name` taken out, trimmed; empty
/// when no segment contains it.
pub open spec fn located(line: Seq<char>, name: Seq<char>) -> Seq<char> {
    let segs = split_on(
        trimmed(remove_all(remove_all(line, seq!['<', '<']), seq!['>', '>'])),
        '/',
    );
    last_named(segs, name, segs.len() as int)
}

/// `last_named` for ASCII segments, whose lower case is the ASCII one.
pub open spec fn last_named_ascii(segs: Seq<Seq<char>>, name: Seq<char>, n: int) -> Seq<char>
    decreases n,
{
    if n <= 0 {
        Seq::empty()
    } else {
        let x = segs[n - 1];
        if x.len() > 0 && contains_seq(ascii_lowercase(x), name) {
            trimmed(remove_all(ascii_lowercase(x), name))
        } else {
            last_named_ascii(segs, name, n - 1)
        }
    }
}

/// `located` for an ASCII line: the same steps, with the ASCII lower case.
pub open spec fn located_ascii(line: Seq<char>, name: Seq<char>) -> Seq<char> {
    let segs = split_on(
        trimmed(remove_all(remove_all(line, seq!['<', '<']), seq!['>', '>'])),
        '/',
    );
    last_named_ascii(segs, name, segs.len() as int)
}

/// The value after `obj_name` in a dictionary line such as
/// `<< /Size 6 /Root 1 0 R >>` (lower-cased, trimmed).
pub fn locate_obj_by_name(obj_line: &str, obj_name: &str) -> (res: String)
    ensures
        res@ == located(obj_line@, obj_name@),
        vstd::utf8::is_ascii_chars(obj_line@) ==> res@ == located_ascii(obj_line@, obj_name@),
{
    let line = chars_of(obj_line);
    let open = vec!['<', '<'];
    let close = vec!['>', '>'];
    assert(open@ =~= seq!['<', '<']);
    assert(close@ =~= seq!['>', '>']);
    let a = remove_all_chars(line.as_slice(), open.as_slice());
    let b = remove_all_chars(a.as_slice(), close.as_slice());
    let trimmed_line = trim_chars(b.as_slice());
    let segs = split_chars(trimmed_line.as_slice(), '/');
    let name = chars_of(obj_name);
    let ghost sv = char_vecs_view(segs@);
    assert(a@ == remove_all(obj_line@, seq!['<', '<']));
    assert(b@ == remove_all(remove_all(obj_line@, seq!['<', '<']), seq!['>', '>']));
    assert(sv == split_on(trimmed(b@), '/'));
    assert(located(obj_line@, obj_name@) == last_named(sv, name@, sv.len() as int));
    assert(located_ascii(obj_line@, obj_name@) == last_named_ascii(sv, name@, sv.len() as int));
    proof {
        if vstd::utf8::is_ascii_chars(obj_line@) {
            crate::text::lemma_remove_all_ascii(obj_line@, seq!['<', '<']);
            crate::text::lemma_remove_all_ascii(a@, seq!['>', '>']);
            crate::text::lemma_trimmed_ascii(b@);
            crate::text::lemma_split_on_ascii(trimmed(b@), '/');
        }
    }
    let mut k = segs.len();
    while k > 0
        invariant
            k <= segs@.len(),
            sv == char_vecs_view(segs@),
            located(obj_line@, obj_name@) == last_named(sv, name@, sv.len() as int),
            name@ == obj_name@,
            last_named(sv, name@, sv.len() as int) == last_named(sv, name@, k as int),
            located_ascii(obj_line@, obj_name@) == last_named_ascii(sv, name@, sv.len() as int),
            vstd::utf8::is_ascii_chars(obj_line@) ==> {
                &&& forall|i: int|
                    0 <= i < sv.len() ==> vstd::utf8::is_ascii_chars(#[trigger] sv[i])
                &&& last_named_ascii(sv, name@, sv.len() as int) == last_named_ascii(
                    sv,
                    name@,
                    k as int,
                )
            },
        decreases k,
    {
        let x = &segs[k - 1];
        assert(sv[k - 1] == x@);
        if x.len() > 0 {
            let xs = string_of(x.as_slice());
            let lower = to_lowercase(xs.as_str());
            let lv = chars_of(lower.as_str());
            if contains_chars(lv.as_slice(), name.as_slice()) {
                let r = remove_all_chars(lv.as_slice(), name.as_slice());
                let t = trim_chars(r.as_slice());
                assert(lv@ == lowercase_of(sv[k - 1]));
                assert(last_named(sv, name@, k as int) == trimmed(remove_all(lowercase_of(sv[k - 1]), name@)));
                assert(vstd::utf8::is_ascii_chars(obj_line@) ==> last_named_ascii(sv, name@, k as int)
                    == trimmed(remove_all(ascii_lowercase(sv[k - 1]), name@)));
                return string_of(t.as_slice());
            }
            assert(vstd::utf8::is_ascii_chars(obj_line@) ==> last_named_ascii(sv, name@, k as int)
                == last_named_ascii(sv, name@, k - 1));
        }
        k = k - 1;
    }
    String::new()
}

// ----- where the cross-reference table starts -----

/// Where to start looking for `startxref`: 1024 bytes before the end, or the
/// start of the file when that would be before byte 512.
pub open spec fn scan_offset(file_len: u64) -> u64 {
    let p = if file_len > 1024 {
        (file_len - 1024) as u64
    } else {
        0u64
    };
    if p >= 512 {
        p
    } else {
        0
    }
}

/// The offset to read from when looking for `startxref`, `None` for an
/// empty file.
pub fn start_xref_scan_offset(file_len: u64) -> (res: Option<u64>)
    ensures
        res == if file_len == 0 {
            None
        } else {
            Some(scan_offset(file_len))
        },
{
    if file_len == 0 {
        return None;
    }
    let pos_seek = file_len.saturating_sub(1024);
    if pos_seek >= 512 {
        Some(pos_seek)
    } else {
        Some(0)
    }
}

/// The state of the search for `startxref`: the line read so far, and
/// whether a `startxref` line has been seen.
pub struct StartXrefScanner {
    line_str: String,
    startxref_found: bool,
}

impl View for StartXrefScanner {
    type V = (Seq<char>, bool);

    closed spec fn view(&self) -> (Seq<char>, bool) {
        (self.line_str@, self.startxref_found)
    }
}

/// One byte of the search: at a line feed, a line that reads `startxref` (in
/// any case) starts the value's line; the line after it ends the search
/// (`false`); any other line is dropped. Other bytes add their text.
pub open spec fn start_xref_next(s: (Seq<char>, bool), byte: std::io::Result<u8>) -> (
    (Seq<char>, bool),
    bool,
) {
    let (line, found) = s;
    let t = byte_text(byte);
    if t == seq!['\n'] {
        if ascii_lowercase(line) == "startxref"@ {
            ((Seq::empty(), true), true)
        } else if found {
            ((line, found), false)
        } else {
            ((Seq::empty(), found), true)
        }
    } else {
        ((line + t, found), true)
    }
}

/// The offset the search ends with: the line after `startxref`, trimmed, as
/// a `u64`; 0 when there is no such line or it is not a number.
pub open spec fn start_xref_value(s: (Seq<char>, bool)) -> u64 {
    if s.1 && s.0.len() > 0 {
        match parsed_u64(trimmed(s.0)) {
            Some(v) => v,
            None => 0,
        }
    } else {
        0
    }
}

impl StartXrefScanner {
    #[verifier::type_invariant]
    closed spec fn line_is_ascii(self) -> bool {
        vstd::utf8::is_ascii_chars(self.line_str@)
    }

    /// Nothing read yet.
    pub fn new() -> (res: Self)
        ensures
            res@ == (Seq::<char>::empty(), false),
    {
        StartXrefScanner { line_str: String::new(), startxref_found: false }
    }

    /// Takes the next byte; `false` when the search is over.
    pub fn feed(&mut self, byte: std::io::Result<u8>) -> (go_on: bool)
        ensures
            (final(self)@, go_on) == start_xref_next(old(self)@, byte),
    {
        proof {
            use_type_invariant(&*self);
            lemma_byte_text(byte);
        }
        let (newline, curr_str) = next_text(byte);
        if newline {
            let lower = to_lowercase(self.line_str.as_str());
            let lv = chars_of(lower.as_str());
            let target = chars_of("startxref");
            if chars_equal(lv.as_slice(), target.as_slice()) {
                self.startxref_found = true;
                self.line_str = String::new();
                return true;
            }
            if self.startxref_found {
                return false;
            }
            self.line_str = String::new();
        } else {
            let ghost before = self.line_str@;
            proof {
                vstd::utf8::is_ascii_chars_concat(before + curr_str@, before, curr_str@);
            }
            let line = self.line_str.clone();
            self.line_str = line.concat(curr_str.as_str());
        }
        true
    }

    /// The offset of the cross-reference table, from what has been read.
    pub fn finish(&self) -> (res: u64)
        ensures
            res == start_xref_value(self@),
    {
        let lv = chars_of(self.line_str.as_str());
        if self.startxref_found && lv.len() > 0 {
            let t = trim(self.line_str.as_str());
            match parse_u64(t.as_str()) {
                Some(v) => v,
                None => 0,
            }
        } else {
            0
        }
    }
}

// ----- the cross-reference table -----

/// The state of reading the table: the offsets found so far, by object
/// number; the number of entries the table announced; the next object
/// number; and the line read so far.
pub struct ObjMapState {
    pub obj_map: Map<i64, usize>,
    pub total_obj: i64,
    pub current_obj: i64,
    pub obj_line: Seq<char>,
}

/// The state of reading the cross-reference table.
pub struct ObjMapScanner {
    obj_map: HashMap<i64, usize>,
    total_obj: i64,
    current_obj: i64,
    obj_line: String,
}

impl View for ObjMapScanner {
    type V = ObjMapState;

    closed spec fn view(&self) -> ObjMapState {
        ObjMapState {
            obj_map: self.obj_map@,
            total_obj: self.total_obj,
            current_obj: self.current_obj,
            obj_line: self.obj_line@,
        }
    }
}

/// What reading one byte of the table leads to.
pub enum ObjMapStep {
    /// Read on.
    Continue,
    /// As many entries as the table announced have been read.
    Done,
    /// A line of one or two fields whose second field is not an `i64`.
    BadCount(String),
    /// A line of three or more fields whose first field is not a `usize`.
    BadOffset(String),
}

/// What reading one byte of the table leads to, as values.
pub enum ObjMapReply {
    Continue,
    Done,
    BadCount(Seq<char>),
    BadOffset(Seq<char>),
}

/// The reply a step gives, as values.
pub open spec fn reply_of(step: ObjMapStep) -> ObjMapReply {
    match step {
        ObjMapStep::Continue => ObjMapReply::Continue,
        ObjMapStep::Done => ObjMapReply::Done,
        ObjMapStep::BadCount(p) => ObjMapReply::BadCount(p@),
        ObjMapStep::BadOffset(p) => ObjMapReply::BadOffset(p@),
    }
}

/// One byte of the table. At a line feed, a line of one or two fields sets
/// the count from its second field; a line of three or more is the next
/// entry, whose first field is its byte offset, and reading stops when the
/// count is reached. Other bytes add their text to the line. A field that
/// is not a number is reported, and the state is left as it was.
pub open spec fn obj_map_next(s: ObjMapState, byte: std::io::Result<u8>) -> (
    ObjMapState,
    ObjMapReply,
) {
    let t = byte_text(byte);
    if t != seq!['\n'] {
        (ObjMapState { obj_line: s.obj_line + t, ..s }, ObjMapReply::Continue)
    } else {
        let parts = line_fields(s.obj_line);
        if parts.len() <= 2 {
            match parsed_i64(parts[1]) {
                Some(n) => (
                    ObjMapState { total_obj: n, obj_line: Seq::empty(), ..s },
                    ObjMapReply::Continue,
                ),
                None => (s, ObjMapReply::BadCount(parts[1])),
            }
        } else {
            match parsed_usize(parts[0]) {
                Some(offset) => {
                    let next = ObjMapState {
                        obj_map: s.obj_map.insert(s.current_obj, offset),
                        current_obj: (s.current_obj + 1) as i64,
                        ..s
                    };
                    if s.current_obj + 1 == s.total_obj {
                        (next, ObjMapReply::Done)
                    } else {
                        (ObjMapState { obj_line: Seq::empty(), ..next }, ObjMapReply::Continue)
                    }
                },
                None => (s, ObjMapReply::BadOffset(parts[0])),
            }
        }
    }
}

/// The objects read so far are numbered 0, 1, ... up to the next number.
pub open spec fn numbered_from_zero(s: ObjMapState) -> bool {
    &&& 0 <= s.current_obj
    &&& forall|k: i64| #[trigger] s.obj_map.contains_key(k) <==> 0 <= k < s.current_obj
}

/// The fields of a line: trimmed, split at each space.
pub open spec fn line_fields(line: Seq<char>) -> Seq<Seq<char>> {
    split_on(trimmed(line), ' ')
}

/// A line can be read: a line of fewer than two fields names no count, and
/// an entry cannot be numbered past `i64::MAX`.
pub open spec fn obj_map_can_feed(s: ObjMapState, byte: std::io::Result<u8>) -> bool {
    byte_text(byte) == seq!['\n'] ==> {
        let parts = line_fields(s.obj_line);
        &&& parts.len() >= 2
        &&& parts.len() >= 3 ==> s.current_obj < i64::MAX
    }
}

/// Every step of the table keeps the objects numbered 0, 1, ... up to the
/// next number, and keeps the line ASCII.
pub proof fn lemma_obj_map_next_numbered(s: ObjMapState, byte: std::io::Result<u8>)
    requires
        numbered_from_zero(s),
        vstd::utf8::is_ascii_chars(s.obj_line),
        obj_map_can_feed(s, byte),
    ensures
        numbered_from_zero(obj_map_next(s, byte).0),
        vstd::utf8::is_ascii_chars(obj_map_next(s, byte).0.obj_line),
{
    lemma_byte_text(byte);
    let t = byte_text(byte);
    if t != seq!['\n'] {
        vstd::utf8::is_ascii_chars_concat(s.obj_line + t, s.obj_line, t);
    } else {
        let n = obj_map_next(s, byte).0;
        if n.obj_map != s.obj_map {
            let parts = line_fields(s.obj_line);
            let offset = parsed_usize(parts[0])->0;
            assert(n.obj_map == s.obj_map.insert(s.current_obj, offset));
            assert forall|k: i64| #[trigger] n.obj_map.contains_key(k) <==> 0 <= k
                < n.current_obj by {
                if k != s.current_obj {
                    assert(n.obj_map.contains_key(k) == s.obj_map.contains_key(k));
                }
            }
        }
    }
}

impl ObjMapScanner {
    /// The objects read so far are numbered from 0 and the line is ASCII.
    pub closed spec fn well_formed(self) -> bool {
        &&& numbered_from_zero(self@)
        &&& vstd::utf8::is_ascii_chars(self.obj_line@)
    }

    /// Nothing read yet: no entries, no count, object number 0.
    pub fn new() -> (res: Self)
        ensures
            res@ == (ObjMapState {
                obj_map: Map::empty(),
                total_obj: 0,
                current_obj: 0,
                obj_line: Seq::empty(),
            }),
            numbered_from_zero(res@),
            res.well_formed(),
    {
        ObjMapScanner { obj_map: HashMap::new(), total_obj: 0, current_obj: 0, obj_line: String::new() }
    }

    /// Whether the next byte can be taken (see `obj_map_can_feed`).
    pub fn can_feed(&self, byte: &std::io::Result<u8>) -> (res: bool)
        requires
            self.well_formed(),
        ensures
            res == obj_map_can_feed(self@, *byte),
    {
        proof {
            lemma_byte_text(*byte);
        }
        if !is_new_ln(byte) {
            return true;
        }
        let t = trim(self.obj_line.as_str());
        let parts = split(t.as_str(), ' ');
        parts.len() >= 2 && (parts.len() < 3 || self.current_obj < i64::MAX)
    }

    /// Takes the next byte. At a line feed, a line of one or two fields sets
    /// the count from its second field; a line of three or more is the next
    /// entry, whose first field is its byte offset; reading stops when the
    /// count is reached. Other bytes add their text to the line.
    pub fn feed(&mut self, byte: std::io::Result<u8>) -> (res: ObjMapStep)
        requires
            old(self).well_formed(),
            obj_map_can_feed(old(self)@, byte),
        ensures
            final(self).well_formed(),
            numbered_from_zero(final(self)@),
            (final(self)@, reply_of(res)) == obj_map_next(old(self)@, byte),
    {
        proof {
            lemma_byte_text(byte);
            lemma_obj_map_next_numbered(self@, byte);
        }
        let (newline, curr_str) = next_text(byte);
        if newline {
            let t = trim(self.obj_line.as_str());
            let line_parts = split(t.as_str(), ' ');
            if line_parts.len() <= 2 {
                match parse_i64(line_parts[1].as_str()) {
                    Some(v) => {
                        self.total_obj = v;
                    },
                    None => {
                        let p = string_of(chars_of(line_parts[1].as_str()).as_slice());
                        return ObjMapStep::BadCount(p);
                    },
                }
            } else {
                let byte_offset = match parse_usize(line_parts[0].as_str()) {
                    Some(v) => v,
                    None => {
                        let p = string_of(chars_of(line_parts[0].as_str()).as_slice());
                        return ObjMapStep::BadOffset(p);
                    },
                };
                let ghost before = self.obj_map@;
                self.obj_map.insert(self.current_obj, byte_offset);
                assert(self.obj_map@ == before.insert(self.current_obj, byte_offset));
                let ghost prev = self.current_obj;
                self.current_obj = self.current_obj + 1;
                assert forall|k: i64| #[trigger] self.obj_map@.contains_key(k) <==> 0 <= k
                    < self.current_obj by {
                    if k != prev {
                        assert(self.obj_map@.contains_key(k) == before.contains_key(k));
                    }
                }
                if self.current_obj == self.total_obj {
                    return ObjMapStep::Done;
                }
            }
            self.obj_line = String::new();
        } else {
            let ghost before = self.obj_line@;
            proof {
                vstd::utf8::is_ascii_chars_concat(before + curr_str@, before, curr_str@);
            }
            self.obj_line.append(curr_str.as_str());
        }
        ObjMapStep::Continue
    }

    /// The offsets read, by object number.
    pub fn into_map(self) -> (res: HashMap<i64, usize>)
        ensures
            res@ == self@.obj_map,
    {
        self.obj_map
    }
}

// ----- the trailer -----

/// The state of reading the trailer: the line read so far, and whether the
/// `trailer` line has been seen.
pub struct TrailerScanner {
    curr_line: String,
    is_trailer_block: bool,
}

impl View for TrailerScanner {
    type V = (Seq<char>, bool);

    closed spec fn view(&self) -> (Seq<char>, bool) {
        (self.curr_line@, self.is_trailer_block)
    }
}

/// What reading one byte of the trailer leads to.
pub enum TrailerStep {
    /// Read on.
    Continue,
    /// The root object the trailer names.
    Found(PdfObject),
    /// The trailer names a root that cannot be read.
    NotFound,
}

/// The object number and generation of the root a trailer line names: the
/// first two space-separated fields of what follows `root`, when there are
/// at least three fields and both are numbers that are not negative.
pub open spec fn root_ref(line: Seq<char>) -> Option<(i64, i64)> {
    let parts = split_on(located_ascii(line, "root"@), ' ');
    if parts.len() >= 3 {
        let obj_ref = match parsed_i64(trimmed(parts[0])) {
            Some(v) => v,
            None => -1i64,
        };
        let generation = match parsed_i64(trimmed(parts[1])) {
            Some(v) => v,
            None => -1i64,
        };
        if obj_ref >= 0 && generation >= 0 {
            Some((obj_ref, generation))
        } else {
            None
        }
    } else {
        None
    }
}

/// The root object named `root_ref`: a reference of type `Root`, no kids.
pub open spec fn is_root_object(o: PdfObject, r: (i64, i64)) -> bool {
    &&& o.obj_ref == r.0
    &&& o.generation == r.1
    &&& o.is_ref
    &&& o.kids@.len() == 0
    &&& o.object_type == ObjectType::Root
}

impl TrailerScanner {
    #[verifier::type_invariant]
    closed spec fn line_is_ascii(self) -> bool {
        vstd::utf8::is_ascii_chars(self.curr_line@)
    }

    /// Nothing read yet.
    pub fn new() -> (res: Self)
        ensures
            res@ == (Seq::<char>::empty(), false),
    {
        TrailerScanner { curr_line: String::new(), is_trailer_block: false }
    }

    /// Takes the next byte. At a line feed, a line containing `trailer` (in
    /// any case) opens the trailer, which stays open; inside it, the first
    /// line containing `root` ends the reading with the root it names, or
    /// with `NotFound`. Other bytes add their text to the line.
    pub fn feed(&mut self, byte: std::io::Result<u8>) -> (res: TrailerStep)
        ensures
            old(self)@.1 ==> final(self)@.1,
            ({
                let (line, in_trailer) = old(self)@;
                let t = byte_text(byte);
                if t != seq!['\n'] {
                    res is Continue && final(self)@ == (line + t, in_trailer)
                } else {
                    let low = ascii_lowercase(line);
                    if contains_seq(low, "trailer"@) {
                        res is Continue && final(self)@ == (Seq::<char>::empty(), true)
                    } else if in_trailer && contains_seq(low, "root"@) {
                        &&& final(self)@ == old(self)@
                        &&& match root_ref(line) {
                            Some(r) => res matches TrailerStep::Found(o) && is_root_object(o, r),
                            None => res is NotFound,
                        }
                    } else {
                        res is Continue && final(self)@ == (Seq::<char>::empty(), in_trailer)
                    }
                }
            }),
    {
        proof {
            use_type_invariant(&*self);
            lemma_byte_text(byte);
        }
        let (newline, curr_str) = next_text(byte);
        if newline {
            let lower = to_lowercase(self.curr_line.as_str());
            if contains(lower.as_str(), "trailer") {
                self.is_trailer_block = true;
                self.curr_line = String::new();
                return TrailerStep::Continue;
            }
            if self.is_trailer_block {
                if contains(lower.as_str(), "root") {
                    let root_line = locate_obj_by_name(self.curr_line.as_str(), "root");
                    let root_obj = split(root_line.as_str(), ' ');
                    if root_obj.len() >= 3 {
                        let obj_ref = match parse_i64(trim(root_obj[0].as_str()).as_str()) {
                            Some(v) => v,
                            None => -1i64,
                        };
                        let generation = match parse_i64(trim(root_obj[1].as_str()).as_str()) {
                            Some(v) => v,
                            None => -1i64,
                        };
                        if obj_ref >= 0 && generation >= 0 {
                            let pdf_obj = PdfObject::new(
                                obj_ref,
                                generation,
                                true,
                                None,
                                ObjectType::Root,
                            );
                            return TrailerStep::Found(pdf_obj);
                        }
                    }
                    return TrailerStep::NotFound;
                }
            }
            self.curr_line = String::new();
        } else {
            let ghost before = self.curr_line@;
            proof {
                vstd::utf8::is_ascii_chars_concat(before + curr_str@, before, curr_str@);
            }
            let line = self.curr_line.clone();
            self.curr_line = line.concat(curr_str.as_str());
        }
        TrailerStep::Continue
    }
}

// ----- laws -----

/// The search for `startxref` starts inside the file: at its start, or
/// exactly 1024 bytes before its end once the file is 1536 bytes or longer.
pub proof fn lemma_scan_offset(file_len: u64)
    ensures
        scan_offset(file_len) <= file_len,
        file_len >= 1536 ==> scan_offset(file_len) == file_len - 1024,
        file_len < 1536 ==> scan_offset(file_len) == 0,
{
}

/// Once a `startxref` line has been read it stays read; a byte ends the
/// search only at a line feed after it; and a line only grows by the text of
/// bytes that are not line feeds.
pub proof fn lemma_start_xref_steps(s: (Seq<char>, bool), byte: std::io::Result<u8>)
    ensures
        s.1 ==> start_xref_next(s, byte).0.1,
        !start_xref_next(s, byte).1 ==> s.1 && byte_text(byte) == seq!['\n'],
        byte_text(byte) != seq!['\n'] ==> start_xref_next(s, byte).0.0 == s.0 + byte_text(byte),
{
}

/// The root the trailer names has an object number and a generation that
/// are not negative, and is found only from a line with at least three
/// fields after `root`.
pub proof fn lemma_root_ref_nonnegative(line: Seq<char>)
    ensures
        root_ref(line) matches Some(r) ==> r.0 >= 0 && r.1 >= 0 && split_on(
            located_ascii(line, "root"@),
            ' ',
        ).len() >= 3,
{
}

/// No character of `x` is white space.
pub open spec fn no_white_space(x: Seq<char>) -> bool {
    forall|i: int| 0 <= i < x.len() ==> !crate::text::is_white_space(#[trigger] x[i])
}

/// A subsection header `x y` of two decimal fields, ended by a line feed,
/// sets the count to the value of the whole second field, and keeps the
/// offsets and the next object number.
pub proof fn lemma_table_header_sets_count(s: ObjMapState, x: Seq<char>, y: Seq<char>)
    requires
        x.len() > 0,
        y.len() > 0,
        crate::text::all_digits(x),
        crate::text::all_digits(y),
        crate::text::digits_value(y) <= i64::MAX,
        s.obj_line == x + seq![' '] + y,
    ensures
        obj_map_next(s, Ok(10u8)).1 == ObjMapReply::Continue,
        obj_map_next(s, Ok(10u8)).0.total_obj == crate::text::digits_value(y),
        obj_map_next(s, Ok(10u8)).0.obj_map == s.obj_map,
        obj_map_next(s, Ok(10u8)).0.current_obj == s.current_obj,
        obj_map_next(s, Ok(10u8)).0.obj_line.len() == 0,
{
    lemma_byte_text(Ok(10u8));
    assert(x[0] != ' ' && crate::text::is_digit(x[0]));
    assert(forall|i: int| 0 <= i < x.len() ==> x[i] != ' ' && #[trigger] crate::text::is_digit(x[i]));
    assert(forall|i: int| 0 <= i < y.len() ==> y[i] != ' ' && #[trigger] crate::text::is_digit(y[i]));
    let l = x + seq![' '] + y;
    assert(l[0] == x[0]);
    assert(l.last() == y.last());
    assert(crate::text::is_digit(y.last()));
    crate::text::lemma_trimmed_unchanged(l);
    crate::text::lemma_split_two(x, y, ' ');
    crate::text::lemma_parse_digits(y);
}

/// An entry `x g k` whose first field is a decimal offset, ended by a line
/// feed, records that offset for the next object number and moves on to the
/// next number; reading stops exactly when the count is reached.
pub proof fn lemma_table_entry_records_offset(
    s: ObjMapState,
    x: Seq<char>,
    g: Seq<char>,
    k: Seq<char>,
)
    requires
        x.len() > 0,
        g.len() > 0,
        k.len() > 0,
        crate::text::all_digits(x),
        crate::text::digits_value(x) <= usize::MAX,
        no_white_space(g),
        no_white_space(k),
        s.current_obj < i64::MAX,
        s.obj_line == x + seq![' '] + g + seq![' '] + k,
    ensures
        obj_map_next(s, Ok(10u8)).0.obj_map == s.obj_map.insert(
            s.current_obj,
            crate::text::digits_value(x) as usize,
        ),
        obj_map_next(s, Ok(10u8)).0.current_obj == s.current_obj + 1,
        obj_map_next(s, Ok(10u8)).0.total_obj == s.total_obj,
        obj_map_next(s, Ok(10u8)).1 == if s.current_obj + 1 == s.total_obj {
            ObjMapReply::Done
        } else {
            ObjMapReply::Continue
        },
{
    lemma_byte_text(Ok(10u8));
    assert(forall|i: int| 0 <= i < x.len() ==> x[i] != ' ' && #[trigger] crate::text::is_digit(x[i]));
    assert(forall|i: int| 0 <= i < g.len() ==> #[trigger] g[i] != ' ' && !crate::text::is_white_space(g[i]));
    assert(forall|i: int| 0 <= i < k.len() ==> #[trigger] k[i] != ' ' && !crate::text::is_white_space(k[i]));
    let l = x + seq![' '] + g + seq![' '] + k;
    assert(l[0] == x[0]);
    assert(l.last() == k.last());
    assert(crate::text::is_digit(x[0]));
    crate::text::lemma_trimmed_unchanged(l);
    crate::text::lemma_split_three(x, g, k, ' ');
    crate::text::lemma_parse_digits(x);
}

/// The root a trailer names is read from the whole first two fields after
/// `root`: when they are decimal numbers that fit an `i64`, the root is the
/// object of those numbers.
pub proof fn lemma_root_from_whole_fields(line: Seq<char>, a: Seq<char>, b: Seq<char>)
    requires
        split_on(located_ascii(line, "root"@), ' ').len() >= 3,
        split_on(located_ascii(line, "root"@), ' ')[0] == a,
        split_on(located_ascii(line, "root"@), ' ')[1] == b,
        a.len() > 0,
        b.len() > 0,
        crate::text::all_digits(a),
        crate::text::all_digits(b),
        crate::text::digits_value(a) <= i64::MAX,
        crate::text::digits_value(b) <= i64::MAX,
    ensures
        root_ref(line) == Some(
            (crate::text::digits_value(a) as i64, crate::text::digits_value(b) as i64),
        ),
{
    assert(crate::text::is_digit(a[0]) && crate::text::is_digit(a.last()));
    assert(crate::text::is_digit(b[0]) && crate::text::is_digit(b.last()));
    crate::text::lemma_trimmed_unchanged(a);
    crate::text::lemma_trimmed_unchanged(b);
    crate::text::lemma_parse_digits(a);
    crate::text::lemma_parse_digits(b);
}

/// Once `startxref` has been read, a following line that is a decimal
/// number (white space around it allowed) gives that number as the offset,
/// for every value up to `u64::MAX`.
pub proof fn lemma_start_xref_reads_whole_number(line: Seq<char>, d: Seq<char>)
    requires
        d.len() > 0,
        crate::text::all_digits(d),
        crate::text::digits_value(d) <= u64::MAX,
        trimmed(line) == d,
    ensures
        start_xref_value((line, true)) == crate::text::digits_value(d),
{
    crate::text::lemma_parse_digits(d);
    crate::text::lemma_trim_front_shape(line);
    crate::text::lemma_trim_back_shape(crate::text::trim_front(line));
}

/// The offset is the parsed value of the line after `startxref`, whatever
/// that value is.
pub proof fn lemma_start_xref_value_is_parsed(s: (Seq<char>, bool), v: u64)
    requires
        s.1,
        parsed_u64(trimmed(s.0)) == Some(v),
    ensures
        start_xref_value(s) == v,
{
    if s.0.len() == 0 {
        assert(trimmed(s.0) =~= s.0);
    }
}

/// A byte that is not a line feed only adds its character to the line (an
/// ASCII byte other than a vertical tab or form feed), or nothing (any other
/// byte, or a read error); the offsets, count and next number stay as they
/// were, and reading goes on.
pub proof fn lemma_table_text_byte(s: ObjMapState, byte: std::io::Result<u8>)
    requires
        !(byte matches Ok(b) && b == 10u8),
    ensures
        obj_map_next(s, byte).1 == ObjMapReply::Continue,
        obj_map_next(s, byte).0.obj_map == s.obj_map,
        obj_map_next(s, byte).0.total_obj == s.total_obj,
        obj_map_next(s, byte).0.current_obj == s.current_obj,
        byte matches Ok(b) ==> (b < 128 && b != 11 && b != 12 ==> obj_map_next(s, byte).0.obj_line
            == s.obj_line.push(b as char)),
        !(byte matches Ok(b) && b < 128 && b != 11 && b != 12) ==> obj_map_next(
            s,
            byte,
        ).0.obj_line == s.obj_line,
{
    lemma_byte_text(byte);
    assert(s.obj_line + Seq::<char>::empty() =~= s.obj_line);
    if let Ok(b) = byte {
        assert(s.obj_line + seq![b as char] =~= s.obj_line.push(b as char));
    }
}

/// A subsection header `x y` whose second field is not a number reports that
/// whole field and leaves the state as it was.
pub proof fn lemma_table_header_bad_count(s: ObjMapState, x: Seq<char>, y: Seq<char>)
    requires
        x.len() > 0,
        y.len() > 0,
        no_white_space(x),
        no_white_space(y),
        parsed_i64(y) is None,
        s.obj_line == x + seq![' '] + y,
    ensures
        obj_map_next(s, Ok(10u8)) == (s, ObjMapReply::BadCount(y)),
{
    lemma_byte_text(Ok(10u8));
    assert(forall|i: int| 0 <= i < x.len() ==> #[trigger] x[i] != ' ' && !crate::text::is_white_space(x[i]));
    assert(forall|i: int| 0 <= i < y.len() ==> #[trigger] y[i] != ' ' && !crate::text::is_white_space(y[i]));
    let l = x + seq![' '] + y;
    assert(l[0] == x[0]);
    assert(l.last() == y.last());
    crate::text::lemma_trimmed_unchanged(l);
    crate::text::lemma_split_two(x, y, ' ');
}

/// An entry `x g k` whose first field is not an offset reports that whole
/// field and leaves the state as it was.
pub proof fn lemma_table_entry_bad_offset(
    s: ObjMapState,
    x: Seq<char>,
    g: Seq<char>,
    k: Seq<char>,
)
    requires
        x.len() > 0,
        g.len() > 0,
        k.len() > 0,
        no_white_space(x),
        no_white_space(g),
        no_white_space(k),
        parsed_usize(x) is None,
        s.obj_line == x + seq![' '] + g + seq![' '] + k,
    ensures
        obj_map_next(s, Ok(10u8)) == (s, ObjMapReply::BadOffset(x)),
{
    lemma_byte_text(Ok(10u8));
    assert(forall|i: int| 0 <= i < x.len() ==> #[trigger] x[i] != ' ' && !crate::text::is_white_space(x[i]));
    assert(forall|i: int| 0 <= i < g.len() ==> #[trigger] g[i] != ' ' && !crate::text::is_white_space(g[i]));
    assert(forall|i: int| 0 <= i < k.len() ==> #[trigger] k[i] != ' ' && !crate::text::is_white_space(k[i]));
    let l = x + seq![' '] + g + seq![' '] + k;
    assert(l[0] == x[0]);
    assert(l.last() == k.last());
    crate::text::lemma_trimmed_unchanged(l);
    crate::text::lemma_split_three(x, g, k, ' ');
}

} // verus!
