//! Reading one PDF object: cut out its content, check that it holds the keys
//! its type calls for, and follow the reference to its child.
//!
//! The reference text (`<number> <number> <capital letter>`) is matched with a
//! `regex` pattern; what the match gives is named, and what is made of the
//! groups is stated exactly.

use vstd::prelude::*;

use crate::models::{ObjectType, PdfObject};
use crate::text::{lowercase_of, parse_i64, parsed_i64, to_lowercase, trimmed};
use crate::utils::{
    catalog_bytes, catalog_marker, contents_bytes, contents_marker, convert_bytes_str, count_bytes,
    count_marker, decimal_i64, extract_obj_content, first_occurrence, flatten_objs, flattened,
    get_pos_by_markers, kids_bytes, kids_marker, lemma_first_occurrence_from_bounds, obj_content,
    page_bytes, page_marker, pages_bytes, pages_marker, ref_bytes, utf8_lossy,
};

verus! {

#[verifier::external_type_specification]
#[verifier::external_body]
pub struct ExRegex(regex::Regex);

#[verifier::external_type_specification]
#[verifier::external_body]
pub struct ExRegexError(regex::Error);

// ----- the regular expression -----

/// Whether `regex::Regex::new` accepts a pattern (with the default size
/// limit, which does not change between calls).
pub uninterp spec fn regex_compiles(pattern: Seq<char>) -> bool;

/// What `regex::Regex::captures` finds in a haystack for a pattern: `None`
/// when there is no match, else the text of each capture group in order
/// (group 0 is the whole match; `None` for a group that took no part).
pub uninterp spec fn regex_captures(pattern: Seq<char>, haystack: Seq<char>) -> Option<
    Seq<Option<Seq<char>>>,
>;

/// `regex::Regex::new`: it succeeds exactly on the patterns it accepts.
#[verifier::external_body]
fn regex_new(pattern: &str) -> (res: Result<regex::Regex, regex::Error>)
    ensures
        res is Ok <==> regex_compiles(pattern@),
{
    regex::Regex::new(pattern)
}

/// A compiled regular expression and the pattern it was compiled from. It is
/// only made by `CompiledPattern::compile`, from the pattern it records.
pub struct CompiledPattern {
    regex: regex::Regex,
    pattern: Ghost<Seq<char>>,
}

impl View for CompiledPattern {
    type V = Seq<char>;

    closed spec fn view(&self) -> Seq<char> {
        self.pattern@
    }
}

impl CompiledPattern {
    /// The pattern compiled, or `None` when `regex` refuses it.
    pub fn compile(pattern: &str) -> (res: Option<CompiledPattern>)
        ensures
            res is Some <==> regex_compiles(pattern@),
            res matches Some(c) ==> c@ == pattern@,
    {
        match regex_new(pattern) {
            Ok(regex) => Some(CompiledPattern { regex, pattern: Ghost(pattern@) }),
            Err(_) => None,
        }
    }
}

/// The capture groups as character sequences.
pub open spec fn captures_view(c: Option<Vec<Option<String>>>) -> Option<Seq<Option<Seq<char>>>> {
    match c {
        Some(groups) => Some(
            groups@.map_values(
                |g: Option<String>|
                    match g {
                        Some(s) => Some(s@),
                        None => None,
                    },
            ),
        ),
        None => None,
    }
}

/// `regex::Regex::captures` on the compiled pattern, each group's
/// `Match::as_str` taken as an owned string. Its result is named: it depends
/// on the pattern the regex was compiled from and on the haystack alone.
#[verifier::external_body]
fn captures(re: &CompiledPattern, haystack: &str) -> (res: Option<Vec<Option<String>>>)
    ensures
        captures_view(res) == regex_captures(re@, haystack@),
{
    re.regex.captures(haystack).map(
        |caps| caps.iter().map(|m| m.map(|m| m.as_str().to_string())).collect(),
    )
}

/// The pattern of an object reference: two numbers and a capital letter.
pub open spec fn obj_ref_pattern() -> Seq<char> {
    "^(\\d+) (\\d+) ([A-Z])$"@
}

/// Group `i`, or `None` when there is no such group.
pub open spec fn group(g: Seq<Option<Seq<char>>>, i: int) -> Option<Seq<char>> {
    if 0 <= i < g.len() {
        g[i]
    } else {
        None
    }
}

/// Object number, generation, and whether the letter is an `r` in lower case,
/// from the groups of a match; `None` when a group is missing or a number
/// does not fit an `i64`.
pub open spec fn obj_ref_of_groups(g: Seq<Option<Seq<char>>>) -> Option<(i64, i64, bool)> {
    match (group(g, 1), group(g, 2), group(g, 3)) {
        (Some(a), Some(b), Some(c)) => match (parsed_i64(a), parsed_i64(b)) {
            (Some(obj_ref), Some(gen_no)) => Some((obj_ref, gen_no, lowercase_of(c) == seq!['r'])),
            _ => None,
        },
        _ => None,
    }
}

/// What `parse_obj_ref_str` makes of a text.
pub open spec fn parsed_obj_ref(s: Seq<char>) -> Option<(i64, i64, bool)> {
    if !regex_compiles(obj_ref_pattern()) {
        None
    } else {
        match regex_captures(obj_ref_pattern(), s) {
            Some(g) => obj_ref_of_groups(g),
            None => None,
        }
    }
}

fn group_text(groups: &Vec<Option<String>>, i: usize) -> (res: Option<&String>)
    ensures
        match res {
            Some(s) => group(captures_view(Some(*groups))->0, i as int) == Some(s@),
            None => group(captures_view(Some(*groups))->0, i as int) is None,
        },
{
    if i < groups.len() {
        match &groups[i] {
            Some(s) => Some(s),
            None => None,
        }
    } else {
        None
    }
}

/// Object number, generation and reference flag from the capture groups of
/// an object reference.
pub fn obj_ref_from_captures(groups: &Vec<Option<String>>) -> (res: Option<(i64, i64, bool)>)
    ensures
        res == obj_ref_of_groups(captures_view(Some(*groups))->0),
{
    let a = group_text(groups, 1)?;
    let obj_ref = parse_i64(a.as_str())?;
    let b = group_text(groups, 2)?;
    let gen_no = parse_i64(b.as_str())?;
    let c = group_text(groups, 3)?;
    let lower = to_lowercase(c.as_str());
    let lv = crate::text::chars_of(lower.as_str());
    let r = vec!['r'];
    let is_ref = crate::text::chars_equal(lv.as_slice(), r.as_slice());
    assert(r@ =~= seq!['r']);
    let ghost g = captures_view(Some(*groups))->0;
    assert(group(g, 1) == Some(a@));
    assert(group(g, 2) == Some(b@));
    assert(group(g, 3) == Some(c@));
    Some((obj_ref, gen_no, is_ref))
}

/// Reads `<number> <number> <capital letter>`: the two numbers and whether
/// the letter is `R`.
fn parse_obj_ref_str(obj_ref_str: &String) -> (res: Option<(i64, i64, bool)>)
    ensures
        res == parsed_obj_ref(obj_ref_str@),
{
    let regex = CompiledPattern::compile("^(\\d+) (\\d+) ([A-Z])$")?;
    let groups = captures(&regex, obj_ref_str.as_str())?;
    obj_ref_from_captures(&groups)
}

// ----- object types and their keys -----

/// The type whose key an object of type `t` refers to.
pub open spec fn looked_for(t: ObjectType) -> ObjectType {
    match t {
        ObjectType::Root => ObjectType::Catalog,
        ObjectType::Catalog => ObjectType::Pages,
        ObjectType::Pages => ObjectType::Kids,
        ObjectType::Kids => ObjectType::Count,
        ObjectType::Page => ObjectType::Contents,
        _ => ObjectType::NA,
    }
}

/// The dictionary key of a type (empty for the types without one).
pub open spec fn type_marker(t: ObjectType) -> Seq<u8> {
    match t {
        ObjectType::Catalog => catalog_marker(),
        ObjectType::Pages => pages_marker(),
        ObjectType::Kids => kids_marker(),
        ObjectType::Contents => contents_marker(),
        ObjectType::Count => count_marker(),
        ObjectType::Page => page_marker(),
        _ => Seq::empty(),
    }
}

/// A key occurs in the bytes, and not at their very start.
pub open spec fn type_present(b: Seq<u8>, key: Seq<u8>) -> bool {
    first_occurrence(b, key) matches Some(p) && p > 0
}

/// Whether an object's (flattened) content holds the keys its type calls
/// for: a root names its catalog and pages, a page tree its kids and count, a
/// page and a content object their contents; no other type is valid.
pub open spec fn valid_obj(b: Seq<u8>, t: ObjectType) -> bool {
    match t {
        ObjectType::Root => type_present(b, catalog_marker()) && type_present(b, pages_marker()),
        ObjectType::Pages => type_present(b, kids_marker()) && type_present(b, count_marker()),
        ObjectType::Page => type_present(b, contents_marker()),
        ObjectType::Contents => type_present(b, contents_marker()),
        _ => false,
    }
}

fn look_for(obj_type: &ObjectType) -> (res: ObjectType)
    ensures
        res == looked_for(*obj_type),
{
    match obj_type {
        ObjectType::Root => ObjectType::Catalog,
        ObjectType::Catalog => ObjectType::Pages,
        ObjectType::Pages => ObjectType::Kids,
        ObjectType::Kids => ObjectType::Count,
        ObjectType::Page => ObjectType::Contents,
        _ => ObjectType::NA,
    }
}

fn get_byte_types(obj_type: ObjectType) -> (res: Vec<u8>)
    ensures
        res@ == type_marker(obj_type),
{
    match obj_type {
        ObjectType::Catalog => catalog_bytes(),
        ObjectType::Pages => pages_bytes(),
        ObjectType::Kids => kids_bytes(),
        ObjectType::Contents => contents_bytes(),
        ObjectType::Count => count_bytes(),
        ObjectType::Page => page_bytes(),
        _ => Vec::new(),
    }
}

fn check_type_present(bytes: &[u8], type_bytes: &[u8]) -> (res: bool)
    requires
        type_bytes@.len() > 0,
    ensures
        res == type_present(bytes@, type_bytes@),
{
    match get_pos_by_markers(bytes, type_bytes) {
        Some(pos) => pos > 0,
        None => false,
    }
}

/// Whether an object's (flattened) content holds the keys its type calls for.
pub fn check_valid_obj(bytes: &[u8], obj_type: &ObjectType) -> (res: bool)
    ensures
        res == valid_obj(bytes@, *obj_type),
{
    match obj_type {
        ObjectType::Root => {
            let catalog = get_byte_types(look_for(&ObjectType::Root));
            let pages = get_byte_types(look_for(&ObjectType::Catalog));
            check_type_present(bytes, catalog.as_slice()) && check_type_present(
                bytes,
                pages.as_slice(),
            )
        },
        ObjectType::Pages => {
            let kids = get_byte_types(look_for(&ObjectType::Pages));
            let count = get_byte_types(look_for(&ObjectType::Kids));
            check_type_present(bytes, kids.as_slice()) && check_type_present(
                bytes,
                count.as_slice(),
            )
        },
        ObjectType::Page => {
            let contents = get_byte_types(look_for(&ObjectType::Page));
            check_type_present(bytes, contents.as_slice())
        },
        ObjectType::Contents => {
            let contents = get_byte_types(look_for(&ObjectType::Page));
            check_type_present(bytes, contents.as_slice())
        },
        _ => false,
    }
}

// ----- the reference after a key -----

/// Some `/` stands at index `i` or later.
pub open spec fn slash_after(b: Seq<u8>, i: int) -> bool {
    exists|k: int| i <= k < b.len() && b[k] == 47
}

/// The value after a key, when the key is found, a `/` follows it somewhere
/// (without one the value cannot be read), and the value is not empty.
fn get_ref_bytes(bytes: &[u8], child_type_pos: usize, child_obj_bytes: &mut Vec<u8>)
    requires
        slash_after(bytes@, child_type_pos as int),
    ensures
        final(child_obj_bytes)@ == old(child_obj_bytes)@ + ref_bytes(bytes@, child_type_pos as int),
{
    crate::utils::get_ref_bytes(bytes, child_type_pos, child_obj_bytes)
}

/// The value after the first occurrence of `key`, when there is one and it
/// is not empty.
pub open spec fn child_ref(b: Seq<u8>, key: Seq<u8>) -> Option<Seq<u8>> {
    if b.len() == 0 || key.len() == 0 {
        None
    } else {
        match first_occurrence(b, key) {
            None => None,
            Some(p) => {
                let r = ref_bytes(b, p + key.len());
                if r.len() >= 1 {
                    Some(r)
                } else {
                    None
                }
            },
        }
    }
}

/// Reading the value after `key` fails: the key is found and no `/` follows.
pub open spec fn child_ref_unreadable(b: Seq<u8>, key: Seq<u8>) -> bool {
    &&& b.len() > 0
    &&& key.len() > 0
    &&& first_occurrence(b, key) matches Some(p)
    &&& !slash_after(b, p + key.len())
}

fn extract_child_obj_ref(bytes: &[u8], type_bytes: &[u8]) -> (res: Option<Vec<u8>>)
    requires
        !child_ref_unreadable(bytes@, type_bytes@),
    ensures
        match res {
            Some(r) => child_ref(bytes@, type_bytes@) == Some(r@),
            None => child_ref(bytes@, type_bytes@) is None,
        },
{
    if bytes.len() == 0 || type_bytes.len() == 0 {
        return None;
    }
    let found = get_pos_by_markers(bytes, type_bytes)?;
    proof {
        lemma_first_occurrence_from_bounds(bytes@, type_bytes@, 0);
    }
    let n = bytes.len();
    assert(found + type_bytes@.len() <= n);
    let child_type_pos = found + type_bytes.len();
    let mut child_obj_bytes: Vec<u8> = Vec::new();
    get_ref_bytes(bytes, child_type_pos, &mut child_obj_bytes);
    assert(child_obj_bytes@ =~= ref_bytes(bytes@, child_type_pos as int));
    if child_obj_bytes.len() >= 1 {
        return Some(child_obj_bytes);
    }
    None
}

/// The text of the `/Kids` value of a page tree whose `/Count` is a positive
/// number: blanks skipped, up to the next `/`, read as UTF-8 and trimmed.
pub open spec fn pages_kids_text(b: Seq<u8>) -> Option<Seq<char>> {
    if b.len() == 0 {
        None
    } else {
        match first_occurrence(b, count_marker()) {
            None => None,
            Some(c) => {
                let count = ref_bytes(b, c + count_marker().len());
                if count.len() >= 1 {
                    match decimal_i64(count) {
                        Some(n) => if n > 0 {
                            match first_occurrence(b, kids_marker()) {
                                Some(k) => Some(
                                    trimmed(utf8_lossy(ref_bytes(b, k + kids_marker().len()))),
                                ),
                                None => None,
                            }
                        } else {
                            None
                        },
                        None => None,
                    }
                } else {
                    None
                }
            },
        }
    }
}

/// Reading a page tree fails: its `/Count` has no `/` after it, or the count
/// is positive and its `/Kids` has no `/` after it.
pub open spec fn pages_ref_unreadable(b: Seq<u8>) -> bool {
    &&& b.len() > 0
    &&& first_occurrence(b, count_marker()) matches Some(c)
    &&& {
        ||| !slash_after(b, c + count_marker().len())
        ||| {
            let count = ref_bytes(b, c + count_marker().len());
            &&& count.len() >= 1
            &&& decimal_i64(count) matches Some(n)
            &&& n > 0
            &&& first_occurrence(b, kids_marker()) matches Some(k)
            &&& !slash_after(b, k + kids_marker().len())
        }
    }
}

/// The page tree's `/Kids` text, when its `/Count` is positive. A page tree
/// yields no child reference of its own; this text is what it lists.
fn extract_pages_obj_ref(bytes: &[u8]) -> (res: Option<String>)
    requires
        !pages_ref_unreadable(bytes@),
    ensures
        match res {
            Some(s) => pages_kids_text(bytes@) == Some(s@),
            None => pages_kids_text(bytes@) is None,
        },
{
    if bytes.len() == 0 {
        return None;
    }
    let count = count_bytes();
    let kids = kids_bytes();
    let found = get_pos_by_markers(bytes, count.as_slice())?;
    proof {
        lemma_first_occurrence_from_bounds(bytes@, count_marker(), 0);
    }
    let n = bytes.len();
    assert(found + count_marker().len() <= n);
    let count_pos = found + count.len();
    let mut count_text: Vec<u8> = Vec::new();
    get_ref_bytes(bytes, count_pos, &mut count_text);
    assert(count_text@ =~= ref_bytes(bytes@, count_pos as int));
    if count_text.len() >= 1 {
        let count_str = convert_bytes_str(count_text.as_slice());
        proof {
            crate::utils::lemma_decimal_i64(count_text@, count_str@);
        }
        let value = parse_i64(count_str.as_str())?;
        if value > 0 {
            let kids_found = get_pos_by_markers(bytes, kids.as_slice())?;
            proof {
                lemma_first_occurrence_from_bounds(bytes@, kids_marker(), 0);
            }
            assert(kids_found + kids_marker().len() <= n);
            let kids_pos = kids_found + kids.len();
            let mut kids_text: Vec<u8> = Vec::new();
            get_ref_bytes(bytes, kids_pos, &mut kids_text);
            assert(kids_text@ =~= ref_bytes(bytes@, kids_pos as int));
            return Some(convert_bytes_str(kids_text.as_slice()));
        }
    }
    None
}

// ----- the child of an object -----

/// The reference bytes an object of type `t` points to its child with: a
/// catalog through `/Pages`, a page through `/Contents`; nothing otherwise.
pub open spec fn child_ref_bytes(b: Seq<u8>, t: ObjectType) -> Option<Seq<u8>> {
    match t {
        ObjectType::Catalog => child_ref(b, pages_marker()),
        ObjectType::Page => child_ref(b, contents_marker()),
        _ => None,
    }
}

/// Reading the child reference of an object of type `t` fails.
pub open spec fn child_lookup_unreadable(b: Seq<u8>, t: ObjectType) -> bool {
    match t {
        ObjectType::Catalog => child_ref_unreadable(b, pages_marker()),
        ObjectType::Page => child_ref_unreadable(b, contents_marker()),
        ObjectType::Pages => pages_ref_unreadable(b),
        _ => false,
    }
}

/// The child reference of an object of type `t`, read as an object reference.
pub open spec fn child_obj_ref(b: Seq<u8>, t: ObjectType) -> Option<(i64, i64, bool)> {
    match child_ref_bytes(b, t) {
        Some(r) => parsed_obj_ref(trimmed(utf8_lossy(r))),
        None => None,
    }
}

/// The object that a reference names: a page tree with no kids yet.
pub open spec fn is_child_object(o: PdfObject, r: (i64, i64, bool)) -> bool {
    &&& o.obj_ref == r.0
    &&& o.generation == r.1
    &&& o.is_ref == r.2
    &&& o.kids@.len() == 0
    &&& o.object_type == ObjectType::Pages
}

/// The child an object of type `obj_type` refers to, with the `/Kids` text
/// that a page tree lists.
fn get_child_obj_ref(bytes: &[u8], obj_type: &ObjectType) -> (res: (
    Option<PdfObject>,
    Option<String>,
))
    requires
        !child_lookup_unreadable(bytes@, *obj_type),
    ensures
        match res.0 {
            Some(o) => child_obj_ref(bytes@, *obj_type) matches Some(r) && is_child_object(o, r),
            None => child_obj_ref(bytes@, *obj_type) is None,
        },
        match res.1 {
            Some(s) => *obj_type == ObjectType::Pages && pages_kids_text(bytes@) == Some(s@),
            None => *obj_type == ObjectType::Pages ==> pages_kids_text(bytes@) is None,
        },
{
    let mut listed: Option<String> = None;
    let child_ref: Option<Vec<u8>> = match obj_type {
        ObjectType::Catalog => {
            let pages = pages_bytes();
            extract_child_obj_ref(bytes, pages.as_slice())
        },
        ObjectType::Pages => {
            listed = extract_pages_obj_ref(bytes);
            None
        },
        ObjectType::Page => {
            let contents = contents_bytes();
            extract_child_obj_ref(bytes, contents.as_slice())
        },
        _ => None,
    };
    if let Some(child_ref) = child_ref {
        let child_obj_str = convert_bytes_str(child_ref.as_slice());
        let (obj_ref, gen_no, is_ref) = match parse_obj_ref_str(&child_obj_str) {
            Some(r) => r,
            None => return (None, listed),
        };
        let child_obj = PdfObject::new(obj_ref, gen_no, is_ref, None, ObjectType::Pages);
        return (Some(child_obj), listed);
    }
    (None, listed)
}

/// Why an object could not be read.
#[derive(Debug, PartialEq, Eq, Structural, Clone, Copy)]
pub enum ObjectError {
    /// No `obj` ... `endobj` content at the given position.
    Corrupted,
}

/// Reading the object at a position fails: it is a valid root (its content
/// names `/Catalog` and `/Pages`) and no `/` follows the first `/Pages` of
/// the object, so the reference cannot be read.
pub open spec fn object_unreadable(ob: Seq<u8>, t: ObjectType) -> bool {
    match obj_content(ob) {
        Some(c) => t == ObjectType::Root && valid_obj(flattened(c), t) && child_ref_unreadable(
            ob,
            pages_marker(),
        ),
        None => false,
    }
}

/// Reads the object that starts at `start_idx`: `Err(Corrupted)` when it has
/// no `obj` ... `endobj` content, `Ok(None)` when the content (flattened)
/// lacks the keys of `pdf_object`'s type or names no readable child, else the
/// child it refers to, as a page tree.
pub fn get_object(bytes: &[u8], start_idx: usize, pdf_object: &PdfObject) -> (res: Result<
    Option<PdfObject>,
    ObjectError,
>)
    requires
        start_idx <= bytes@.len(),
        !object_unreadable(
            bytes@.subrange(start_idx as int, bytes@.len() as int),
            pdf_object.object_type,
        ),
    ensures
        ({
            let ob = bytes@.subrange(start_idx as int, bytes@.len() as int);
            let t = pdf_object.object_type;
            match obj_content(ob) {
                None => res == Err::<Option<PdfObject>, ObjectError>(ObjectError::Corrupted),
                Some(c) => if !valid_obj(flattened(c), t) {
                    res matches Ok(None)
                } else {
                    match child_obj_ref(ob, looked_for(t)) {
                        Some(r) => res matches Ok(Some(o)) && is_child_object(o, r),
                        None => res matches Ok(None),
                    }
                },
            }
        }),
{
    let obj_bytes = vstd::slice::slice_subrange(bytes, start_idx, bytes.len());
    let content_bytes = match extract_obj_content(obj_bytes) {
        Some(content_bytes) => content_bytes,
        None => {
            return Err(ObjectError::Corrupted);
        },
    };
    let skimmed_bytes = flatten_objs(content_bytes);
    if !check_valid_obj(skimmed_bytes.as_slice(), &pdf_object.object_type) {
        return Ok(None);
    }
    let wanted = look_for(&pdf_object.object_type);
    let (child, _listed) = get_child_obj_ref(obj_bytes, &wanted);
    Ok(child)
}

// ----- laws -----

/// Only a root, a page tree, a page or a content object can be valid, and of
/// these only a root leads to a child: through the `/Pages` key of its
/// object, read as a catalog. So `get_object` never lists a page tree's kids,
/// and every object it returns is a page tree it found through `/Pages`.
pub proof fn lemma_valid_objects_and_children(content: Seq<u8>, ob: Seq<u8>, t: ObjectType)
    ensures
        valid_obj(content, t) ==> (t == ObjectType::Root || t == ObjectType::Pages || t
            == ObjectType::Page || t == ObjectType::Contents),
        valid_obj(content, t) && t != ObjectType::Root ==> child_obj_ref(ob, looked_for(t)) is None,
        valid_obj(content, t) ==> looked_for(t) != ObjectType::Pages,
        t == ObjectType::Root ==> child_ref_bytes(ob, looked_for(t)) == child_ref(
            ob,
            pages_marker(),
        ),
{
}

/// A valid root names `/Catalog` and `/Pages`, a valid page tree `/Kids` and
/// `/Count`, a valid page or content object `/Contents`, each after the
/// first byte.
pub proof fn lemma_valid_keys_after_start(content: Seq<u8>, t: ObjectType, key: Seq<u8>)
    requires
        valid_obj(content, t),
        t == ObjectType::Root ==> key == catalog_marker() || key == pages_marker(),
        t == ObjectType::Pages ==> key == kids_marker() || key == count_marker(),
        t == ObjectType::Page ==> key == contents_marker(),
        t == ObjectType::Contents ==> key == contents_marker(),
    ensures
        first_occurrence(content, key) matches Some(p) && p > 0 && crate::text::occurs_at(
            content,
            key,
            p,
        ),
{
    lemma_first_occurrence_from_bounds(content, key, 0);
}

/// A key counts as present exactly when it occurs somewhere in the content
/// but not at its very start, whatever byte stands before it.
pub proof fn lemma_key_present_anywhere_after_start(b: Seq<u8>, key: Seq<u8>)
    ensures
        type_present(b, key) <==> (crate::text::contains_seq(b, key) && !crate::text::occurs_at(
            b,
            key,
            0,
        )),
{
    crate::utils::lemma_first_occurrence_is_first(b, key);
}

/// An object is valid exactly when the keys of its type occur in its
/// content, each somewhere other than at the first byte: for a root
/// `/Catalog` and `/Pages`, for a page tree `/Kids` and `/Count`, for a page
/// or a content object `/Contents`.
pub proof fn lemma_valid_by_key_occurrences(b: Seq<u8>, t: ObjectType)
    ensures
        ({
            let found = |key: Seq<u8>|
                crate::text::contains_seq(b, key) && !crate::text::occurs_at(b, key, 0);
            valid_obj(b, t) <==> match t {
                ObjectType::Root => found(catalog_marker()) && found(pages_marker()),
                ObjectType::Pages => found(kids_marker()) && found(count_marker()),
                ObjectType::Page => found(contents_marker()),
                ObjectType::Contents => found(contents_marker()),
                _ => false,
            }
        }),
{
    lemma_key_present_anywhere_after_start(b, catalog_marker());
    lemma_key_present_anywhere_after_start(b, pages_marker());
    lemma_key_present_anywhere_after_start(b, kids_marker());
    lemma_key_present_anywhere_after_start(b, count_marker());
    lemma_key_present_anywhere_after_start(b, contents_marker());
}

} // verus!
