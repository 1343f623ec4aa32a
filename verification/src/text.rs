//! Character-level text operations used by the PDF and search code: the
//! Unicode white space that `str::trim` removes, trimming, substring search,
//! removal of a pattern, splitting on one character and decimal parsing.

use vstd::prelude::*;

verus! {

// ----- conversions between `str` and a vector of its characters -----

/// The characters of `s`, in order, collected into a vector.
pub(crate) fn chars_of(s: &str) -> (v: Vec<char>)
    ensures
        v@ == s@,
{
    broadcast use vstd::string::group_string_axioms;

    let mut v: Vec<char> = Vec::new();
    for c in it: s.chars()
        invariant
            it.seq() == s@,
            v@ == it.seq().take(it.index() as int),
        ensures
            v@ == s@,
    {
        v.push(c);
        assert(v@ =~= it.seq().take(it.index() + 1));
    }
    v
}

/// A `String` collected from characters (`FromIterator<char>`): it holds
/// exactly `chars`, in order.
#[verifier::external_body]
pub(crate) fn string_of(chars: &[char]) -> (s: String)
    ensures
        s@ == chars@,
{
    chars.iter().collect()
}

// ----- white space and trimming -----

/// The Unicode `White_Space` property, which `char::is_whitespace` and
/// `str::trim` go by.
pub open spec fn is_white_space(c: char) -> bool {
    let u = c as u32;
    ||| (9 <= u && u <= 13)
    ||| u == 0x20
    ||| u == 0x85
    ||| u == 0xA0
    ||| u == 0x1680
    ||| (0x2000 <= u && u <= 0x200A)
    ||| u == 0x2028
    ||| u == 0x2029
    ||| u == 0x202F
    ||| u == 0x205F
    ||| u == 0x3000
}

pub fn is_white_space_char(c: char) -> (res: bool)
    ensures
        res == is_white_space(c),
{
    let u = c as u32;
    (9 <= u && u <= 13) || u == 0x20 || u == 0x85 || u == 0xA0 || u == 0x1680 || (0x2000 <= u
        && u <= 0x200A) || u == 0x2028 || u == 0x2029 || u == 0x202F || u == 0x205F || u == 0x3000
}

/// `s` without its leading white space.
pub open spec fn trim_front(s: Seq<char>) -> Seq<char>
    decreases s.len(),
{
    if s.len() > 0 && is_white_space(s[0]) {
        trim_front(s.drop_first())
    } else {
        s
    }
}

/// `s` without its trailing white space.
pub open spec fn trim_back(s: Seq<char>) -> Seq<char>
    decreases s.len(),
{
    if s.len() > 0 && is_white_space(s.last()) {
        trim_back(s.drop_last())
    } else {
        s
    }
}

/// `s` without leading and trailing white space, as `str::trim` gives it.
pub open spec fn trimmed(s: Seq<char>) -> Seq<char> {
    trim_back(trim_front(s))
}

/// The characters of `v` without leading and trailing white space.
pub fn trim_chars(v: &[char]) -> (res: Vec<char>)
    ensures
        res@ == trimmed(v@),
{
    let n = v.len();
    let mut i: usize = 0;
    assert(v@.subrange(0, n as int) =~= v@);
    while i < n && is_white_space_char(v[i])
        invariant
            i <= n,
            n == v@.len(),
            trim_front(v@) == trim_front(v@.subrange(i as int, n as int)),
        decreases n - i,
    {
        assert(v@.subrange(i as int, n as int).drop_first() =~= v@.subrange(i + 1, n as int));
        i = i + 1;
    }
    let mut j: usize = n;
    while j > i && is_white_space_char(v[j - 1])
        invariant
            i <= j <= n,
            n == v@.len(),
            trim_front(v@) == v@.subrange(i as int, n as int),
            trim_back(v@.subrange(i as int, n as int)) == trim_back(v@.subrange(i as int, j as int)),
        decreases j,
    {
        assert(v@.subrange(i as int, j as int).drop_last() =~= v@.subrange(i as int, j - 1));
        j = j - 1;
    }
    let mut res: Vec<char> = Vec::new();
    let mut k: usize = i;
    while k < j
        invariant
            i <= k <= j <= n,
            n == v@.len(),
            res@ == v@.subrange(i as int, k as int),
        decreases j - k,
    {
        res.push(v[k]);
        assert(res@ =~= v@.subrange(i as int, k + 1));
        k = k + 1;
    }
    res
}

/// `str::trim`, as an owned string.
pub fn trim(s: &str) -> (res: String)
    ensures
        res@ == trimmed(s@),
{
    let v = chars_of(s);
    let t = trim_chars(v.as_slice());
    string_of(t.as_slice())
}

// ----- substring search -----

/// `p` occurs in `s` starting at index `i`.
pub open spec fn occurs_at<T>(s: Seq<T>, p: Seq<T>, i: int) -> bool {
    0 <= i && i + p.len() <= s.len() && s.subrange(i, i + p.len()) == p
}

/// `p` occurs somewhere in `s` (the empty pattern occurs everywhere).
pub open spec fn contains_seq<T>(s: Seq<T>, p: Seq<T>) -> bool {
    exists|i: int| occurs_at(s, p, i)
}

/// Whether `p` occurs in `s` at index `i`.
pub fn chars_occur_at(s: &[char], p: &[char], i: usize) -> (res: bool)
    ensures
        res == occurs_at(s@, p@, i as int),
{
    if i > s.len() || p.len() > s.len() - i {
        return false;
    }
    let m = p.len();
    let sl = s.len();
    let mut k: usize = 0;
    while k < m
        invariant
            m == p@.len(),
            sl == s@.len(),
            i + p@.len() <= s@.len(),
            k <= p@.len(),
            forall|t: int| 0 <= t < k ==> s@[i + t] == p@[t],
        decreases m - k,
    {
        if s[i + k] != p[k] {
            assert(s@.subrange(i as int, i + p@.len())[k as int] != p@[k as int]);
            return false;
        }
        k = k + 1;
    }
    assert(s@.subrange(i as int, i + p@.len()) =~= p@);
    true
}

/// `str::contains` with a string pattern, on characters.
pub fn contains_chars(s: &[char], p: &[char]) -> (res: bool)
    ensures
        res == contains_seq(s@, p@),
{
    if p.len() > s.len() {
        assert forall|i: int| !occurs_at(s@, p@, i) by {}
        return false;
    }
    let last = s.len() - p.len();
    let mut i: usize = 0;
    loop
        invariant
            i <= last,
            last + p@.len() == s@.len(),
            forall|j: int| 0 <= j < i ==> !occurs_at(s@, p@, j),
        decreases last - i,
    {
        if chars_occur_at(s, p, i) {
            return true;
        }
        if i == last {
            assert forall|j: int| !occurs_at(s@, p@, j) by {
                if 0 <= j && j <= last {
                    assert(j < i || j == i);
                }
            }
            return false;
        }
        i = i + 1;
    }
}

/// `str::contains` with a `&str` pattern.
pub fn contains(s: &str, p: &str) -> (res: bool)
    ensures
        res == contains_seq(s@, p@),
{
    let sv = chars_of(s);
    let pv = chars_of(p);
    contains_chars(sv.as_slice(), pv.as_slice())
}

/// `str::starts_with` with a `&str` pattern.
pub fn starts_with(s: &str, p: &str) -> (res: bool)
    ensures
        res == occurs_at(s@, p@, 0),
{
    let sv = chars_of(s);
    let pv = chars_of(p);
    chars_occur_at(sv.as_slice(), pv.as_slice(), 0)
}

/// Whether two character sequences are equal.
pub fn chars_equal(a: &[char], b: &[char]) -> (res: bool)
    ensures
        res == (a@ == b@),
{
    if a.len() != b.len() {
        return false;
    }
    let r = chars_occur_at(a, b, 0);
    assert(a@.subrange(0, b@.len() as int) =~= a@);
    r
}

// ----- removing every occurrence of a pattern -----

/// `s.replace(p, "")`: the non-overlapping occurrences of `p`, found from the
/// left, are taken out (an empty `p` leaves `s` unchanged).
pub open spec fn remove_all(s: Seq<char>, p: Seq<char>) -> Seq<char>
    decreases s.len(),
{
    if p.len() == 0 || s.len() < p.len() {
        s
    } else if s.subrange(0, p.len() as int) == p {
        remove_all(s.subrange(p.len() as int, s.len() as int), p)
    } else {
        seq![s[0]] + remove_all(s.subrange(1, s.len() as int), p)
    }
}

/// The characters of `s` with every occurrence of `p` removed.
pub fn remove_all_chars(s: &[char], p: &[char]) -> (res: Vec<char>)
    ensures
        res@ == remove_all(s@, p@),
{
    let n = s.len();
    let mut out: Vec<char> = Vec::new();
    if p.len() == 0 {
        let mut k: usize = 0;
        while k < n
            invariant
                k <= n,
                n == s@.len(),
                out@ == s@.subrange(0, k as int),
            decreases n - k,
        {
            out.push(s[k]);
            assert(out@ =~= s@.subrange(0, k + 1));
            k = k + 1;
        }
        assert(s@.subrange(0, n as int) =~= s@);
        return out;
    }
    let mut i: usize = 0;
    assert(s@.subrange(0, n as int) =~= s@);
    while i < n
        invariant
            i <= n,
            n == s@.len(),
            p@.len() > 0,
            out@ + remove_all(s@.subrange(i as int, n as int), p@) == remove_all(s@, p@),
        decreases n - i,
    {
        let rest = Ghost(s@.subrange(i as int, n as int));
        if chars_occur_at(s, p, i) {
            assert(rest@.subrange(0, p@.len() as int) =~= p@);
            assert(rest@.subrange(p@.len() as int, rest@.len() as int) =~= s@.subrange(
                i + p@.len(),
                n as int,
            ));
            i = i + p.len();
        } else {
            if n - i >= p.len() {
                assert(rest@.subrange(0, p@.len() as int) =~= s@.subrange(
                    i as int,
                    i + p@.len(),
                ));
                assert(rest@.subrange(1, rest@.len() as int) =~= s@.subrange(i + 1, n as int));
                out.push(s[i]);
                assert(out@ + remove_all(s@.subrange(i + 1, n as int), p@) =~= out@.drop_last() + (
                seq![s@[i as int]] + remove_all(s@.subrange(i + 1, n as int), p@)));
                i = i + 1;
            } else {
                // too short for another occurrence: the rest stays as it is
                let ghost base = out@;
                let mut k: usize = i;
                while k < n
                    invariant
                        i <= k <= n,
                        n == s@.len(),
                        out@ == base + s@.subrange(i as int, k as int),
                    decreases n - k,
                {
                    out.push(s[k]);
                    assert(out@ =~= base + s@.subrange(i as int, k + 1));
                    k = k + 1;
                }
                assert(s@.subrange(n as int, n as int) =~= Seq::<char>::empty());
                i = n;
            }
        }
    }
    out
}

// ----- splitting on one character -----

/// The character sequences held by a sequence of character vectors.
pub open spec fn char_vecs_view(v: Seq<Vec<char>>) -> Seq<Seq<char>> {
    v.map_values(|x: Vec<char>| x@)
}

/// The character sequences held by a sequence of strings.
pub open spec fn strings_view(v: Seq<String>) -> Seq<Seq<char>> {
    v.map_values(|x: String| x@)
}

/// `s.split(c)`: the pieces of `s` between occurrences of `c`, empty pieces
/// included; there is always at least one piece.
pub open spec fn split_on(s: Seq<char>, c: char) -> Seq<Seq<char>>
    decreases s.len(),
{
    if s.len() == 0 {
        seq![Seq::<char>::empty()]
    } else {
        let rest = split_on(s.drop_last(), c);
        if s.last() == c {
            rest.push(Seq::<char>::empty())
        } else {
            rest.update(rest.len() - 1, rest.last().push(s.last()))
        }
    }
}

pub proof fn lemma_split_on_nonempty(s: Seq<char>, c: char)
    ensures
        split_on(s, c).len() >= 1,
    decreases s.len(),
{
    if s.len() > 0 {
        lemma_split_on_nonempty(s.drop_last(), c);
    }
}

/// The pieces of `s` between occurrences of `c`.
pub fn split_chars(s: &[char], c: char) -> (res: Vec<Vec<char>>)
    ensures
        char_vecs_view(res@) == split_on(s@, c),
{
    let n = s.len();
    let mut done: Vec<Vec<char>> = Vec::new();
    let mut cur: Vec<char> = Vec::new();
    let mut i: usize = 0;
    assert(s@.subrange(0, 0) =~= Seq::<char>::empty());
    assert(char_vecs_view(done@).push(cur@) =~= split_on(s@.subrange(0, 0), c));
    while i < n
        invariant
            i <= n,
            n == s@.len(),
            char_vecs_view(done@).push(cur@) == split_on(s@.subrange(0, i as int), c),
        decreases n - i,
    {
        let ghost prefix = s@.subrange(0, i + 1);
        assert(prefix.drop_last() =~= s@.subrange(0, i as int));
        proof {
            lemma_split_on_nonempty(prefix.drop_last(), c);
        }
        if s[i] == c {
            done.push(cur);
            cur = Vec::new();
            assert(char_vecs_view(done@).push(cur@) =~= split_on(prefix, c));
        } else {
            let ghost before = cur@;
            cur.push(s[i]);
            assert(split_on(prefix.drop_last(), c).last() == before);
            assert(char_vecs_view(done@).push(cur@) =~= split_on(prefix, c));
        }
        i = i + 1;
    }
    assert(s@.subrange(0, n as int) =~= s@);
    done.push(cur);
    done
}

/// The pieces as strings.
pub fn strings_of(pieces: &Vec<Vec<char>>) -> (res: Vec<String>)
    ensures
        strings_view(res@) == char_vecs_view(pieces@),
{
    let mut res: Vec<String> = Vec::new();
    let mut i: usize = 0;
    while i < pieces.len()
        invariant
            i <= pieces@.len(),
            res@.len() == i,
            strings_view(res@) == char_vecs_view(pieces@).subrange(0, i as int),
        decreases pieces@.len() - i,
    {
        let piece = pieces[i].as_slice();
        let s = string_of(piece);
        assert(s@ == pieces@[i as int]@);
        let ghost before = res@;
        res.push(s);
        assert(res@ == before.push(s));
        assert forall|k: int| 0 <= k < i + 1 implies strings_view(res@)[k] == char_vecs_view(
            pieces@,
        )[k] by {
            if k < i {
                assert(res@[k] == before[k]);
                assert(strings_view(before)[k] == char_vecs_view(pieces@).subrange(0, i as int)[k]);
            }
        }
        assert(strings_view(res@) =~= char_vecs_view(pieces@).subrange(0, i + 1));
        i = i + 1;
    }
    assert(char_vecs_view(pieces@).subrange(0, i as int) =~= char_vecs_view(pieces@));
    res
}

/// `s.split(c)` collected into owned strings.
pub fn split(s: &str, c: char) -> (res: Vec<String>)
    ensures
        strings_view(res@) == split_on(s@, c),
{
    let v = chars_of(s);
    let pieces = split_chars(v.as_slice(), c);
    strings_of(&pieces)
}

// ----- decimal integers, as `str::parse` reads them -----

pub open spec fn is_digit(c: char) -> bool {
    '0' <= c && c <= '9'
}

pub open spec fn all_digits(s: Seq<char>) -> bool {
    forall|i: int| 0 <= i < s.len() ==> is_digit(#[trigger] s[i])
}

/// The value of a string of decimal digits.
pub open spec fn digits_value(s: Seq<char>) -> int
    decreases s.len(),
{
    if s.len() == 0 {
        0
    } else {
        digits_value(s.drop_last()) * 10 + (s.last() as int - '0' as int)
    }
}

/// The digits after an optional `+` sign, if they form a nonempty string of
/// decimal digits.
pub open spec fn unsigned_body(s: Seq<char>) -> Option<Seq<char>> {
    let body = if s.len() > 0 && s[0] == '+' {
        s.drop_first()
    } else {
        s
    };
    if body.len() > 0 && all_digits(body) {
        Some(body)
    } else {
        None
    }
}

/// The integer that `s` writes in the syntax `str::parse` accepts for an
/// unsigned type: an optional `+`, then at least one decimal digit.
pub open spec fn unsigned_decimal(s: Seq<char>) -> Option<int> {
    match unsigned_body(s) {
        Some(b) => Some(digits_value(b)),
        None => None,
    }
}

/// The integer that `s` writes in the syntax `str::parse` accepts for a
/// signed type: an optional `+` or `-`, then at least one decimal digit.
pub open spec fn signed_decimal(s: Seq<char>) -> Option<int> {
    if s.len() > 0 && s[0] == '-' {
        let body = s.drop_first();
        if body.len() > 0 && all_digits(body) {
            Some(-digits_value(body))
        } else {
            None
        }
    } else {
        unsigned_decimal(s)
    }
}

/// `s.parse::<i64>().ok()`.
pub open spec fn parsed_i64(s: Seq<char>) -> Option<i64> {
    match signed_decimal(s) {
        Some(v) => if i64::MIN <= v && v <= i64::MAX {
            Some(v as i64)
        } else {
            None
        },
        None => None,
    }
}

/// `s.parse::<u64>().ok()`.
pub open spec fn parsed_u64(s: Seq<char>) -> Option<u64> {
    match unsigned_decimal(s) {
        Some(v) => if v <= u64::MAX {
            Some(v as u64)
        } else {
            None
        },
        None => None,
    }
}

/// `s.parse::<usize>().ok()`.
pub open spec fn parsed_usize(s: Seq<char>) -> Option<usize> {
    match unsigned_decimal(s) {
        Some(v) => if v <= usize::MAX {
            Some(v as usize)
        } else {
            None
        },
        None => None,
    }
}

pub proof fn lemma_digits_value_nonneg(s: Seq<char>)
    requires
        all_digits(s),
    ensures
        digits_value(s) >= 0,
    decreases s.len(),
{
    if s.len() > 0 {
        lemma_digits_value_nonneg(s.drop_last());
    }
}

/// A text holding a character that is neither a digit nor a sign is no
/// number.
pub proof fn lemma_parsed_i64_needs_digits(s: Seq<char>, i: int)
    requires
        0 <= i < s.len(),
        !is_digit(s[i]),
        s[i] != '+',
        s[i] != '-',
    ensures
        parsed_i64(s) is None,
{
    if s[0] == '-' || s[0] == '+' {
        assert(i > 0);
        assert(s.drop_first()[i - 1] == s[i]);
    }
}

/// A longer string of digits is worth at least as much as its prefix.
pub proof fn lemma_digits_value_prefix(s: Seq<char>, k: int)
    requires
        all_digits(s),
        0 <= k <= s.len(),
    ensures
        digits_value(s.subrange(0, k)) <= digits_value(s),
    decreases s.len() - k,
{
    if k < s.len() {
        lemma_digits_value_prefix(s, k + 1);
        let t = s.subrange(0, k + 1);
        assert(t.drop_last() =~= s.subrange(0, k));
        lemma_digits_value_nonneg(s.subrange(0, k));
    } else {
        assert(s.subrange(0, k) =~= s);
    }
}

/// The value of `body` when it is a nonempty string of digits worth at most
/// 2^64; `None` when it is not a digit string or is worth more.
fn digits_up_to_2_64(body: &[char], start: usize) -> (res: Option<u128>)
    requires
        start <= body@.len(),
    ensures
        ({
            let b = body@.subrange(start as int, body@.len() as int);
            match res {
                Some(v) => b.len() > 0 && all_digits(b) && v == digits_value(b) && v
                    <= 0x1_0000_0000_0000_0000,
                None => !(b.len() > 0 && all_digits(b)) || digits_value(b)
                    > 0x1_0000_0000_0000_0000,
            }
        }),
{
    let n = body.len();
    let ghost b = body@.subrange(start as int, n as int);
    if start == n {
        return None;
    }
    let mut acc: u128 = 0;
    let mut i: usize = start;
    while i < n
        invariant
            start <= i <= n,
            n == body@.len(),
            b == body@.subrange(start as int, n as int),
            all_digits(body@.subrange(start as int, i as int)),
            acc == digits_value(body@.subrange(start as int, i as int)),
            acc <= 0x1_0000_0000_0000_0000,
        decreases n - i,
    {
        let c = body[i];
        if !('0' <= c && c <= '9') {
            assert(b[i - start] == c);
            return None;
        }
        let d = (c as u32 - '0' as u32) as u128;
        let ghost t = body@.subrange(start as int, i + 1);
        assert(t.drop_last() =~= body@.subrange(start as int, i as int));
        assert(all_digits(t));
        acc = acc * 10 + d;
        i = i + 1;
        if acc > 0x1_0000_0000_0000_0000 {
            proof {
                if all_digits(b) {
                    assert(b.subrange(0, i - start) =~= t);
                    lemma_digits_value_prefix(b, i - start);
                }
            }
            return None;
        }
    }
    assert(body@.subrange(start as int, i as int) =~= b);
    Some(acc)
}

/// `s.parse::<i64>().ok()` on characters.
pub fn parse_i64_chars(s: &[char]) -> (res: Option<i64>)
    ensures
        res == parsed_i64(s@),
{
    let n = s.len();
    if n == 0 {
        return None;
    }
    let neg = s[0] == '-';
    let start: usize = if s[0] == '-' || s[0] == '+' {
        1
    } else {
        0
    };
    assert(s@.subrange(1, n as int) =~= s@.drop_first());
    assert(s@.subrange(0, n as int) =~= s@);
    match digits_up_to_2_64(s, start) {
        Some(v) => {
            if neg {
                if v <= 0x8000_0000_0000_0000 {
                    Some((0i128 - v as i128) as i64)
                } else {
                    None
                }
            } else {
                if v <= 0x7fff_ffff_ffff_ffff {
                    Some(v as i64)
                } else {
                    None
                }
            }
        },
        None => None,
    }
}

/// The value of an unsigned decimal, as long as it is at most 2^64.
fn unsigned_chars(s: &[char]) -> (res: Option<u128>)
    ensures
        match res {
            Some(v) => unsigned_decimal(s@) == Some(v as int) && v <= 0x1_0000_0000_0000_0000,
            None => unsigned_decimal(s@) is None || unsigned_decimal(s@)->0
                > 0x1_0000_0000_0000_0000,
        },
{
    let n = s.len();
    let start: usize = if n > 0 && s[0] == '+' {
        1
    } else {
        0
    };
    assert(n > 0 ==> s@.subrange(1, n as int) =~= s@.drop_first());
    assert(s@.subrange(0, n as int) =~= s@);
    digits_up_to_2_64(s, start)
}

/// `s.parse::<u64>().ok()` on characters.
pub fn parse_u64_chars(s: &[char]) -> (res: Option<u64>)
    ensures
        res == parsed_u64(s@),
{
    match unsigned_chars(s) {
        Some(v) => if v <= 0xffff_ffff_ffff_ffff {
            Some(v as u64)
        } else {
            None
        },
        None => None,
    }
}

/// `s.parse::<usize>().ok()` on characters.
pub fn parse_usize_chars(s: &[char]) -> (res: Option<usize>)
    ensures
        res == parsed_usize(s@),
{
    match unsigned_chars(s) {
        Some(v) => if v <= usize::MAX as u128 {
            Some(v as usize)
        } else {
            None
        },
        None => None,
    }
}

/// `s.parse::<i64>().ok()`.
pub fn parse_i64(s: &str) -> (res: Option<i64>)
    ensures
        res == parsed_i64(s@),
{
    let v = chars_of(s);
    parse_i64_chars(v.as_slice())
}

/// `s.parse::<u64>().ok()`.
pub fn parse_u64(s: &str) -> (res: Option<u64>)
    ensures
        res == parsed_u64(s@),
{
    let v = chars_of(s);
    parse_u64_chars(v.as_slice())
}

/// `s.parse::<usize>().ok()`.
pub fn parse_usize(s: &str) -> (res: Option<usize>)
    ensures
        res == parsed_usize(s@),
{
    let v = chars_of(s);
    parse_usize_chars(v.as_slice())
}

// ----- lower case -----

/// What `str::to_lowercase` returns for a string with the given characters.
pub uninterp spec fn lowercase_of(s: Seq<char>) -> Seq<char>;

/// ASCII letters made lower case, every other character kept.
pub open spec fn ascii_lowercase(s: Seq<char>) -> Seq<char> {
    s.map_values(|c: char| if 'A' <= c && c <= 'Z' { ((c as u32) + 32) as char } else { c })
}

/// `str::to_lowercase`. Its result is named, since the Unicode lower-case
/// mapping takes pages to state; on ASCII text it is the ASCII lower-case
/// mapping (`A`..`Z` to `a`..`z`, every other character unchanged), which the
/// Unicode mapping agrees with.
#[verifier::external_body]
pub(crate) fn to_lowercase(s: &str) -> (res: String)
    ensures
        res@ == lowercase_of(s@),
        vstd::utf8::is_ascii_chars(s@) ==> res@ == ascii_lowercase(s@),
{
    s.to_lowercase()
}

// ----- laws -----

pub proof fn lemma_trim_front_shape(s: Seq<char>)
    ensures
        trim_front(s).len() <= s.len(),
        trim_front(s) == s.subrange(s.len() - trim_front(s).len(), s.len() as int),
        trim_front(s).len() > 0 ==> !is_white_space(trim_front(s)[0]),
    decreases s.len(),
{
    if s.len() > 0 && is_white_space(s[0]) {
        lemma_trim_front_shape(s.drop_first());
        let t = trim_front(s.drop_first());
        assert(s.drop_first().subrange(s.len() - 1 - t.len(), s.len() - 1) =~= s.subrange(
            s.len() - t.len(),
            s.len() as int,
        ));
    } else {
        assert(s.subrange(0, s.len() as int) =~= s);
    }
}

pub proof fn lemma_trim_back_shape(s: Seq<char>)
    ensures
        trim_back(s).len() <= s.len(),
        trim_back(s) == s.subrange(0, trim_back(s).len() as int),
        trim_back(s).len() > 0 ==> !is_white_space(trim_back(s).last()),
    decreases s.len(),
{
    if s.len() > 0 && is_white_space(s.last()) {
        lemma_trim_back_shape(s.drop_last());
        let t = trim_back(s.drop_last());
        assert(s.drop_last().subrange(0, t.len() as int) =~= s.subrange(0, t.len() as int));
    } else {
        assert(s.subrange(0, s.len() as int) =~= s);
    }
}

pub proof fn lemma_trim_front_drops_white_space(s: Seq<char>)
    ensures
        forall|j: int| 0 <= j < s.len() - trim_front(s).len() ==> is_white_space(#[trigger] s[j]),
    decreases s.len(),
{
    if s.len() > 0 && is_white_space(s[0]) {
        lemma_trim_front_drops_white_space(s.drop_first());
        assert forall|j: int| 0 <= j < s.len() - trim_front(s).len() implies is_white_space(
            #[trigger] s[j],
        ) by {
            if j > 0 {
                assert(s[j] == s.drop_first()[j - 1]);
            }
        }
    }
}

pub proof fn lemma_trim_back_drops_white_space(s: Seq<char>)
    ensures
        forall|j: int| trim_back(s).len() <= j < s.len() ==> is_white_space(#[trigger] s[j]),
    decreases s.len(),
{
    if s.len() > 0 && is_white_space(s.last()) {
        lemma_trim_back_drops_white_space(s.drop_last());
        lemma_trim_back_shape(s.drop_last());
        assert forall|j: int| trim_back(s).len() <= j < s.len() implies is_white_space(
            #[trigger] s[j],
        ) by {
            if j < s.len() - 1 {
                assert(s[j] == s.drop_last()[j]);
            }
        }
    }
}

/// A character that is not white space stays when the text is trimmed.
pub proof fn lemma_trimmed_keeps(s: Seq<char>, i: int)
    requires
        0 <= i < s.len(),
        !is_white_space(s[i]),
    ensures
        trimmed(s).contains(s[i]),
{
    let f = trim_front(s);
    lemma_trim_front_shape(s);
    lemma_trim_front_drops_white_space(s);
    let a = s.len() - f.len();
    assert(a <= i);
    assert(f[i - a] == s[i]);
    lemma_trim_back_shape(f);
    lemma_trim_back_drops_white_space(f);
    let t = trim_back(f);
    assert(i - a < t.len());
    assert(t[i - a] == s[i]);
}

/// Trimming leaves no white space at either end, and trimming again changes
/// nothing.
pub proof fn lemma_trimmed(s: Seq<char>)
    ensures
        trimmed(s).len() > 0 ==> !is_white_space(trimmed(s)[0]) && !is_white_space(
            trimmed(s).last(),
        ),
        trimmed(trimmed(s)) == trimmed(s),
{
    let f = trim_front(s);
    lemma_trim_front_shape(s);
    lemma_trim_back_shape(f);
    let t = trim_back(f);
    if t.len() > 0 {
        assert(t[0] == f[0]);
    }
    assert(trim_front(t) == t);
    assert(trim_back(t) == t);
}

/// The pieces joined again, with `c` between each two.
pub open spec fn join_with(parts: Seq<Seq<char>>, c: char) -> Seq<char>
    decreases parts.len(),
{
    if parts.len() == 0 {
        Seq::empty()
    } else if parts.len() == 1 {
        parts[0]
    } else {
        join_with(parts.drop_last(), c) + seq![c] + parts.last()
    }
}

proof fn lemma_join_extend_last(parts: Seq<Seq<char>>, c: char, x: char)
    requires
        parts.len() >= 1,
    ensures
        join_with(parts.update(parts.len() - 1, parts.last().push(x)), c) == join_with(
            parts,
            c,
        ).push(x),
{
    let u = parts.update(parts.len() - 1, parts.last().push(x));
    if parts.len() > 1 {
        assert(u.drop_last() =~= parts.drop_last());
        assert(join_with(u, c) =~= join_with(parts, c).push(x));
    }
}

/// Joining the pieces of a split with the separator gives the text back,
/// and no piece holds the separator.
pub proof fn lemma_split_join(s: Seq<char>, c: char)
    ensures
        join_with(split_on(s, c), c) == s,
        forall|i: int, k: int|
            0 <= i < split_on(s, c).len() && 0 <= k < split_on(s, c)[i].len() ==> #[trigger] split_on(
                s,
                c,
            )[i][k] != c,
    decreases s.len(),
{
    if s.len() > 0 {
        let rest = split_on(s.drop_last(), c);
        lemma_split_join(s.drop_last(), c);
        lemma_split_on_nonempty(s.drop_last(), c);
        if s.last() == c {
            let p = rest.push(Seq::<char>::empty());
            assert(p.drop_last() =~= rest);
            assert(join_with(p, c) =~= s);
        } else {
            lemma_join_extend_last(rest, c, s.last());
            assert(s.drop_last().push(s.last()) =~= s);
            let p = split_on(s, c);
            assert forall|i: int, k: int| 0 <= i < p.len() && 0 <= k < p[i].len() implies #[trigger] p[i][k]
                != c by {
                if i < rest.len() - 1 {
                    assert(p[i] == rest[i]);
                } else {
                    if k < rest.last().len() {
                        assert(p[i][k] == rest[rest.len() - 1][k]);
                    }
                }
            }
        }
    }
}

/// Taking occurrences out of ASCII text leaves ASCII text.
pub proof fn lemma_remove_all_ascii(s: Seq<char>, p: Seq<char>)
    requires
        vstd::utf8::is_ascii_chars(s),
    ensures
        vstd::utf8::is_ascii_chars(remove_all(s, p)),
    decreases s.len(),
{
    if p.len() == 0 || s.len() < p.len() {
    } else if s.subrange(0, p.len() as int) == p {
        let t = s.subrange(p.len() as int, s.len() as int);
        assert(vstd::utf8::is_ascii_chars(t)) by {
            assert forall|i: int| 0 <= i < t.len() implies '\0' <= #[trigger] t[i] <= '\u{7f}' by {
                assert(t[i] == s[i + p.len()]);
            }
        }
        lemma_remove_all_ascii(t, p);
    } else {
        let t = s.subrange(1, s.len() as int);
        assert(vstd::utf8::is_ascii_chars(t)) by {
            assert forall|i: int| 0 <= i < t.len() implies '\0' <= #[trigger] t[i] <= '\u{7f}' by {
                assert(t[i] == s[i + 1]);
            }
        }
        lemma_remove_all_ascii(t, p);
        let r = seq![s[0]] + remove_all(t, p);
        assert forall|i: int| 0 <= i < r.len() implies '\0' <= #[trigger] r[i] <= '\u{7f}' by {
            if i > 0 {
                assert(r[i] == remove_all(t, p)[i - 1]);
            }
        }
    }
}

/// Trimming ASCII text leaves ASCII text.
pub proof fn lemma_trimmed_ascii(s: Seq<char>)
    requires
        vstd::utf8::is_ascii_chars(s),
    ensures
        vstd::utf8::is_ascii_chars(trimmed(s)),
{
    let f = trim_front(s);
    lemma_trim_front_shape(s);
    lemma_trim_back_shape(f);
    let t = trim_back(f);
    let a = s.len() - f.len();
    assert forall|i: int| 0 <= i < t.len() implies '\0' <= #[trigger] t[i] <= '\u{7f}' by {
        assert(t[i] == f[i]);
        assert(f[i] == s[a + i]);
    }
}

/// The pieces of split ASCII text are ASCII.
pub proof fn lemma_split_on_ascii(s: Seq<char>, c: char)
    requires
        vstd::utf8::is_ascii_chars(s),
    ensures
        forall|i: int|
            0 <= i < split_on(s, c).len() ==> vstd::utf8::is_ascii_chars(#[trigger] split_on(s, c)[i]),
    decreases s.len(),
{
    if s.len() > 0 {
        let d = s.drop_last();
        assert(vstd::utf8::is_ascii_chars(d)) by {
            assert forall|i: int| 0 <= i < d.len() implies '\0' <= #[trigger] d[i] <= '\u{7f}' by {
                assert(d[i] == s[i]);
            }
        }
        lemma_split_on_ascii(d, c);
        lemma_split_on_nonempty(d, c);
        let rest = split_on(d, c);
        let p = split_on(s, c);
        assert forall|i: int| 0 <= i < p.len() implies vstd::utf8::is_ascii_chars(#[trigger] p[i]) by {
            if s.last() == c {
                if i < rest.len() {
                    assert(p[i] == rest[i]);
                } else {
                    assert(p[i].len() == 0);
                }
            } else {
                if i < rest.len() - 1 {
                    assert(p[i] == rest[i]);
                } else {
                    let q = rest.last().push(s.last());
                    assert(p[i] == q);
                    assert(vstd::utf8::is_ascii_chars(rest[rest.len() - 1]));
                    assert forall|k: int| 0 <= k < q.len() implies '\0' <= #[trigger] q[k] <= '\u{7f}' by {
                        if k < q.len() - 1 {
                            assert(q[k] == rest[rest.len() - 1][k]);
                        } else {
                            assert(q[k] == s[s.len() - 1]);
                        }
                    }
                }
            }
        }
    }
}

/// A text without the separator is one piece.
pub proof fn lemma_split_without_separator(t: Seq<char>, c: char)
    requires
        forall|i: int| 0 <= i < t.len() ==> t[i] != c,
    ensures
        split_on(t, c) == seq![t],
    decreases t.len(),
{
    if t.len() > 0 {
        let d = t.drop_last();
        lemma_split_without_separator(d, c);
        assert(d.push(t.last()) =~= t);
        assert(split_on(t, c) =~= seq![t]);
    } else {
        assert(t =~= Seq::<char>::empty());
    }
}

/// Text without the separator added to the end lengthens the last piece.
pub proof fn lemma_split_append(s: Seq<char>, t: Seq<char>, c: char)
    requires
        forall|i: int| 0 <= i < t.len() ==> t[i] != c,
    ensures
        split_on(s + t, c) == split_on(s, c).update(
            split_on(s, c).len() - 1,
            split_on(s, c).last() + t,
        ),
    decreases t.len(),
{
    lemma_split_on_nonempty(s, c);
    let p = split_on(s, c);
    if t.len() == 0 {
        assert(s + t =~= s);
        assert(p.last() + t =~= p.last());
        assert(p.update(p.len() - 1, p.last() + t) =~= p);
    } else {
        let d = t.drop_last();
        lemma_split_append(s, d, c);
        assert((s + t).drop_last() =~= s + d);
        let rest = split_on(s + d, c);
        assert(rest.last() == p.last() + d);
        assert((p.last() + d).push(t.last()) =~= p.last() + t);
        assert(split_on(s + t, c) =~= p.update(p.len() - 1, p.last() + t));
    }
}

/// Pieces with no separator in them, joined by it, split back into the
/// same pieces: `x c y` splits into `x` and `y`.
pub proof fn lemma_split_two(x: Seq<char>, y: Seq<char>, c: char)
    requires
        forall|i: int| 0 <= i < x.len() ==> x[i] != c,
        forall|i: int| 0 <= i < y.len() ==> y[i] != c,
    ensures
        split_on(x + seq![c] + y, c) == seq![x, y],
{
    lemma_split_without_separator(x, c);
    assert((x + seq![c]).drop_last() =~= x);
    assert(split_on(x + seq![c], c) =~= seq![x, Seq::<char>::empty()]);
    lemma_split_append(x + seq![c], y, c);
    assert(Seq::<char>::empty() + y =~= y);
    assert(split_on(x + seq![c] + y, c) =~= seq![x, y]);
}

/// `x c y c z` splits into `x`, `y` and `z`.
pub proof fn lemma_split_three(x: Seq<char>, y: Seq<char>, z: Seq<char>, c: char)
    requires
        forall|i: int| 0 <= i < x.len() ==> x[i] != c,
        forall|i: int| 0 <= i < y.len() ==> y[i] != c,
        forall|i: int| 0 <= i < z.len() ==> z[i] != c,
    ensures
        split_on(x + seq![c] + y + seq![c] + z, c) == seq![x, y, z],
{
    lemma_split_two(x, y, c);
    let a = x + seq![c] + y;
    assert((a + seq![c]).drop_last() =~= a);
    assert(split_on(a + seq![c], c) =~= seq![x, y, Seq::<char>::empty()]);
    lemma_split_append(a + seq![c], z, c);
    assert(Seq::<char>::empty() + z =~= z);
    assert(split_on(a + seq![c] + z, c) =~= seq![x, y, z]);
}

/// A text that neither starts nor ends with white space is its own trim.
pub proof fn lemma_trimmed_unchanged(s: Seq<char>)
    requires
        s.len() > 0 ==> !is_white_space(s[0]) && !is_white_space(s.last()),
    ensures
        trimmed(s) == s,
{
    assert(trim_front(s) == s);
}

/// A nonempty string of decimal digits parses to its value, with or without
/// a sign: as an `i64`, a `u64` and a `usize` whenever the value fits.
pub proof fn lemma_parse_digits(d: Seq<char>)
    requires
        d.len() > 0,
        all_digits(d),
    ensures
        digits_value(d) >= 0,
        unsigned_decimal(d) == Some(digits_value(d)),
        signed_decimal(d) == Some(digits_value(d)),
        digits_value(d) <= i64::MAX ==> parsed_i64(d) == Some(digits_value(d) as i64),
        digits_value(d) <= u64::MAX ==> parsed_u64(d) == Some(digits_value(d) as u64),
        digits_value(d) <= usize::MAX ==> parsed_usize(d) == Some(digits_value(d) as usize),
{
    assert(is_digit(d[0]));
    lemma_digits_value_nonneg(d);
}

} // verus!
