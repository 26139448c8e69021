//! Text primitives shared by the readers: character views of strings, ASCII and
//! Unicode classification, case folding, trimming, and sequence search.

use vstd::prelude::*;

verus! {

broadcast use vstd::string::group_string_axioms;

// ── Unicode character classes and case mappings ──────────────────────────────

/// Whether `c` carries the Unicode White_Space property (PropList.txt), the property std's
/// `char::is_whitespace` reports.
pub open spec fn unicode_white_space(c: char) -> bool {
    let u = c as u32;
    ||| 0x9 <= u <= 0xD
    ||| u == 0x20
    ||| u == 0x85
    ||| u == 0xA0
    ||| u == 0x1680
    ||| 0x2000 <= u <= 0x200A
    ||| u == 0x2028
    ||| u == 0x2029
    ||| u == 0x202F
    ||| u == 0x205F
    ||| u == 0x3000
}

/// Whether std's `char::is_alphanumeric` holds of `c` (Alphabetic or Numeric).
pub uninterp spec fn unicode_alphanumeric(c: char) -> bool;

/// Whether std's `char::is_alphabetic` holds of `c` (the Unicode Alphabetic property).
pub uninterp spec fn unicode_alphabetic(c: char) -> bool;

/// Whether `c` is in the Unicode general category Cc (control codes), the category std's
/// `char::is_control` reports.
pub open spec fn unicode_control(c: char) -> bool {
    let u = c as u32;
    u <= 0x1F || 0x7F <= u <= 0x9F
}

/// The characters of std's `str::to_lowercase` applied to the string whose characters are `s`.
pub uninterp spec fn lowercase(s: Seq<char>) -> Seq<char>;

/// Whether `c` carries the Unicode White_Space property.
pub fn is_whitespace(c: char) -> (r: bool)
    ensures
        r == unicode_white_space(c),
{
    let u = c as u32;
    (0x9 <= u && u <= 0xD) || u == 0x20 || u == 0x85 || u == 0xA0 || u == 0x1680 || (0x2000 <= u && u <= 0x200A)
        || u == 0x2028 || u == 0x2029 || u == 0x202F || u == 0x205F || u == 0x3000
}

/// std's `char::is_alphanumeric`: whether `c` is Alphabetic or Numeric.
#[verifier::external_body]
pub fn is_alphanumeric(c: char) -> (r: bool)
    ensures
        r == unicode_alphanumeric(c),
{
    c.is_alphanumeric()
}

/// std's `char::is_alphabetic`: whether `c` carries the Unicode Alphabetic property.
#[verifier::external_body]
pub fn is_alphabetic(c: char) -> (r: bool)
    ensures
        r == unicode_alphabetic(c),
{
    c.is_alphabetic()
}

/// Whether `c` is in the general category Cc (control codes).
pub fn is_control(c: char) -> (r: bool)
    ensures
        r == unicode_control(c),
{
    let u = c as u32;
    u <= 0x1F || (0x7F <= u && u <= 0x9F)
}

/// std's `str::to_lowercase` over the string made of `v`, returned as characters.
#[verifier::external_body]
pub fn to_lowercase(v: &[char]) -> (r: Vec<char>)
    ensures
        r@ == lowercase(v@),
{
    v.iter().collect::<String>().to_lowercase().chars().collect()
}

/// The characters of std's `char::to_lowercase` applied to `c`.
pub uninterp spec fn char_lowercase(c: char) -> Seq<char>;

/// std's `char::to_lowercase`: the lower-case mapping of one character, as characters.
#[verifier::external_body]
pub fn lowercase_char(c: char) -> (r: Vec<char>)
    ensures
        r@ == char_lowercase(c),
{
    c.to_lowercase().collect()
}

// ── Conversions ───────────────────────────────────────────────────────────────

/// The characters of `s`, in order.
pub fn chars_of(s: &str) -> (r: Vec<char>)
    ensures
        r@ == s@,
{
    let mut out: Vec<char> = Vec::new();
    for c in it: s.chars()
        invariant
            out@ == it.seq().take(it.index() as int),
    {
        out.push(c);
    }
    out
}

/// std's `String::push`: appends one character.
#[verifier::external_body]
fn push_char(s: &mut String, c: char)
    ensures
        final(s)@ == old(s)@.push(c),
{
    s.push(c);
}

/// The string whose characters are `v`.
pub fn string_of(v: &[char]) -> (r: String)
    ensures
        r@ == v@,
{
    let mut out = String::new();
    let mut i: usize = 0;
    while i < v.len()
        invariant
            i <= v@.len(),
            out@ == v@.take(i as int),
        decreases v@.len() - i,
    {
        push_char(&mut out, v[i]);
        i = i + 1;
        assert(v@.take(i as int) == v@.take(i - 1).push(v@[i - 1]));
    }
    assert(v@.take(v@.len() as int) == v@);
    out
}

/// A copy of the characters of `v`.
pub fn copy_chars(v: &[char]) -> (r: Vec<char>)
    ensures
        r@ == v@,
{
    let mut out: Vec<char> = Vec::new();
    let mut i: usize = 0;
    while i < v.len()
        invariant
            i <= v@.len(),
            out@ == v@.take(i as int),
        decreases v@.len() - i,
    {
        out.push(v[i]);
        i = i + 1;
        assert(v@.take(i as int) == v@.take(i - 1).push(v@[i - 1]));
    }
    assert(v@.take(v@.len() as int) == v@);
    out
}

/// The characters `v[from..to]`.
pub fn slice_chars(v: &[char], from: usize, to: usize) -> (r: Vec<char>)
    requires
        from <= to <= v@.len(),
    ensures
        r@ == v@.subrange(from as int, to as int),
{
    let mut out: Vec<char> = Vec::new();
    let mut i: usize = from;
    while i < to
        invariant
            from <= i <= to <= v@.len(),
            out@ == v@.subrange(from as int, i as int),
        decreases to - i,
    {
        out.push(v[i]);
        i = i + 1;
        assert(v@.subrange(from as int, i as int) == v@.subrange(from as int, i - 1).push(
            v@[i - 1],
        ));
    }
    out
}

/// Appends the characters of `w` to `out`.
pub fn append_chars(out: &mut Vec<char>, w: &[char])
    ensures
        final(out)@ == old(out)@ + w@,
{
    let mut i: usize = 0;
    while i < w.len()
        invariant
            i <= w@.len(),
            out@ == old(out)@ + w@.take(i as int),
        decreases w@.len() - i,
    {
        out.push(w[i]);
        i = i + 1;
        assert(w@.take(i as int) == w@.take(i - 1).push(w@[i - 1]));
    }
    assert(w@.take(w@.len() as int) == w@);
}

/// Whether two character slices are equal.
pub fn chars_eq(a: &[char], b: &[char]) -> (r: bool)
    ensures
        r == (a@ == b@),
{
    if a.len() != b.len() {
        return false;
    }
    let mut i: usize = 0;
    while i < a.len()
        invariant
            a@.len() == b@.len(),
            i <= a@.len(),
            forall|k: int| 0 <= k < i ==> a@[k] == b@[k],
        decreases a@.len() - i,
    {
        if a[i] != b[i] {
            return false;
        }
        i = i + 1;
    }
    assert(a@ =~= b@);
    true
}

// ── ASCII classification ──────────────────────────────────────────────────────

/// ASCII letter or digit.
pub open spec fn ascii_alnum(c: char) -> bool {
    ('a' <= c && c <= 'z') || ('A' <= c && c <= 'Z') || ('0' <= c && c <= '9')
}

/// ASCII letter.
pub open spec fn ascii_alpha(c: char) -> bool {
    ('a' <= c && c <= 'z') || ('A' <= c && c <= 'Z')
}

/// ASCII digit.
pub open spec fn ascii_digit(c: char) -> bool {
    '0' <= c && c <= '9'
}

/// `c` with an ASCII upper-case letter mapped to lower case.
pub open spec fn ascii_lower(c: char) -> char {
    if 'A' <= c && c <= 'Z' {
        ((c as u32) + 32) as char
    } else {
        c
    }
}

/// Whether `a` and `b` are equal up to ASCII case.
pub open spec fn eq_ci(a: char, b: char) -> bool {
    ascii_lower(a) == ascii_lower(b)
}

/// `char::is_ascii_alphanumeric`.
pub fn is_ascii_alnum(c: char) -> (r: bool)
    ensures
        r == ascii_alnum(c),
{
    ('a' <= c && c <= 'z') || ('A' <= c && c <= 'Z') || ('0' <= c && c <= '9')
}

/// `char::is_ascii_alphabetic`.
pub fn is_ascii_alpha(c: char) -> (r: bool)
    ensures
        r == ascii_alpha(c),
{
    ('a' <= c && c <= 'z') || ('A' <= c && c <= 'Z')
}

/// `char::is_ascii_digit`.
pub fn is_ascii_digit(c: char) -> (r: bool)
    ensures
        r == ascii_digit(c),
{
    '0' <= c && c <= '9'
}

/// `char::to_ascii_lowercase`.
pub fn to_ascii_lower(c: char) -> (r: char)
    ensures
        r == ascii_lower(c),
{
    if 'A' <= c && c <= 'Z' {
        let b: u8 = c as u8;
        ((b + 32) as char)
    } else {
        c
    }
}

/// `char::eq_ignore_ascii_case`.
pub fn char_eq_ci(a: char, b: char) -> (r: bool)
    ensures
        r == eq_ci(a, b),
{
    to_ascii_lower(a) == to_ascii_lower(b)
}

/// Every character ASCII-lowercased.
pub open spec fn ascii_lower_seq(s: Seq<char>) -> Seq<char> {
    Seq::new(s.len(), |i: int| ascii_lower(s[i]))
}

/// `str::to_ascii_lowercase`.
pub fn to_ascii_lower_chars(v: &[char]) -> (r: Vec<char>)
    ensures
        r@ == ascii_lower_seq(v@),
{
    let mut out: Vec<char> = Vec::new();
    let mut i: usize = 0;
    while i < v.len()
        invariant
            i <= v@.len(),
            out@ == ascii_lower_seq(v@.take(i as int)),
        decreases v@.len() - i,
    {
        out.push(to_ascii_lower(v[i]));
        i = i + 1;
        assert(ascii_lower_seq(v@.take(i as int)) =~= ascii_lower_seq(v@.take(i - 1)).push(
            ascii_lower(v@[i - 1]),
        ));
    }
    assert(v@.take(v@.len() as int) == v@);
    out
}

/// Whether two sequences are equal up to ASCII case.
pub open spec fn seq_eq_ci(a: Seq<char>, b: Seq<char>) -> bool {
    a.len() == b.len() && forall|k: int| 0 <= k < a.len() ==> eq_ci(a[k], b[k])
}

/// `str::eq_ignore_ascii_case`.
pub fn chars_eq_ci(a: &[char], b: &[char]) -> (r: bool)
    ensures
        r == seq_eq_ci(a@, b@),
{
    if a.len() != b.len() {
        return false;
    }
    let mut i: usize = 0;
    while i < a.len()
        invariant
            a@.len() == b@.len(),
            i <= a@.len(),
            forall|k: int| 0 <= k < i ==> eq_ci(a@[k], b@[k]),
        decreases a@.len() - i,
    {
        if !char_eq_ci(a[i], b[i]) {
            return false;
        }
        i = i + 1;
    }
    true
}

// ── Search ────────────────────────────────────────────────────────────────────

/// `p` occurs in `s` starting at index `i`.
pub open spec fn occurs_at(s: Seq<char>, p: Seq<char>, i: int) -> bool {
    0 <= i && i + p.len() <= s.len() && s.subrange(i, i + p.len()) == p
}

/// The first index `i >= from` at which `p` occurs in `s`, or -1.
pub open spec fn find_from(s: Seq<char>, p: Seq<char>, from: int) -> int
    decreases s.len() + 1 - from,
{
    if from < 0 || from + p.len() > s.len() {
        -1
    } else if occurs_at(s, p, from) {
        from
    } else {
        find_from(s, p, from + 1)
    }
}

/// `p` occurs somewhere in `s` (`str::contains`).
pub open spec fn contains_seq(s: Seq<char>, p: Seq<char>) -> bool {
    find_from(s, p, 0) >= 0
}

/// `s` starts with `p`.
pub open spec fn starts_with(s: Seq<char>, p: Seq<char>) -> bool {
    p.len() <= s.len() && s.take(p.len() as int) == p
}

/// `s` ends with `p`.
pub open spec fn ends_with(s: Seq<char>, p: Seq<char>) -> bool {
    p.len() <= s.len() && s.skip(s.len() - p.len()) == p
}

/// What `find_from` returns, stated by its defining properties.
pub proof fn lemma_find_from(s: Seq<char>, p: Seq<char>, from: int)
    requires
        0 <= from,
    ensures
        find_from(s, p, from) == -1 || (from <= find_from(s, p, from) && occurs_at(
            s,
            p,
            find_from(s, p, from),
        )),
        forall|j: int|
            from <= j && (find_from(s, p, from) == -1 || j < find_from(s, p, from)) ==> !occurs_at(
                s,
                p,
                j,
            ),
    decreases s.len() + 1 - from,
{
    if from + p.len() > s.len() {
    } else if occurs_at(s, p, from) {
    } else {
        lemma_find_from(s, p, from + 1);
    }
}

/// Skipping indices where `p` does not occur leaves `find_from` unchanged.
proof fn lemma_find_skip(s: Seq<char>, p: Seq<char>, from: int, i: int)
    requires
        0 <= from <= i,
        forall|j: int| from <= j < i ==> !occurs_at(s, p, j),
    ensures
        find_from(s, p, from) == find_from(s, p, i),
    decreases i - from,
{
    if from < i {
        assert(!occurs_at(s, p, from));
        if from + p.len() > s.len() {
            assert(find_from(s, p, i) == -1);
        } else {
            lemma_find_skip(s, p, from + 1, i);
        }
    }
}

/// Whether `p` occurs in `s` at `i` (`i + p.len() <= s.len()` given).
pub fn matches_at(s: &[char], p: &[char], i: usize) -> (r: bool)
    requires
        i + p@.len() <= s@.len(),
    ensures
        r == occurs_at(s@, p@, i as int),
{
    let n = s.len();
    let mut k: usize = 0;
    while k < p.len()
        invariant
            n == s@.len(),
            i + p@.len() <= s@.len(),
            k <= p@.len(),
            forall|t: int| 0 <= t < k ==> s@[i + t] == p@[t],
        decreases p@.len() - k,
    {
        if s[i + k] != p[k] {
            assert(s@.subrange(i as int, i + p@.len())[k as int] != p@[k as int]);
            return false;
        }
        k = k + 1;
    }
    assert(s@.subrange(i as int, i + p@.len()) =~= p@);
    true
}

/// The first index at or after `from` where `p` occurs in `s` (`str::find` on `s[from..]`,
/// offset back into `s`).
pub fn find(s: &[char], p: &[char], from: usize) -> (r: Option<usize>)
    ensures
        match r {
            Some(i) => i as int == find_from(s@, p@, from as int),
            None => find_from(s@, p@, from as int) == -1,
        },
{
    if p.len() > s.len() {
        return None;
    }
    let last = s.len() - p.len();
    if from > last {
        return None;
    }
    let mut i: usize = from;
    while i < last
        invariant
            last + p@.len() == s@.len(),
            from <= i <= last,
            forall|j: int| from <= j < i ==> !occurs_at(s@, p@, j),
        decreases last - i,
    {
        if matches_at(s, p, i) {
            proof {
                lemma_find_skip(s@, p@, from as int, i as int);
            }
            return Some(i);
        }
        i = i + 1;
    }
    proof {
        lemma_find_skip(s@, p@, from as int, i as int);
    }
    if matches_at(s, p, i) {
        return Some(i);
    }
    assert(find_from(s@, p@, i as int + 1) == -1);
    None
}

/// Whether `p` occurs in `s`.
pub fn contains(s: &[char], p: &[char]) -> (r: bool)
    ensures
        r == contains_seq(s@, p@),
{
    find(s, p, 0).is_some()
}

/// Whether `s` starts with `p`.
pub fn has_prefix(s: &[char], p: &[char]) -> (r: bool)
    ensures
        r == starts_with(s@, p@),
{
    if p.len() > s.len() {
        return false;
    }
    let r = matches_at(s, p, 0);
    assert(s@.subrange(0, p@.len() as int) == s@.take(p@.len() as int));
    r
}

/// Whether `s` ends with `p`.
pub fn has_suffix(s: &[char], p: &[char]) -> (r: bool)
    ensures
        r == ends_with(s@, p@),
{
    if p.len() > s.len() {
        return false;
    }
    let r = matches_at(s, p, s.len() - p.len());
    assert(s@.subrange(s@.len() - p@.len(), s@.len() as int) == s@.skip(s@.len() - p@.len()));
    r
}

/// `p` occurs at `i` in `s` up to ASCII case.
pub open spec fn occurs_at_ci(s: Seq<char>, p: Seq<char>, i: int) -> bool {
    0 <= i && i + p.len() <= s.len() && seq_eq_ci(s.subrange(i, i + p.len()), p)
}

/// The first index `i >= from` at which `p` occurs in `s` up to ASCII case, or -1.
pub open spec fn find_ci_from(s: Seq<char>, p: Seq<char>, from: int) -> int
    decreases s.len() + 1 - from,
{
    if from < 0 || from + p.len() > s.len() {
        -1
    } else if occurs_at_ci(s, p, from) {
        from
    } else {
        find_ci_from(s, p, from + 1)
    }
}

/// What `find_ci_from` returns, stated by its defining properties.
pub proof fn lemma_find_ci_from(s: Seq<char>, p: Seq<char>, from: int)
    requires
        0 <= from,
    ensures
        find_ci_from(s, p, from) == -1 || (from <= find_ci_from(s, p, from) && occurs_at_ci(
            s,
            p,
            find_ci_from(s, p, from),
        )),
        forall|j: int|
            from <= j && (find_ci_from(s, p, from) == -1 || j < find_ci_from(s, p, from))
                ==> !occurs_at_ci(s, p, j),
    decreases s.len() + 1 - from,
{
    if from + p.len() > s.len() {
    } else if occurs_at_ci(s, p, from) {
    } else {
        lemma_find_ci_from(s, p, from + 1);
    }
}

proof fn lemma_find_ci_skip(s: Seq<char>, p: Seq<char>, from: int, i: int)
    requires
        0 <= from <= i,
        forall|j: int| from <= j < i ==> !occurs_at_ci(s, p, j),
    ensures
        find_ci_from(s, p, from) == find_ci_from(s, p, i),
    decreases i - from,
{
    if from < i {
        if from + p.len() > s.len() {
            assert(find_ci_from(s, p, i) == -1);
        } else {
            lemma_find_ci_skip(s, p, from + 1, i);
        }
    }
}

/// Whether `p` occurs at `i` in `s` up to ASCII case.
pub fn matches_at_ci(s: &[char], p: &[char], i: usize) -> (r: bool)
    requires
        i + p@.len() <= s@.len(),
    ensures
        r == occurs_at_ci(s@, p@, i as int),
{
    let n = s.len();
    let mut k: usize = 0;
    while k < p.len()
        invariant
            n == s@.len(),
            i + p@.len() <= s@.len(),
            k <= p@.len(),
            forall|t: int| 0 <= t < k ==> eq_ci(s@[i + t], p@[t]),
        decreases p@.len() - k,
    {
        if !char_eq_ci(s[i + k], p[k]) {
            assert(!eq_ci(s@.subrange(i as int, i + p@.len())[k as int], p@[k as int]));
            return false;
        }
        k = k + 1;
    }
    assert forall|t: int| 0 <= t < p@.len() implies eq_ci(
        s@.subrange(i as int, i + p@.len())[t],
        p@[t],
    ) by {
        assert(s@.subrange(i as int, i + p@.len())[t] == s@[i + t]);
    }
    true
}

/// The first index at or after `from` where `p` occurs in `s` up to ASCII case.
pub fn find_ci_at(s: &[char], p: &[char], from: usize) -> (r: Option<usize>)
    ensures
        match r {
            Some(i) => i as int == find_ci_from(s@, p@, from as int),
            None => find_ci_from(s@, p@, from as int) == -1,
        },
{
    if p.len() > s.len() {
        return None;
    }
    let last = s.len() - p.len();
    if from > last {
        return None;
    }
    let mut i: usize = from;
    while i < last
        invariant
            last + p@.len() == s@.len(),
            from <= i <= last,
            forall|j: int| from <= j < i ==> !occurs_at_ci(s@, p@, j),
        decreases last - i,
    {
        if matches_at_ci(s, p, i) {
            proof {
                lemma_find_ci_skip(s@, p@, from as int, i as int);
            }
            return Some(i);
        }
        i = i + 1;
    }
    proof {
        lemma_find_ci_skip(s@, p@, from as int, i as int);
    }
    if matches_at_ci(s, p, i) {
        return Some(i);
    }
    assert(find_ci_from(s@, p@, i as int + 1) == -1);
    None
}

// ── Trimming ──────────────────────────────────────────────────────────────────

/// `s` without leading White_Space characters.
pub open spec fn trim_start(s: Seq<char>) -> Seq<char>
    decreases s.len(),
{
    if s.len() > 0 && unicode_white_space(s[0]) {
        trim_start(s.drop_first())
    } else {
        s
    }
}

/// `s` without trailing White_Space characters.
pub open spec fn trim_end(s: Seq<char>) -> Seq<char>
    decreases s.len(),
{
    if s.len() > 0 && unicode_white_space(s.last()) {
        trim_end(s.drop_last())
    } else {
        s
    }
}

/// `str::trim`: `s` without leading and trailing White_Space characters.
pub open spec fn trim(s: Seq<char>) -> Seq<char> {
    trim_end(trim_start(s))
}

proof fn lemma_trim_start_skip(s: Seq<char>, i: int)
    requires
        0 <= i <= s.len(),
        forall|k: int| 0 <= k < i ==> unicode_white_space(s[k]),
    ensures
        trim_start(s) == trim_start(s.skip(i)),
    decreases i,
{
    if i > 0 {
        assert(s.drop_first().skip(i - 1) =~= s.skip(i));
        lemma_trim_start_skip(s.drop_first(), i - 1);
    } else {
        assert(s.skip(0) =~= s);
    }
}

proof fn lemma_trim_end_take(s: Seq<char>, j: int)
    requires
        0 <= j <= s.len(),
        forall|k: int| j <= k < s.len() ==> unicode_white_space(s[k]),
    ensures
        trim_end(s) == trim_end(s.take(j)),
    decreases s.len() - j,
{
    if j < s.len() {
        assert(s.drop_last().take(j) =~= s.take(j));
        lemma_trim_end_take(s.drop_last(), j);
    } else {
        assert(s.take(j) =~= s);
    }
}

/// The bounds `(i, j)` of the trimmed part of `s`.
pub fn trim_bounds(s: &[char]) -> (r: (usize, usize))
    ensures
        r.0 <= r.1 <= s@.len(),
        s@.subrange(r.0 as int, r.1 as int) == trim(s@),
{
    let mut i: usize = 0;
    while i < s.len() && is_whitespace(s[i])
        invariant
            i <= s@.len(),
            forall|k: int| 0 <= k < i ==> unicode_white_space(s@[k]),
        decreases s@.len() - i,
    {
        i = i + 1;
    }
    proof {
        lemma_trim_start_skip(s@, i as int);
        assert(trim_start(s@.skip(i as int)) == s@.skip(i as int));
    }
    let mut j: usize = s.len();
    while j > i && is_whitespace(s[j - 1])
        invariant
            i <= j <= s@.len(),
            forall|k: int| j <= k < s@.len() ==> unicode_white_space(s@[k]),
        decreases j,
    {
        j = j - 1;
    }
    proof {
        let t = s@.skip(i as int);
        assert forall|k: int| j - i <= k < t.len() implies unicode_white_space(t[k]) by {
            assert(t[k] == s@[k + i]);
        }
        lemma_trim_end_take(t, j - i);
        let u = t.take(j - i);
        assert(u =~= s@.subrange(i as int, j as int));
        if u.len() > 0 {
            assert(u.last() == s@[j - 1]);
        }
        assert(trim_end(u) == u);
    }
    (i, j)
}

/// `str::trim`.
pub fn trimmed(s: &[char]) -> (r: Vec<char>)
    ensures
        r@ == trim(s@),
{
    let (i, j) = trim_bounds(s);
    slice_chars(s, i, j)
}

/// The punctuation classes edge-trimmed by the readers: class 0 is the prose edge
/// punctuation of a named construct (`` ` `` `,` `.` `:`); class 1 the code punctuation
/// around an operator token (`(` `)` `;` `{` `}` `,`); any other class the quotes around a
/// quoted value (`"` `'` `` ` ``).
pub open spec fn in_class(kind: u8, c: char) -> bool {
    if kind == 0 {
        c == '`' || c == ',' || c == '.' || c == ':'
    } else if kind == 1 {
        c == '(' || c == ')' || c == ';' || c == '{' || c == '}' || c == ','
    } else {
        c == '"' || c == '\'' || c == '`'
    }
}

/// Whether `c` belongs to punctuation class `kind`.
pub fn class_holds(kind: u8, c: char) -> (r: bool)
    ensures
        r == in_class(kind, c),
{
    if kind == 0 {
        c == '`' || c == ',' || c == '.' || c == ':'
    } else if kind == 1 {
        c == '(' || c == ')' || c == ';' || c == '{' || c == '}' || c == ','
    } else {
        c == '"' || c == '\'' || c == '`'
    }
}

/// `s` without leading characters of class `kind`.
pub open spec fn trim_class_start(s: Seq<char>, kind: u8) -> Seq<char>
    decreases s.len(),
{
    if s.len() > 0 && in_class(kind, s[0]) {
        trim_class_start(s.drop_first(), kind)
    } else {
        s
    }
}

/// `s` without trailing characters of class `kind`.
pub open spec fn trim_class_end(s: Seq<char>, kind: u8) -> Seq<char>
    decreases s.len(),
{
    if s.len() > 0 && in_class(kind, s.last()) {
        trim_class_end(s.drop_last(), kind)
    } else {
        s
    }
}

/// `trim_matches`: `s` without leading and trailing characters of class `kind`.
pub open spec fn trim_class(s: Seq<char>, kind: u8) -> Seq<char> {
    trim_class_end(trim_class_start(s, kind), kind)
}

proof fn lemma_trim_class_start_skip(s: Seq<char>, i: int, kind: u8)
    requires
        0 <= i <= s.len(),
        forall|k: int| 0 <= k < i ==> in_class(kind, s[k]),
    ensures
        trim_class_start(s, kind) == trim_class_start(s.skip(i), kind),
    decreases i,
{
    if i > 0 {
        assert(s.drop_first().skip(i - 1) =~= s.skip(i));
        lemma_trim_class_start_skip(s.drop_first(), i - 1, kind);
    } else {
        assert(s.skip(0) =~= s);
    }
}

proof fn lemma_trim_class_end_take(s: Seq<char>, j: int, kind: u8)
    requires
        0 <= j <= s.len(),
        forall|k: int| j <= k < s.len() ==> in_class(kind, s[k]),
    ensures
        trim_class_end(s, kind) == trim_class_end(s.take(j), kind),
    decreases s.len() - j,
{
    if j < s.len() {
        assert(s.drop_last().take(j) =~= s.take(j));
        lemma_trim_class_end_take(s.drop_last(), j, kind);
    } else {
        assert(s.take(j) =~= s);
    }
}

/// The bounds `(i, j)` of the trimmed part of `s`.
pub fn trim_class_bounds(s: &[char], kind: u8) -> (r: (usize, usize))
    ensures
        r.0 <= r.1 <= s@.len(),
        s@.subrange(r.0 as int, r.1 as int) == trim_class(s@, kind),
{
    let mut i: usize = 0;
    while i < s.len() && class_holds(kind, s[i])
        invariant
            i <= s@.len(),
            forall|k: int| 0 <= k < i ==> in_class(kind, s@[k]),
        decreases s@.len() - i,
    {
        i = i + 1;
    }
    proof {
        lemma_trim_class_start_skip(s@, i as int, kind);
        assert(trim_class_start(s@.skip(i as int), kind) == s@.skip(i as int));
    }
    let mut j: usize = s.len();
    while j > i && class_holds(kind, s[j - 1])
        invariant
            i <= j <= s@.len(),
            forall|k: int| j <= k < s@.len() ==> in_class(kind, s@[k]),
        decreases j,
    {
        j = j - 1;
    }
    proof {
        let t = s@.skip(i as int);
        assert forall|k: int| j - i <= k < t.len() implies in_class(kind, t[k]) by {
            assert(t[k] == s@[k + i]);
        }
        lemma_trim_class_end_take(t, j - i, kind);
        let u = t.take(j - i);
        assert(u =~= s@.subrange(i as int, j as int));
        if u.len() > 0 {
            assert(u.last() == s@[j - 1]);
        }
        assert(trim_class_end(u, kind) == u);
    }
    (i, j)
}

/// `trim_matches` with the class `kind`.
pub fn trimmed_class(s: &[char], kind: u8) -> (r: Vec<char>)
    ensures
        r@ == trim_class(s@, kind),
{
    let (i, j) = trim_class_bounds(s, kind);
    slice_chars(s, i, j)
}


// ── Splitting ─────────────────────────────────────────────────────────────────

/// The character sequences held by `v`.
pub open spec fn views(v: Seq<Vec<char>>) -> Seq<Seq<char>> {
    Seq::new(v.len(), |i: int| v[i]@)
}

/// The maximal non-empty runs of `s` that contain no `sep` (`split(sep)` with empty pieces
/// filtered out), in order.
pub open spec fn segments(s: Seq<char>, sep: char) -> Seq<Seq<char>>
    decreases s.len(),
{
    if s.len() == 0 {
        Seq::empty()
    } else {
        let init = segments(s.drop_last(), sep);
        if s.last() == sep {
            init
        } else if s.len() >= 2 && s[s.len() - 2] != sep {
            init.update(init.len() - 1, init.last().push(s.last()))
        } else {
            init.push(seq![s.last()])
        }
    }
}

proof fn lemma_segments_nonempty(s: Seq<char>, sep: char)
    requires
        s.len() > 0,
        s.last() != sep,
    ensures
        segments(s, sep).len() > 0,
    decreases s.len(),
{
    if s.len() >= 2 && s[s.len() - 2] != sep {
        lemma_segments_nonempty(s.drop_last(), sep);
    }
}

/// `segments` of `s`.
pub fn split_segments(s: &[char], sep: char) -> (r: Vec<Vec<char>>)
    ensures
        views(r@) == segments(s@, sep),
{
    let mut out: Vec<Vec<char>> = Vec::new();
    let mut i: usize = 0;
    while i < s.len()
        invariant
            i <= s@.len(),
            views(out@) == segments(s@.take(i as int), sep),
        decreases s@.len() - i,
    {
        let c = s[i];
        let ghost pre = s@.take(i as int);
        let ghost cur = s@.take(i + 1);
        assert(cur.drop_last() == pre);
        if c == sep {
        } else if i >= 1 && s[i - 1] != sep {
            proof {
                assert(pre.last() == s@[i - 1]);
                lemma_segments_nonempty(pre, sep);
            }
            let k = out.len() - 1;
            let mut last = out.pop().unwrap();
            last.push(c);
            out.push(last);
            proof {
                assert(views(out@) =~= segments(cur, sep));
            }
        } else {
            let mut one: Vec<char> = Vec::new();
            one.push(c);
            out.push(one);
            proof {
                assert(one@ =~= seq![c]);
                assert(views(out@) =~= segments(cur, sep));
            }
        }
        i = i + 1;
    }
    assert(s@.take(s@.len() as int) == s@);
    out
}

/// The last index of `c` in `s`, or -1.
pub open spec fn last_index_of(s: Seq<char>, c: char) -> int
    decreases s.len(),
{
    if s.len() == 0 {
        -1
    } else if s.last() == c {
        s.len() - 1
    } else {
        last_index_of(s.drop_last(), c)
    }
}

proof fn lemma_last_index_of(s: Seq<char>, c: char)
    ensures
        -1 <= last_index_of(s, c) < s.len(),
        last_index_of(s, c) >= 0 ==> s[last_index_of(s, c)] == c,
        forall|k: int| last_index_of(s, c) < k < s.len() ==> s[k] != c,
    decreases s.len(),
{
    if s.len() > 0 && s.last() != c {
        lemma_last_index_of(s.drop_last(), c);
        assert forall|k: int| last_index_of(s, c) < k < s.len() implies s[k] != c by {
            if k < s.len() - 1 {
                assert(s.drop_last()[k] == s[k]);
            }
        }
    }
}

/// The text after the last `c` in `s` (all of `s` when there is none): `rsplit(c).next()`.
pub open spec fn after_last(s: Seq<char>, c: char) -> Seq<char> {
    s.skip(last_index_of(s, c) + 1)
}

/// `rsplit(c).next()`: the text after the last `c`.
pub fn tail_after_last(s: &[char], c: char) -> (r: Vec<char>)
    ensures
        r@ == after_last(s@, c),
{
    let mut j: usize = s.len();
    while j > 0 && s[j - 1] != c
        invariant
            j <= s@.len(),
            forall|k: int| j <= k < s@.len() ==> s@[k] != c,
        decreases j,
    {
        j = j - 1;
    }
    proof {
        lemma_last_index_of(s@, c);
        let li = last_index_of(s@, c);
        if j > 0 {
            assert(s@[j - 1] == c);
            assert(li >= j - 1);
            assert(li == j - 1);
        } else {
            assert(li == -1) by {
                if li >= 0 {
                    assert(s@[li] == c);
                }
            }
        }
    }
    slice_chars(s, j, s.len())
}

/// `s` with trailing `c` characters removed (`trim_end_matches(c)`).
pub open spec fn strip_trailing(s: Seq<char>, c: char) -> Seq<char>
    decreases s.len(),
{
    if s.len() > 0 && s.last() == c {
        strip_trailing(s.drop_last(), c)
    } else {
        s
    }
}

/// `trim_end_matches(c)`.
pub fn trim_trailing(s: &[char], c: char) -> (r: Vec<char>)
    ensures
        r@ == strip_trailing(s@, c),
{
    let mut j: usize = s.len();
    assert(s@.take(s@.len() as int) == s@);
    while j > 0 && s[j - 1] == c
        invariant
            j <= s@.len(),
            strip_trailing(s@, c) == strip_trailing(s@.take(j as int), c),
        decreases j,
    {
        assert(s@.take(j as int).drop_last() == s@.take(j - 1));
        j = j - 1;
    }
    proof {
        assert(s@.take(s@.len() as int) == s@);
    }
    slice_chars(s, 0, j)
}

// ── Collections of strings ──────────────────────────────────────────────────

/// `acc` with `x` appended unless already present.
pub open spec fn push_unique(acc: Seq<Seq<char>>, x: Seq<char>) -> Seq<Seq<char>> {
    if acc.contains(x) {
        acc
    } else {
        acc.push(x)
    }
}

/// Whether `v` holds an element equal to `x`.
pub fn holds(v: &Vec<Vec<char>>, x: &[char]) -> (r: bool)
    ensures
        r == views(v@).contains(x@),
{
    let mut i: usize = 0;
    while i < v.len()
        invariant
            i <= v@.len(),
            forall|k: int| 0 <= k < i ==> views(v@)[k] != x@,
        decreases v@.len() - i,
    {
        if chars_eq(v[i].as_slice(), x) {
            assert(views(v@)[i as int] == x@);
            return true;
        }
        i = i + 1;
    }
    proof {
        if views(v@).contains(x@) {
            let k = choose|k: int| 0 <= k < views(v@).len() && views(v@)[k] == x@;
            assert(views(v@)[k] != x@);
        }
    }
    false
}

/// Appends `x` to `v` unless an equal element is already there.
pub fn add_unique(v: &mut Vec<Vec<char>>, x: Vec<char>)
    ensures
        views(final(v)@) == push_unique(views(old(v)@), x@),
{
    if !holds(v, x.as_slice()) {
        v.push(x);
        assert(views(v@) =~= views(old(v)@).push(x@));
    }
}

/// The strings whose characters are the elements of `v`.
pub fn strings_of(v: &Vec<Vec<char>>) -> (r: Vec<String>)
    ensures
        r.deep_view() == views(v@),
{
    let mut out: Vec<String> = Vec::new();
    let mut i: usize = 0;
    while i < v.len()
        invariant
            i <= v@.len(),
            out@.len() == i,
            out.deep_view() == views(v@).take(i as int),
        decreases v@.len() - i,
    {
        let s = string_of(v[i].as_slice());
        let ghost prev = out@;
        let ghost pdv = out.deep_view();
        out.push(s);
        proof {
            assert(out@ == prev.push(s));
            assert forall|k: int| 0 <= k <= i implies out.deep_view()[k] == views(v@)[k] by {
                if k < i {
                    assert(out@[k] == prev[k]);
                    assert(pdv[k] == prev[k].deep_view());
                    assert(pdv[k] == views(v@).take(i as int)[k]);
                } else {
                    assert(out@[k] == s);
                }
            }
        }
        i = i + 1;
        assert(out.deep_view() =~= views(v@).take(i as int));
    }
    assert(views(v@).take(v@.len() as int) =~= views(v@));
    out
}

/// The character vectors of the strings in `v`.
pub fn chars_of_all(v: &[String]) -> (r: Vec<Vec<char>>)
    ensures
        views(r@) == v.deep_view(),
{
    let mut out: Vec<Vec<char>> = Vec::new();
    let mut i: usize = 0;
    while i < v.len()
        invariant
            i <= v@.len(),
            out@.len() == i,
            views(out@) == v.deep_view().take(i as int),
        decreases v@.len() - i,
    {
        let c = chars_of(v[i].as_str());
        let ghost prev = out@;
        let ghost pv = views(out@);
        out.push(c);
        proof {
            assert(out@ == prev.push(c));
            assert forall|k: int| 0 <= k <= i implies views(out@)[k] == v.deep_view()[k] by {
                if k < i {
                    assert(out@[k] == prev[k]);
                    assert(pv[k] == prev[k]@);
                    assert(pv[k] == v.deep_view().take(i as int)[k]);
                } else {
                    assert(out@[k] == c);
                }
            }
        }
        i = i + 1;
        assert(views(out@) =~= v.deep_view().take(i as int));
    }
    assert(v.deep_view().take(v@.len() as int) =~= v.deep_view());
    out
}

/// `acc` extended by every element of `xs`, in order, skipping elements already present.
pub open spec fn dedup_all(acc: Seq<Seq<char>>, xs: Seq<Seq<char>>) -> Seq<Seq<char>>
    decreases xs.len(),
{
    if xs.len() == 0 {
        acc
    } else {
        dedup_all(push_unique(acc, xs[0]), xs.drop_first())
    }
}

// ── Whitespace words ──────────────────────────────────────────────────────────

/// The maximal runs of non-White_Space characters of `s` (`split_whitespace`), in order.
pub open spec fn words(s: Seq<char>) -> Seq<Seq<char>>
    decreases s.len(),
{
    if s.len() == 0 {
        Seq::empty()
    } else {
        let init = words(s.drop_last());
        if unicode_white_space(s.last()) {
            init
        } else if s.len() >= 2 && !unicode_white_space(s[s.len() - 2]) {
            init.update(init.len() - 1, init.last().push(s.last()))
        } else {
            init.push(seq![s.last()])
        }
    }
}

/// A text splits into no more words than it has characters.
pub proof fn lemma_words_len(s: Seq<char>)
    ensures
        words(s).len() <= s.len(),
    decreases s.len(),
{
    if s.len() > 0 {
        lemma_words_len(s.drop_last());
        if !unicode_white_space(s.last()) && s.len() >= 2 && !unicode_white_space(s[s.len() - 2]) {
            assert(s.drop_last().last() == s[s.len() - 2]);
            lemma_words_nonempty(s.drop_last());
        }
    }
}

proof fn lemma_words_nonempty(s: Seq<char>)
    requires
        s.len() > 0,
        !unicode_white_space(s.last()),
    ensures
        words(s).len() > 0,
    decreases s.len(),
{
    if s.len() >= 2 && !unicode_white_space(s[s.len() - 2]) {
        lemma_words_nonempty(s.drop_last());
    }
}

/// `split_whitespace`.
pub fn split_words(s: &[char]) -> (r: Vec<Vec<char>>)
    ensures
        views(r@) == words(s@),
{
    let mut out: Vec<Vec<char>> = Vec::new();
    let mut i: usize = 0;
    let mut prev_ws = true;
    while i < s.len()
        invariant
            i <= s@.len(),
            views(out@) == words(s@.take(i as int)),
            prev_ws == (i == 0 || unicode_white_space(s@[i - 1])),
        decreases s@.len() - i,
    {
        let c = s[i];
        let ghost pre = s@.take(i as int);
        let ghost cur = s@.take(i + 1);
        assert(cur.drop_last() == pre);
        let ws = is_whitespace(c);
        if ws {
        } else if !prev_ws {
            proof {
                assert(pre.last() == s@[i - 1]);
                lemma_words_nonempty(pre);
            }
            let mut last = out.pop().unwrap();
            last.push(c);
            out.push(last);
            proof {
                assert(views(out@) =~= words(cur));
            }
        } else {
            let mut one: Vec<char> = Vec::new();
            one.push(c);
            out.push(one);
            proof {
                assert(one@ =~= seq![c]);
                assert(views(out@) =~= words(cur));
            }
        }
        prev_ws = ws;
        i = i + 1;
    }
    assert(s@.take(s@.len() as int) == s@);
    out
}

// ── UTF-8 byte lengths ────────────────────────────────────────────────────────

/// The number of bytes `c` occupies in UTF-8 (`char::len_utf8`).
pub open spec fn utf8_width(c: char) -> nat {
    if (c as u32) < 0x80 {
        1
    } else if (c as u32) < 0x800 {
        2
    } else if (c as u32) < 0x10000 {
        3
    } else {
        4
    }
}

/// The number of bytes `s` occupies in UTF-8 (`str::len`).
pub open spec fn byte_len(s: Seq<char>) -> nat
    decreases s.len(),
{
    if s.len() == 0 {
        0
    } else {
        utf8_width(s[0]) + byte_len(s.drop_first())
    }
}

pub proof fn lemma_byte_len_concat(a: Seq<char>, b: Seq<char>)
    ensures
        byte_len(a + b) == byte_len(a) + byte_len(b),
    decreases a.len(),
{
    if a.len() > 0 {
        assert((a + b).drop_first() =~= a.drop_first() + b);
        lemma_byte_len_concat(a.drop_first(), b);
    } else {
        assert(a + b =~= b);
    }
}

pub proof fn lemma_byte_len_push(a: Seq<char>, c: char)
    ensures
        byte_len(a.push(c)) == byte_len(a) + utf8_width(c),
{
    lemma_byte_len_concat(a, seq![c]);
    assert(a.push(c) =~= a + seq![c]);
    assert(seq![c].drop_first() =~= Seq::<char>::empty());
    assert(byte_len(Seq::<char>::empty()) == 0);
    assert(byte_len(seq![c]) == utf8_width(c) + byte_len(seq![c].drop_first()));
}

/// `c.len_utf8()`.
pub fn width_of(c: char) -> (r: usize)
    ensures
        r == utf8_width(c),
{
    let u = c as u32;
    if u < 0x80 {
        1
    } else if u < 0x800 {
        2
    } else if u < 0x10000 {
        3
    } else {
        4
    }
}

/// Whether `v` occupies at least `n` bytes in UTF-8.
pub fn byte_len_at_least(v: &[char], n: usize) -> (r: bool)
    ensures
        r == (byte_len(v@) >= n),
{
    if n == 0 {
        return true;
    }
    let mut total: usize = 0;
    let mut i: usize = 0;
    while i < v.len()
        invariant
            i <= v@.len(),
            total == byte_len(v@.take(i as int)),
            total < n,
        decreases v@.len() - i,
    {
        proof {
            lemma_byte_len_push(v@.take(i as int), v@[i as int]);
            assert(v@.take(i as int).push(v@[i as int]) == v@.take(i + 1));
        }
        let w = width_of(v[i]);
        if w >= n - total {
            proof {
                lemma_byte_len_concat(v@.take(i + 1), v@.skip(i + 1));
                assert(v@.take(i + 1) + v@.skip(i + 1) =~= v@);
            }
            return true;
        }
        total = total + w;
        i = i + 1;
    }
    assert(v@.take(v@.len() as int) == v@);
    false
}

} // verus!
