//! The construct-module helpers: how prose mentions a construct, whether code carries
//! it, how a rule's identity and a page's URL subject are read, the harvest of a
//! language's own code corpus, the splicing of a construct into real code, and the
//! bookkeeping of what was read but never proposed.

use vstd::prelude::*;
use crate::text::{
    after_last, ascii_alnum, ascii_alpha, ascii_lower, append_chars, chars_eq, chars_of, contains,
    contains_seq, copy_chars, find, find_from, holds, is_ascii_alnum, is_ascii_alpha, lemma_find_from,
    lowercase, occurs_at, push_unique, seq_eq_ci, chars_eq_ci, segments, split_segments, string_of,
    strings_of, strip_trailing, tail_after_last, to_ascii_lower, to_lowercase, trim, trim_trailing,
    trimmed, views,
};

verus! {

broadcast use vstd::string::group_string_axioms;

// ── Small text shapes ────────────────────────────────────────────────────────

/// `s` without its leading `c`s (`trim_start_matches(c)`).
pub open spec fn strip_leading(s: Seq<char>, c: char) -> Seq<char>
    decreases s.len(),
{
    if s.len() > 0 && s[0] == c {
        strip_leading(s.drop_first(), c)
    } else {
        s
    }
}

/// `trim_start_matches(c)`.
pub fn trim_leading(s: &[char], c: char) -> (r: Vec<char>)
    ensures
        r@ == strip_leading(s@, c),
{
    let mut i: usize = 0;
    assert(s@.skip(0) =~= s@);
    while i < s.len() && s[i] == c
        invariant
            i <= s@.len(),
            strip_leading(s@, c) == strip_leading(s@.skip(i as int), c),
        decreases s@.len() - i,
    {
        assert(s@.skip(i as int).drop_first() =~= s@.skip(i + 1));
        i = i + 1;
    }
    let r = crate::text::slice_chars(s, i, s.len());
    assert(r@ =~= s@.skip(i as int));
    r
}

/// The parts of `s` between the `sep`s, empty parts kept (`split(sep)`).
pub open spec fn split_all(s: Seq<char>, sep: char) -> Seq<Seq<char>>
    decreases s.len(),
{
    if s.len() == 0 {
        seq![Seq::empty()]
    } else {
        let init = split_all(s.drop_last(), sep);
        if s.last() == sep {
            init.push(Seq::empty())
        } else {
            init.update(init.len() - 1, init.last().push(s.last()))
        }
    }
}

pub proof fn lemma_split_all_nonempty(s: Seq<char>, sep: char)
    ensures
        split_all(s, sep).len() >= 1,
    decreases s.len(),
{
    if s.len() > 0 {
        lemma_split_all_nonempty(s.drop_last(), sep);
    }
}

/// `split(sep)`.
pub fn split_on(s: &[char], sep: char) -> (r: Vec<Vec<char>>)
    ensures
        views(r@) == split_all(s@, sep),
{
    let mut out: Vec<Vec<char>> = Vec::new();
    out.push(Vec::new());
    proof {
        assert(views(out@) =~= split_all(s@.take(0), sep));
    }
    let mut i: usize = 0;
    while i < s.len()
        invariant
            i <= s@.len(),
            out@.len() >= 1,
            views(out@) == split_all(s@.take(i as int), sep),
        decreases s@.len() - i,
    {
        proof {
            assert(s@.take(i + 1).drop_last() =~= s@.take(i as int));
            assert(s@.take(i + 1).last() == s@[i as int]);
        }
        let ghost before = views(out@);
        if s[i] == sep {
            out.push(Vec::new());
            proof {
                assert(views(out@) =~= before.push(Seq::<char>::empty()));
            }
        } else {
            let last = out.len() - 1;
            let mut cur = copy_chars(out[last].as_slice());
            cur.push(s[i]);
            out.set(last, cur);
            proof {
                assert(views(out@) =~= before.update(last as int, before.last().push(s@[i as int])));
            }
        }
        i = i + 1;
    }
    assert(s@.take(i as int) =~= s@);
    out
}

/// The terminal dotted segment of a construct: leading dots dropped, then the text after
/// the last dot (`trim_start_matches('.').rsplit('.').next()`).
pub open spec fn terminal(construct: Seq<char>) -> Seq<char> {
    after_last(strip_leading(construct, '.'), '.')
}

fn terminal_of(construct: &[char]) -> (r: Vec<char>)
    ensures
        r@ == terminal(construct@),
{
    let t = trim_leading(construct, '.');
    tail_after_last(t.as_slice(), '.')
}

// ── Mentions ─────────────────────────────────────────────────────────────────

/// Whether `c` is neither an ASCII letter nor an ASCII digit.
pub open spec fn non_alnum(c: char) -> bool {
    !ascii_alnum(c)
}

/// The token-delimited scan of `mentions` from index `from`: `Some(true)` at the first
/// occurrence of `c` bounded by non-alphanumerics (or the ends), `Some(false)` when there is
/// none, and `None` where the scan would step into the middle of a character (an unbounded
/// occurrence of a `c` that starts with a non-ASCII character).
pub open spec fn mention_scan(s: Seq<char>, c: Seq<char>, from: int) -> Option<bool>
    decreases s.len() + 1 - from,
{
    let start = find_from(s, c, from);
    if from < 0 || start < 0 || start < from || start > s.len() {
        Some(false)
    } else {
        let end = start + c.len();
        let before_ok = start == 0 || non_alnum(s[start - 1]);
        let after_ok = end >= s.len() || non_alnum(s[end]);
        if before_ok && after_ok {
            Some(true)
        } else if c.len() > 0 && (c[0] as u32) >= 128 {
            None
        } else {
            mention_scan(s, c, start + 1)
        }
    }
}

/// `mentions`: whether a sentence names a construct as a code symbol — its terminal dotted
/// segment, lower-cased, backticked or as a token bounded by non-alphanumerics. `None` where
/// the scan would panic.
pub open spec fn mentions_spec(sentence: Seq<char>, construct: Seq<char>) -> Option<bool> {
    let lower = lowercase(sentence);
    let c = lowercase(terminal(construct));
    if c.len() == 0 {
        Some(false)
    } else if contains_seq(lower, seq!['`'] + c + seq!['`']) {
        Some(true)
    } else {
        mention_scan(lower, c, 0)
    }
}

/// Whether `c` occurs in `s` at `k` bounded on each side by a non-alphanumeric character
/// or an end of `s`.
pub open spec fn bounded_at(s: Seq<char>, c: Seq<char>, k: int) -> bool {
    &&& occurs_at(s, c, k)
    &&& k == 0 || non_alnum(s[k - 1])
    &&& k + c.len() >= s.len() || non_alnum(s[k + c.len()])
}

/// Where the token-delimited scan answers, it answers whether `c` occurs at or after `from`
/// bounded by non-alphanumerics or the ends of `s`.
pub proof fn law_mention_scan_finds_a_bounded_occurrence(s: Seq<char>, c: Seq<char>, from: int)
    requires
        0 <= from,
        mention_scan(s, c, from) is Some,
    ensures
        mention_scan(s, c, from) == Some(exists|k: int| from <= k && #[trigger] bounded_at(s, c, k)),
    decreases s.len() + 1 - from,
{
    let start = find_from(s, c, from);
    lemma_find_from(s, c, from);
    if start < 0 {
        assert forall|k: int| from <= k implies !#[trigger] bounded_at(s, c, k) by {
            assert(!occurs_at(s, c, k));
        }
    } else {
        if bounded_at(s, c, start) {
            assert(from <= start);
        } else {
            law_mention_scan_finds_a_bounded_occurrence(s, c, start + 1);
            assert((exists|k: int| from <= k && #[trigger] bounded_at(s, c, k)) == (exists|k: int| start + 1 <= k
                && #[trigger] bounded_at(s, c, k))) by {
                if exists|k: int| from <= k && #[trigger] bounded_at(s, c, k) {
                    let k = choose|k: int| from <= k && #[trigger] bounded_at(s, c, k);
                    if k < start {
                        assert(!occurs_at(s, c, k));
                    }
                    assert(k != start);
                }
            }
        }
    }
}

/// Where `mentions` answers, a sentence mentions a construct exactly when the construct's
/// terminal segment, lower-cased, is not empty and the lower-cased sentence holds it in
/// backticks or bounded by non-alphanumerics or the ends.
pub proof fn law_mentions_is_backticked_or_bounded(sentence: Seq<char>, construct: Seq<char>)
    requires
        mentions_spec(sentence, construct) is Some,
    ensures
        mentions_spec(sentence, construct) == Some(
            lowercase(terminal(construct)).len() > 0 && (contains_seq(
                lowercase(sentence),
                seq!['`'] + lowercase(terminal(construct)) + seq!['`'],
            ) || exists|k: int| #[trigger] bounded_at(lowercase(sentence), lowercase(terminal(construct)), k)),
        ),
{
    let lower = lowercase(sentence);
    let c = lowercase(terminal(construct));
    if c.len() > 0 && !contains_seq(lower, seq!['`'] + c + seq!['`']) {
        law_mention_scan_finds_a_bounded_occurrence(lower, c, 0);
        assert((exists|k: int| 0 <= k && #[trigger] bounded_at(lower, c, k)) == (exists|k: int| #[trigger] bounded_at(
            lower,
            c,
            k,
        )));
    }
}

fn scan_mention(s: &[char], c: &[char]) -> (r: bool)
    requires
        mention_scan(s@, c@, 0) is Some,
    ensures
        mention_scan(s@, c@, 0) == Some(r),
{
    let n = s.len();
    let mut from: usize = 0;
    loop
        invariant
            n == s@.len(),
            from <= s@.len(),
            mention_scan(s@, c@, from as int) == mention_scan(s@, c@, 0),
            mention_scan(s@, c@, 0) is Some,
        decreases s@.len() + 1 - from,
    {
        let start = match find(s, c, from) {
            Some(k) => k,
            None => {
                return false;
            },
        };
        proof {
            lemma_find_from(s@, c@, from as int);
        }
        let end = start + c.len();
        let before_ok = start == 0 || !is_ascii_alnum(s[start - 1]);
        let after_ok = end >= n || !is_ascii_alnum(s[end]);
        if before_ok && after_ok {
            return true;
        }
        if start >= n {
            proof {
                assert(find_from(s@, c@, start + 1) == -1);
                assert(mention_scan(s@, c@, start + 1) == Some(false));
            }
            return false;
        }
        from = start + 1;
    }
}

/// Whether `sentence` mentions `construct` as a code symbol (see [`mentions_spec`]).
pub fn mentions(sentence: &str, construct: &str) -> (r: bool)
    requires
        mentions_spec(sentence@, construct@) is Some,
    ensures
        mentions_spec(sentence@, construct@) == Some(r),
{
    let s = chars_of(sentence);
    let lower = to_lowercase(s.as_slice());
    let k = chars_of(construct);
    let t = terminal_of(k.as_slice());
    let c = to_lowercase(t.as_slice());
    if c.len() == 0 {
        return false;
    }
    let mut ticked: Vec<char> = vec!['`'];
    append_chars(&mut ticked, c.as_slice());
    ticked.push('`');
    proof {
        assert(ticked@ =~= seq!['`'] + c@ + seq!['`']);
    }
    if contains(lower.as_slice(), ticked.as_slice()) {
        return true;
    }
    scan_mention(lower.as_slice(), c.as_slice())
}

fn scan_mention_checked(s: &[char], c: &[char]) -> (r: Option<bool>)
    ensures
        r == mention_scan(s@, c@, 0),
{
    let n = s.len();
    let mut from: usize = 0;
    loop
        invariant
            n == s@.len(),
            from <= s@.len(),
            mention_scan(s@, c@, from as int) == mention_scan(s@, c@, 0),
        decreases s@.len() + 1 - from,
    {
        let start = match find(s, c, from) {
            Some(k) => k,
            None => {
                return Some(false);
            },
        };
        proof {
            lemma_find_from(s@, c@, from as int);
        }
        let end = start + c.len();
        let before_ok = start == 0 || !is_ascii_alnum(s[start - 1]);
        let after_ok = end >= n || !is_ascii_alnum(s[end]);
        if before_ok && after_ok {
            return Some(true);
        }
        if c.len() > 0 && (c[0] as u32) >= 128 {
            return None;
        }
        if start >= n {
            proof {
                assert(find_from(s@, c@, start + 1) == -1);
                assert(mention_scan(s@, c@, start + 1) == Some(false));
            }
            return Some(false);
        }
        from = start + 1;
    }
}

/// Whether `sentence` mentions `construct` as a code symbol (see [`mentions_spec`]), for
/// any input: `None` where the scan would stop inside a character (a non-ASCII construct
/// found only inside a longer word), where [`mentions`] may not be called.
pub fn mentions_checked(sentence: &str, construct: &str) -> (r: Option<bool>)
    ensures
        r == mentions_spec(sentence@, construct@),
{
    let s = chars_of(sentence);
    let lower = to_lowercase(s.as_slice());
    let k = chars_of(construct);
    let t = terminal_of(k.as_slice());
    let c = to_lowercase(t.as_slice());
    if c.len() == 0 {
        return Some(false);
    }
    let mut ticked: Vec<char> = vec!['`'];
    append_chars(&mut ticked, c.as_slice());
    ticked.push('`');
    proof {
        assert(ticked@ =~= seq!['`'] + c@ + seq!['`']);
    }
    if contains(lower.as_slice(), ticked.as_slice()) {
        return Some(true);
    }
    scan_mention_checked(lower.as_slice(), c.as_slice())
}

/// A character that belongs to a full dotted token.
pub open spec fn tok_char(c: char) -> bool {
    ascii_alnum(c) || c == '_' || c == '.'
}

fn is_tok_char(c: char) -> (r: bool)
    ensures
        r == tok_char(c),
{
    is_ascii_alnum(c) || c == '_' || c == '.'
}

/// The full-token scan of `mentions_full_token` from index `from`.
pub open spec fn full_token_scan(s: Seq<char>, c: Seq<char>, from: int) -> bool
    decreases s.len() + 1 - from,
{
    let start = find_from(s, c, from);
    if from < 0 || c.len() == 0 || start < 0 || start < from || start + c.len() > s.len() {
        false
    } else {
        let end = start + c.len();
        let before = start == 0 || !tok_char(s[start - 1]);
        let after = end >= s.len() || !tok_char(s[end]);
        if before && after {
            true
        } else {
            full_token_scan(s, c, end)
        }
    }
}

/// Whether `construct` appears in `sentence` delimited by characters that are not ASCII
/// alphanumerics, `_` or `.`, so a dotted chain is matched whole (both sides lower-case by
/// contract).
pub fn mentions_full_token(sentence: &str, construct: &str) -> (r: bool)
    requires
        construct@.len() > 0,
    ensures
        r == full_token_scan(sentence@, construct@, 0),
{
    let s = chars_of(sentence);
    let c = chars_of(construct);
    let n = s.len();
    let mut from: usize = 0;
    loop
        invariant
            n == s@.len(),
            from <= s@.len() + 1,
            s@ == sentence@,
            c@ == construct@,
            c@.len() > 0,
            full_token_scan(s@, c@, from as int) == full_token_scan(s@, c@, 0),
        decreases s@.len() + 1 - from,
    {
        let start = match find(s.as_slice(), c.as_slice(), from) {
            Some(k) => k,
            None => {
                return false;
            },
        };
        proof {
            lemma_find_from(s@, c@, from as int);
        }
        let end = start + c.len();
        let before = start == 0 || !is_tok_char(s[start - 1]);
        let after = end >= s.len() || !is_tok_char(s[end]);
        if before && after {
            return true;
        }
        from = end;
    }
}

/// The form other prose addresses a construct by: `<x>` for an element-typography
/// subject, else the construct itself.
pub open spec fn needle_of(construct: Seq<char>, element_typography: bool) -> Seq<char> {
    if element_typography {
        seq!['<'] + construct + seq!['>']
    } else {
        construct
    }
}

/// See [`needle_of`].
pub fn mention_needle(construct: &str, element_typography: bool) -> (r: String)
    ensures
        r@ == needle_of(construct@, element_typography),
{
    let c = chars_of(construct);
    if element_typography {
        let mut out: Vec<char> = vec!['<'];
        append_chars(&mut out, c.as_slice());
        out.push('>');
        assert(out@ =~= seq!['<'] + construct@ + seq!['>']);
        string_of(out.as_slice())
    } else {
        string_of(c.as_slice())
    }
}

/// A rule's identity: `uses-` and the construct, byte for byte.
pub open spec fn rule_id_of(construct: Seq<char>) -> Seq<char> {
    seq!['u', 's', 'e', 's', '-'] + construct
}

/// See [`rule_id_of`].
pub fn rule_id(construct: &str) -> (r: String)
    ensures
        r@ == rule_id_of(construct@),
{
    let mut out: Vec<char> = vec!['u', 's', 'e', 's', '-'];
    let c = chars_of(construct);
    append_chars(&mut out, c.as_slice());
    assert(out@ =~= rule_id_of(construct@));
    string_of(out.as_slice())
}

/// Distinct constructs never share a rule id: the id keeps the construct byte for byte.
pub proof fn law_rule_ids_never_collide(a: Seq<char>, b: Seq<char>)
    requires
        a != b,
    ensures
        rule_id_of(a) != rule_id_of(b),
{
    if rule_id_of(a) == rule_id_of(b) {
        assert(rule_id_of(a).skip(5) =~= a);
        assert(rule_id_of(b).skip(5) =~= b);
    }
}

/// Whether a language's documentation read pass produced any page.
pub fn read_pass_complete(pages: &[(String, String)]) -> (r: bool)
    ensures
        r == (pages@.len() > 0),
{
    pages.len() > 0
}

// ── Operators and slugs ──────────────────────────────────────────────────────

/// A character of an operator: neither an ASCII alphanumeric nor a dot.
pub open spec fn op_char(c: char) -> bool {
    !ascii_alnum(c) && c != '.'
}

/// Whether every character of `s` is an operator character.
pub open spec fn all_op(s: Seq<char>) -> bool {
    forall|i: int| 0 <= i < s.len() ==> op_char(#[trigger] s[i])
}

fn all_op_chars(s: &[char]) -> (r: bool)
    ensures
        r == all_op(s@),
{
    let mut i: usize = 0;
    while i < s.len()
        invariant
            i <= s@.len(),
            forall|k: int| 0 <= k < i ==> op_char(#[trigger] s@[k]),
        decreases s@.len() - i,
    {
        if is_ascii_alnum(s[i]) || s[i] == '.' {
            assert(!op_char(s@[i as int]));
            return false;
        }
        i = i + 1;
    }
    true
}

/// Whether `construct` is a multi-character operator: at least two bytes, no ASCII
/// alphanumeric and no dot.
pub fn is_operator(construct: &str) -> (r: bool)
    ensures
        r == (crate::text::byte_len(construct@) >= 2 && all_op(construct@)),
{
    let c = chars_of(construct);
    crate::text::byte_len_at_least(c.as_slice(), 2) && all_op_chars(c.as_slice())
}

/// Each character of `s` lower-cased when an ASCII alphanumeric, else `-`.
pub open spec fn slug_chars(s: Seq<char>) -> Seq<char> {
    s.map_values(|c: char| if ascii_alnum(c) { ascii_lower(c) } else { '-' })
}

/// The slug of `s`: ASCII alphanumerics lower-cased, every other character folded to `-`,
/// runs of `-` collapsed and the ends trimmed.
pub open spec fn slug(s: Seq<char>) -> Seq<char> {
    join_dash(segments(slug_chars(s), '-'))
}

/// The parts joined by `-`.
pub open spec fn join_dash(parts: Seq<Seq<char>>) -> Seq<char>
    decreases parts.len(),
{
    if parts.len() == 0 {
        Seq::empty()
    } else if parts.len() == 1 {
        parts[0]
    } else {
        join_dash(parts.drop_last()) + seq!['-'] + parts.last()
    }
}

/// See [`slug`].
pub fn slugify(s: &str) -> (r: String)
    ensures
        r@ == slug(s@),
{
    let cs = chars_of(s);
    let mut mapped: Vec<char> = Vec::new();
    let mut i: usize = 0;
    while i < cs.len()
        invariant
            i <= cs@.len(),
            cs@ == s@,
            mapped@ == slug_chars(s@).take(i as int),
        decreases cs@.len() - i,
    {
        let c = cs[i];
        if is_ascii_alnum(c) {
            mapped.push(to_ascii_lower(c));
        } else {
            mapped.push('-');
        }
        i = i + 1;
        assert(mapped@ =~= slug_chars(s@).take(i as int));
    }
    assert(slug_chars(s@).take(i as int) =~= slug_chars(s@));
    let parts = split_segments(mapped.as_slice(), '-');
    let mut out: Vec<char> = Vec::new();
    let mut k: usize = 0;
    while k < parts.len()
        invariant
            k <= parts@.len(),
            out@ == join_dash(views(parts@).take(k as int)),
        decreases parts@.len() - k,
    {
        proof {
            assert(views(parts@).take(k + 1).drop_last() =~= views(parts@).take(k as int));
            assert(views(parts@).take(k + 1).last() == parts@[k as int]@);
        }
        if k > 0 {
            out.push('-');
        }
        append_chars(&mut out, parts[k].as_slice());
        proof {
            if k == 0 {
                assert(out@ =~= parts@[0]@);
            } else {
                assert(out@ =~= join_dash(views(parts@).take(k as int)) + seq!['-'] + parts@[k as int]@);
            }
        }
        k = k + 1;
    }
    assert(views(parts@).take(k as int) =~= views(parts@));
    string_of(out.as_slice())
}

/// The payload of a URL's last path segment: its slug, less a leading `no-`.
pub open spec fn url_payload(url: Seq<char>) -> Seq<char> {
    let seg = slug(after_last(strip_trailing(url, '/'), '/'));
    let no = seq!['n', 'o', '-'];
    if seg.len() >= 3 && seg.take(3) == no {
        seg.skip(3)
    } else {
        seg
    }
}

/// Whether the page's URL payload equals the slug of `construct`'s terminal segment (and
/// that slug is not empty).
pub fn url_payload_equals(url: &str, construct: &str) -> (r: bool)
    ensures
        r == (slug(terminal(construct@)).len() > 0 && url_payload(url@) == slug(terminal(construct@))),
{
    let u = chars_of(url);
    let trimmed_url = trim_trailing(u.as_slice(), '/');
    let last = tail_after_last(trimmed_url.as_slice(), '/');
    let last_s = string_of(last.as_slice());
    let seg = chars_of(slugify(last_s.as_str()).as_str());
    let payload: Vec<char> = if seg.len() >= 3 && seg[0] == 'n' && seg[1] == 'o' && seg[2] == '-' {
        proof {
            assert(seg@.take(3) =~= seq!['n', 'o', '-']);
        }
        crate::text::slice_chars(seg.as_slice(), 3, seg.len())
    } else {
        proof {
            if seg@.len() >= 3 {
                assert(seg@.take(3)[0] == seg@[0]);
                assert(seg@.take(3)[1] == seg@[1]);
                assert(seg@.take(3)[2] == seg@[2]);
            }
        }
        seg
    };
    proof {
        assert(payload@ == url_payload(url@));
    }
    let k = chars_of(construct);
    let t = terminal_of(k.as_slice());
    let ts = string_of(t.as_slice());
    let cslug = chars_of(slugify(ts.as_str()).as_str());
    cslug.len() > 0 && chars_eq(payload.as_slice(), cslug.as_slice())
}


// ── Receivers of a member ────────────────────────────────────────────────────

/// A character of a receiver identifier.
pub open spec fn ident_c(c: char) -> bool {
    ascii_alnum(c) || c == '_' || c == '$'
}

fn is_ident_c(c: char) -> (r: bool)
    ensures
        r == ident_c(c),
{
    is_ascii_alnum(c) || c == '_' || c == '$'
}

/// Where the identifier run that ends at `at` starts.
pub open spec fn run_start(s: Seq<char>, at: int) -> int
    decreases at,
{
    if at > 0 && at <= s.len() && ident_c(s[at - 1]) {
        run_start(s, at - 1)
    } else {
        at
    }
}

fn run_start_of(s: &[char], at: usize) -> (r: usize)
    requires
        at <= s@.len(),
    ensures
        r == run_start(s@, at as int),
        r <= at,
    decreases at,
{
    if at > 0 && is_ident_c(s[at - 1]) {
        run_start_of(s, at - 1)
    } else {
        at
    }
}

/// Whether the occurrence of `member` ending at `end` is bounded on the right.
pub open spec fn bounded_after(s: Seq<char>, end: int) -> bool {
    end >= s.len() || !ident_c(s[end])
}

/// Whether the scan steps past the occurrence at `at` without panicking: the occurrence
/// starts on an ASCII character inside the text.
pub open spec fn steppable(s: Seq<char>, at: int) -> bool {
    0 <= at < s.len() && (s[at] as u32) < 128
}

/// Whether `recv` occurs in `earlier` (from index `f`) as an introduced identifier: not
/// preceded by an identifier character or a dot, not followed by an identifier character.
pub open spec fn introduced(earlier: Seq<char>, recv: Seq<char>, f: int) -> bool
    decreases earlier.len() + 1 - f,
{
    let s2 = find_from(earlier, recv, f);
    if f < 0 || recv.len() == 0 || s2 < 0 || s2 < f || s2 + recv.len() > earlier.len() {
        false
    } else {
        let e2 = s2 + recv.len();
        let b_ok = s2 == 0 || (!ident_c(earlier[s2 - 1]) && earlier[s2 - 1] != '.');
        let a_ok = e2 >= earlier.len() || !ident_c(earlier[e2]);
        if b_ok && a_ok {
            true
        } else {
            introduced(earlier, recv, s2 + 1)
        }
    }
}

/// Whether the occurrence of `member` at `at` demonstrates the item: a literal or
/// expression receiver, or an identifier receiver (not itself a member) that is the item's
/// parent up to ASCII case or was introduced earlier in the block.
pub open spec fn demo_at(block: Seq<char>, member: Seq<char>, parent: Seq<char>, at: int) -> bool {
    let end = at + member.len();
    if !bounded_after(block, end) {
        false
    } else if at > 0 && (block[at - 1] == '"' || block[at - 1] == '\'' || block[at - 1] == ')' || block[at - 1] == ']') {
        true
    } else {
        let rs = run_start(block, at);
        let recv = block.subrange(rs, at);
        recv.len() > 0 && !(rs > 0 && block[rs - 1] == '.') && (seq_eq_ci(recv, parent) || introduced(
            block.take(rs),
            recv,
            0,
        ))
    }
}

/// The scan of `member_demo_ok` from index `from`; `None` where it would panic.
pub open spec fn demo_scan(block: Seq<char>, member: Seq<char>, parent: Seq<char>, from: int) -> Option<bool>
    decreases block.len() + 1 - from,
{
    let at = find_from(block, member, from);
    if from < 0 || at < 0 || at < from || at + member.len() > block.len() {
        Some(false)
    } else if demo_at(block, member, parent, at) {
        Some(true)
    } else if !steppable(block, at) {
        None
    } else {
        demo_scan(block, member, parent, at + 1)
    }
}

/// Where the demonstration scan answers, it answers whether `member` occurs in `block` at
/// or after `from` at a place that demonstrates it (see [`demo_at`]).
pub proof fn law_demo_scan_finds_a_demonstrating_occurrence(block: Seq<char>, member: Seq<char>, parent: Seq<char>, from: int)
    requires
        0 <= from,
        demo_scan(block, member, parent, from) is Some,
    ensures
        demo_scan(block, member, parent, from) == Some(
            exists|k: int| from <= k && occurs_at(block, member, k) && #[trigger] demo_at(block, member, parent, k),
        ),
    decreases block.len() + 1 - from,
{
    let at = find_from(block, member, from);
    lemma_find_from(block, member, from);
    if at < 0 {
        assert forall|k: int| from <= k && occurs_at(block, member, k) implies !#[trigger] demo_at(block, member, parent, k) by {
        }
    } else if !demo_at(block, member, parent, at) {
        law_demo_scan_finds_a_demonstrating_occurrence(block, member, parent, at + 1);
        assert((exists|k: int| from <= k && occurs_at(block, member, k) && #[trigger] demo_at(block, member, parent, k)) == (
        exists|k: int| at + 1 <= k && occurs_at(block, member, k) && #[trigger] demo_at(block, member, parent, k))) by {
            if exists|k: int| from <= k && occurs_at(block, member, k) && #[trigger] demo_at(block, member, parent, k) {
                let k = choose|k: int| from <= k && occurs_at(block, member, k) && #[trigger] demo_at(block, member, parent, k);
                assert(k != at);
            }
        }
    }
}

fn introduced_exec(earlier: &[char], recv: &[char]) -> (r: bool)
    ensures
        r == introduced(earlier@, recv@, 0),
{
    if recv.len() == 0 {
        return false;
    }
    let n = earlier.len();
    let mut f: usize = 0;
    loop
        invariant
            n == earlier@.len(),
            recv@.len() > 0,
            f <= n + 1,
            introduced(earlier@, recv@, f as int) == introduced(earlier@, recv@, 0),
        decreases n + 1 - f,
    {
        let s2 = match find(earlier, recv, f) {
            Some(k) => k,
            None => {
                return false;
            },
        };
        proof {
            lemma_find_from(earlier@, recv@, f as int);
        }
        let e2 = s2 + recv.len();
        let b_ok = s2 == 0 || (!is_ident_c(earlier[s2 - 1]) && earlier[s2 - 1] != '.');
        let a_ok = e2 >= n || !is_ident_c(earlier[e2]);
        if b_ok && a_ok {
            return true;
        }
        f = s2 + 1;
    }
}

fn demo_at_exec(block: &[char], member: &[char], parent: &[char], at: usize) -> (r: bool)
    requires
        at + member@.len() <= block@.len(),
    ensures
        r == demo_at(block@, member@, parent@, at as int),
{
    let n = block.len();
    let end = at + member.len();
    if !(end >= block.len() || !is_ident_c(block[end])) {
        return false;
    }
    if at > 0 && (block[at - 1] == '"' || block[at - 1] == '\'' || block[at - 1] == ')' || block[at - 1] == ']') {
        return true;
    }
    let rs = run_start_of(block, at);
    let recv = crate::text::slice_chars(block, rs, at);
    if recv.len() == 0 || (rs > 0 && block[rs - 1] == '.') {
        return false;
    }
    if chars_eq_ci(recv.as_slice(), parent) {
        return true;
    }
    let earlier = crate::text::slice_chars(block, 0, rs);
    proof {
        assert(earlier@ =~= block@.take(rs as int));
    }
    introduced_exec(earlier.as_slice(), recv.as_slice())
}

/// Whether an example block demonstrates the receiver-generic member `member` as the
/// marked item's own usage (see [`demo_scan`]).
pub fn member_demo_ok(block: &str, member: &str, parent: &str) -> (r: bool)
    requires
        demo_scan(block@, member@, parent@, 0) is Some,
    ensures
        demo_scan(block@, member@, parent@, 0) == Some(r),
{
    let b = chars_of(block);
    let m = chars_of(member);
    let p = chars_of(parent);
    let n = b.len();
    let mut from: usize = 0;
    loop
        invariant
            n == b@.len(),
            b@ == block@,
            m@ == member@,
            p@ == parent@,
            from <= n,
            demo_scan(b@, m@, p@, from as int) == demo_scan(b@, m@, p@, 0),
            demo_scan(b@, m@, p@, 0) is Some,
        decreases n + 1 - from,
    {
        let at = match find(b.as_slice(), m.as_slice(), from) {
            Some(k) => k,
            None => {
                return false;
            },
        };
        proof {
            lemma_find_from(b@, m@, from as int);
        }
        if demo_at_exec(b.as_slice(), m.as_slice(), p.as_slice(), at) {
            return true;
        }
        from = at + 1;
    }
}

/// The receivers of the occurrences of `member` in `blk` from index `from`, in order; `None`
/// where the scan would panic.
pub open spec fn receivers_from(blk: Seq<char>, member: Seq<char>, from: int) -> Option<Seq<Seq<char>>>
    decreases blk.len() + 1 - from,
{
    let at = find_from(blk, member, from);
    if from < 0 || at < 0 || at < from || at + member.len() > blk.len() {
        Some(Seq::empty())
    } else {
        let recv = blk.subrange(run_start(blk, at), at);
        let here = if bounded_after(blk, at + member.len()) && recv.len() > 0 {
            seq![recv]
        } else {
            Seq::empty()
        };
        if !steppable(blk, at) {
            None
        } else {
            match receivers_from(blk, member, at + 1) {
                None => None,
                Some(rest) => Some(here + rest),
            }
        }
    }
}

/// The receivers of `member` over every block, blocks in order; `None` where a scan would
/// panic.
pub open spec fn receivers_all(reference: Seq<Seq<char>>, member: Seq<char>) -> Option<Seq<Seq<char>>>
    decreases reference.len(),
{
    if reference.len() == 0 {
        Some(Seq::empty())
    } else {
        match (receivers_all(reference.drop_last(), member), receivers_from(reference.last(), member, 0)) {
            (Some(a), Some(b)) => Some(a + b),
            _ => None,
        }
    }
}

fn receivers_in(blk: &[char], member: &[char]) -> (r: Vec<Vec<char>>)
    requires
        receivers_from(blk@, member@, 0) is Some,
    ensures
        views(r@) == receivers_from(blk@, member@, 0).unwrap(),
{
    let n = blk.len();
    let mut out: Vec<Vec<char>> = Vec::new();
    let mut from: usize = 0;
    loop
        invariant
            n == blk@.len(),
            from <= n,
            receivers_from(blk@, member@, from as int) is Some,
            views(out@) + receivers_from(blk@, member@, from as int).unwrap() == receivers_from(blk@, member@, 0).unwrap(),
        ensures
            views(out@) == receivers_from(blk@, member@, 0).unwrap(),
        decreases n + 1 - from,
    {
        let at = match find(blk, member, from) {
            Some(k) => k,
            None => {
                assert(views(out@) + Seq::<Seq<char>>::empty() =~= views(out@));
                break;
            },
        };
        proof {
            lemma_find_from(blk@, member@, from as int);
        }
        let end = at + member.len();
        let rs = run_start_of(blk, at);
        let recv = crate::text::slice_chars(blk, rs, at);
        let ghost before = views(out@);
        let ghost rest = receivers_from(blk@, member@, at + 1).unwrap();
        if (end >= n || !is_ident_c(blk[end])) && recv.len() > 0 {
            out.push(recv);
            proof {
                assert(views(out@) + rest =~= before + (seq![recv@] + rest));
            }
        } else {
            proof {
                assert(before + rest =~= before + (Seq::<Seq<char>>::empty() + rest));
            }
        }
        from = at + 1;
    }
    out
}

/// The number of distinct receiver identifiers `X` such that `X<member>` appears in the
/// reference corpus.
pub fn member_receivers(reference: &[String], member: &str) -> (r: usize)
    requires
        receivers_all(reference.deep_view(), member@) is Some,
    ensures
        r == crate::text::dedup_all(Seq::empty(), receivers_all(reference.deep_view(), member@).unwrap()).len(),
{
    let m = chars_of(member);
    let ghost rv = reference.deep_view();
    let mut seen: Vec<Vec<char>> = Vec::new();
    let mut i: usize = 0;
    while i < reference.len()
        invariant
            i <= reference@.len(),
            rv == reference.deep_view(),
            m@ == member@,
            receivers_all(rv, member@) is Some,
            receivers_all(rv.take(i as int), member@) is Some,
            views(seen@) == crate::text::dedup_all(Seq::empty(), receivers_all(rv.take(i as int), member@).unwrap()),
        decreases reference@.len() - i,
    {
        proof {
            assert(rv.take(i + 1).drop_last() =~= rv.take(i as int));
            assert(rv.take(i + 1).last() == reference@[i as int]@);
            lemma_receivers_prefix(rv, member@, i + 1);
        }
        let blk = chars_of(reference[i].as_str());
        let rs = receivers_in(blk.as_slice(), m.as_slice());
        let mut j: usize = 0;
        let ghost base = receivers_all(rv.take(i as int), member@).unwrap();
        while j < rs.len()
            invariant
                j <= rs@.len(),
                views(seen@) == crate::text::dedup_all(Seq::empty(), base + views(rs@).take(j as int)),
            decreases rs@.len() - j,
        {
            proof {
                lemma_dedup_all_push(Seq::empty(), base + views(rs@).take(j as int), rs@[j as int]@);
                assert(base + views(rs@).take(j + 1) =~= (base + views(rs@).take(j as int)).push(rs@[j as int]@));
            }
            crate::text::add_unique(&mut seen, copy_chars(rs[j].as_slice()));
            j = j + 1;
        }
        proof {
            assert(views(rs@).take(j as int) =~= views(rs@));
        }
        i = i + 1;
    }
    proof {
        assert(rv.take(i as int) =~= rv);
        lemma_dedup_len(seen@);
    }
    seen.len()
}

proof fn lemma_dedup_len(v: Seq<Vec<char>>)
    ensures
        views(v).len() == v.len(),
{
}

proof fn lemma_receivers_prefix(rv: Seq<Seq<char>>, member: Seq<char>, k: int)
    requires
        0 <= k <= rv.len(),
        receivers_all(rv, member) is Some,
    ensures
        receivers_all(rv.take(k), member) is Some,
        k > 0 ==> receivers_from(rv[k - 1], member, 0) is Some,
    decreases rv.len(),
{
    if k < rv.len() {
        lemma_receivers_prefix(rv.drop_last(), member, k);
        assert(rv.drop_last().take(k) =~= rv.take(k));
        if k > 0 {
            assert(rv.drop_last()[k - 1] == rv[k - 1]);
        }
    } else {
        assert(rv.take(k) =~= rv);
        if k > 0 {
            assert(rv.last() == rv[k - 1]);
        }
    }
}

/// Extending a deduplicated fold by one element.
pub proof fn lemma_dedup_all_push(acc: Seq<Seq<char>>, xs: Seq<Seq<char>>, x: Seq<char>)
    ensures
        crate::text::dedup_all(acc, xs.push(x)) == push_unique(crate::text::dedup_all(acc, xs), x),
    decreases xs.len(),
{
    if xs.len() > 0 {
        assert(xs.push(x).drop_first() =~= xs.drop_first().push(x));
        assert(xs.push(x)[0] == xs[0]);
        lemma_dedup_all_push(push_unique(acc, xs[0]), xs.drop_first(), x);
    } else {
        assert(xs.push(x).drop_first() =~= Seq::<Seq<char>>::empty());
        assert(xs.push(x)[0] == x);
        assert(crate::text::dedup_all(push_unique(acc, x), Seq::<Seq<char>>::empty()) == push_unique(acc, x));
    }
}


// ── Constructs in code ───────────────────────────────────────────────────────

/// A character that ends an alphanumeric construct: neither an ASCII alphanumeric nor a dot.
pub open spec fn construct_boundary(c: char) -> bool {
    !ascii_alnum(c) && c != '.'
}

/// The boundary scan of `construct_in_text` from index `from`; `None` where it would panic.
pub open spec fn construct_scan(code: Seq<char>, c: Seq<char>, from: int) -> Option<bool>
    decreases code.len() + 1 - from,
{
    let start = find_from(code, c, from);
    if from < 0 || start < 0 || start < from || start + c.len() > code.len() {
        Some(false)
    } else {
        let end = start + c.len();
        let before_ok = start == 0 || construct_boundary(code[start - 1]);
        let after_ok = end >= code.len() || construct_boundary(code[end]);
        if before_ok && after_ok {
            Some(true)
        } else if !steppable(code, start) {
            None
        } else {
            construct_scan(code, c, start + 1)
        }
    }
}

/// Whether `c` occurs in `code` at `k` bounded on each side by a construct boundary or an
/// end of `code`.
pub open spec fn construct_bounded_at(code: Seq<char>, c: Seq<char>, k: int) -> bool {
    &&& occurs_at(code, c, k)
    &&& k == 0 || construct_boundary(code[k - 1])
    &&& k + c.len() >= code.len() || construct_boundary(code[k + c.len()])
}

/// Where the boundary scan answers, it answers whether `c` occurs at or after `from`
/// bounded by construct boundaries or the ends of `code`.
pub proof fn law_construct_scan_finds_a_bounded_occurrence(code: Seq<char>, c: Seq<char>, from: int)
    requires
        0 <= from,
        construct_scan(code, c, from) is Some,
    ensures
        construct_scan(code, c, from) == Some(exists|k: int| from <= k && #[trigger] construct_bounded_at(code, c, k)),
    decreases code.len() + 1 - from,
{
    let start = find_from(code, c, from);
    lemma_find_from(code, c, from);
    if start < 0 {
        assert forall|k: int| from <= k implies !#[trigger] construct_bounded_at(code, c, k) by {
            assert(!occurs_at(code, c, k));
        }
    } else {
        if construct_bounded_at(code, c, start) {
            assert(from <= start);
        } else {
            law_construct_scan_finds_a_bounded_occurrence(code, c, start + 1);
            assert((exists|k: int| from <= k && #[trigger] construct_bounded_at(code, c, k)) == (exists|k: int| start
                + 1 <= k && #[trigger] construct_bounded_at(code, c, k))) by {
                if exists|k: int| from <= k && #[trigger] construct_bounded_at(code, c, k) {
                    let k = choose|k: int| from <= k && #[trigger] construct_bounded_at(code, c, k);
                    if k < start {
                        assert(!occurs_at(code, c, k));
                    }
                    assert(k != start);
                }
            }
        }
    }
}

/// Whether some whitespace token of `code`, trimmed of `( ) ; { } ,`, equals `c`.
pub open spec fn token_equals(code: Seq<char>, c: Seq<char>) -> bool {
    exists|i: int| 0 <= i < crate::text::words(code).len() && crate::text::trim_class(#[trigger] crate::text::words(code)[i], 1) == c
}

/// `construct_in_text`: whether `code` contains `construct` as a code token — a leading-dot
/// member as a substring, a symbol as a whole trimmed whitespace token, anything else
/// bounded by characters that are neither ASCII alphanumerics nor dots. `None` where the
/// scan would panic.
pub open spec fn construct_in_text_spec(code: Seq<char>, construct: Seq<char>) -> Option<bool> {
    if construct.len() == 0 {
        Some(false)
    } else if construct[0] == '.' {
        Some(contains_seq(code, construct))
    } else if all_op(construct) {
        Some(token_equals(code, construct))
    } else {
        construct_scan(code, construct, 0)
    }
}

/// See [`construct_in_text_spec`].
pub fn construct_in_text(code: &str, construct: &str) -> (r: bool)
    requires
        construct_in_text_spec(code@, construct@) is Some,
    ensures
        construct_in_text_spec(code@, construct@) == Some(r),
{
    let k = chars_of(construct);
    let cs = chars_of(code);
    if k.len() == 0 {
        return false;
    }
    if k[0] == '.' {
        return contains(cs.as_slice(), k.as_slice());
    }
    if all_op_chars(k.as_slice()) {
        let ws = crate::text::split_words(cs.as_slice());
        let mut i: usize = 0;
        while i < ws.len()
            invariant
                i <= ws@.len(),
                views(ws@) == crate::text::words(code@),
                k@ == construct@,
                construct@.len() > 0,
                construct@[0] != '.',
                all_op(construct@),
                forall|j: int| 0 <= j < i ==> crate::text::trim_class(#[trigger] crate::text::words(code@)[j], 1) != construct@,
            decreases ws@.len() - i,
        {
            let t = crate::text::trimmed_class(ws[i].as_slice(), 1);
            if chars_eq(t.as_slice(), k.as_slice()) {
                assert(crate::text::trim_class(crate::text::words(code@)[i as int], 1) == construct@);
                return true;
            }
            i = i + 1;
        }
        return false;
    }
    let n = cs.len();
    let mut from: usize = 0;
    loop
        invariant
            n == cs@.len(),
            cs@ == code@,
            k@ == construct@,
            k@.len() > 0,
            construct@[0] != '.',
            !all_op(construct@),
            from <= n,
            construct_scan(cs@, k@, from as int) == construct_scan(cs@, k@, 0),
            construct_scan(cs@, k@, 0) is Some,
        decreases n + 1 - from,
    {
        let start = match find(cs.as_slice(), k.as_slice(), from) {
            Some(x) => x,
            None => {
                return false;
            },
        };
        proof {
            lemma_find_from(cs@, k@, from as int);
        }
        let end = start + k.len();
        let before_ok = start == 0 || (!is_ascii_alnum(cs[start - 1]) && cs[start - 1] != '.');
        let after_ok = end >= n || (!is_ascii_alnum(cs[end]) && cs[end] != '.');
        if before_ok && after_ok {
            return true;
        }
        from = start + 1;
    }
}

// ── The harvest corpus ───────────────────────────────────────────────────────

/// The most blocks a harvest keeps.
pub const MAX_HARVEST_BLOCKS: usize = 4000;

/// One binding of a read memory: a page's url and slug, its prose and its bound code.
pub struct Binding {
    /// The page url.
    pub url: String,
    /// The page slug.
    pub slug: String,
    /// The prose the code was bound to.
    pub prose: String,
    /// The bound code.
    pub code: String,
}

/// What a language's read memory holds of its documentation code: the bindings, and the
/// reference corpus of code blocks.
pub struct Memory {
    /// The prose-to-code bindings.
    pub bindings: Vec<Binding>,
    /// The reference corpus.
    pub reference: Vec<String>,
}

/// The code blocks a memory serves: every binding's code, then every reference block.
pub open spec fn memory_blocks(m: &Memory) -> Seq<Seq<char>> {
    m.bindings@.map_values(|b: Binding| b.code@) + m.reference.deep_view()
}

/// The harvest of `xs` onto `acc`: each block trimmed, kept when non-empty, not already
/// kept, and while fewer than [`MAX_HARVEST_BLOCKS`] are kept.
pub open spec fn harvest(acc: Seq<Seq<char>>, xs: Seq<Seq<char>>) -> Seq<Seq<char>>
    decreases xs.len(),
{
    if xs.len() == 0 {
        acc
    } else {
        let prev = harvest(acc, xs.drop_last());
        let t = trim(xs.last());
        if t.len() == 0 || prev.len() >= MAX_HARVEST_BLOCKS || prev.contains(t) {
            prev
        } else {
            prev.push(t)
        }
    }
}

fn harvest_step(out: &mut Vec<Vec<char>>, code: &String)
    ensures
        views(final(out)@) == harvest(views(old(out)@), seq![code@]),
{
    let c = chars_of(code.as_str());
    let t = trimmed(c.as_slice());
    let ghost before = views(out@);
    proof {
        assert(seq![code@].drop_last() =~= Seq::<Seq<char>>::empty());
        assert(seq![code@].last() == code@);
        assert(harvest(before, Seq::<Seq<char>>::empty()) == before);
        assert(before.len() == out@.len());
    }
    if t.len() > 0 && out.len() < MAX_HARVEST_BLOCKS && !holds(out, t.as_slice()) {
        out.push(t);
        proof {
            assert(views(out@) =~= before.push(t@));
        }
    }
}

proof fn lemma_harvest_push(acc: Seq<Seq<char>>, xs: Seq<Seq<char>>, x: Seq<char>)
    ensures
        harvest(acc, xs.push(x)) == harvest(harvest(acc, xs), seq![x]),
{
    assert(xs.push(x).drop_last() =~= xs);
    assert(seq![x].drop_last() =~= Seq::<Seq<char>>::empty());
    assert(harvest(harvest(acc, xs), Seq::<Seq<char>>::empty()) == harvest(acc, xs));
    assert(xs.push(x).last() == x);
    assert(seq![x].last() == x);
}

proof fn lemma_harvest_clean(acc: Seq<Seq<char>>, xs: Seq<Seq<char>>)
    requires
        acc.no_duplicates(),
        acc.len() <= MAX_HARVEST_BLOCKS,
        forall|i: int| 0 <= i < acc.len() ==> (#[trigger] acc[i]).len() > 0,
    ensures
        harvest(acc, xs).no_duplicates(),
        harvest(acc, xs).len() <= MAX_HARVEST_BLOCKS,
        forall|i: int| 0 <= i < harvest(acc, xs).len() ==> (#[trigger] harvest(acc, xs)[i]).len() > 0,
    decreases xs.len(),
{
    if xs.len() > 0 {
        lemma_harvest_clean(acc, xs.drop_last());
        let prev = harvest(acc, xs.drop_last());
        let t = trim(xs.last());
        if !(t.len() == 0 || prev.len() >= MAX_HARVEST_BLOCKS || prev.contains(t)) {
            assert forall|i: int, j: int| 0 <= i < j < prev.push(t).len() implies prev.push(t)[i] != prev.push(t)[j] by {
                if j == prev.len() {
                    assert(prev.push(t)[i] == prev[i]);
                }
            }
        }
    }
}

/// The harvested corpus holds each block once, never an empty one, and at most
/// [`MAX_HARVEST_BLOCKS`] of them.
pub proof fn law_harvest_is_distinct_and_bounded(memory: &Memory)
    ensures
        harvest(Seq::empty(), memory_blocks(memory)).no_duplicates(),
        harvest(Seq::empty(), memory_blocks(memory)).len() <= MAX_HARVEST_BLOCKS,
        forall|i: int| 0 <= i < harvest(Seq::empty(), memory_blocks(memory)).len() ==> (#[trigger] harvest(
            Seq::empty(),
            memory_blocks(memory),
        )[i]).len() > 0,
{
    lemma_harvest_clean(Seq::empty(), memory_blocks(memory));
}

/// The language's own code corpus from its read memory (see [`harvest`]).
pub fn harvest_corpus(memory: &Memory) -> (r: Vec<String>)
    ensures
        r.deep_view() == harvest(Seq::empty(), memory_blocks(memory)),
{
    let ghost xs = memory_blocks(memory);
    let ghost codes = memory.bindings@.map_values(|b: Binding| b.code@);
    let mut out: Vec<Vec<char>> = Vec::new();
    let mut i: usize = 0;
    proof {
        assert(views(out@) =~= harvest(Seq::empty(), xs.take(0)));
    }
    while i < memory.bindings.len()
        invariant
            i <= memory.bindings@.len(),
            xs == memory_blocks(memory),
            codes == memory.bindings@.map_values(|b: Binding| b.code@),
            views(out@) == harvest(Seq::empty(), xs.take(i as int)),
        decreases memory.bindings@.len() - i,
    {
        proof {
            assert(xs[i as int] == memory.bindings@[i as int].code@);
            assert(xs.take(i + 1) =~= xs.take(i as int).push(xs[i as int]));
            lemma_harvest_push(Seq::empty(), xs.take(i as int), xs[i as int]);
        }
        harvest_step(&mut out, &memory.bindings[i].code);
        i = i + 1;
    }
    let nb = memory.bindings.len();
    let mut j: usize = 0;
    while j < memory.reference.len()
        invariant
            j <= memory.reference@.len(),
            nb == memory.bindings@.len(),
            xs == memory_blocks(memory),
            xs.len() == nb + memory.reference@.len(),
            views(out@) == harvest(Seq::empty(), xs.take(nb + j)),
        decreases memory.reference@.len() - j,
    {
        proof {
            assert(xs[nb + j] == memory.reference@[j as int]@);
            assert(xs.take(nb + j + 1) =~= xs.take(nb + j).push(xs[nb + j]));
            lemma_harvest_push(Seq::empty(), xs.take(nb + j), xs[nb + j]);
        }
        harvest_step(&mut out, &memory.reference[j]);
        j = j + 1;
    }
    assert(xs.take(nb + j) =~= xs);
    strings_of(&out)
}

// ── Splicing a construct into real code ──────────────────────────────────────

/// A character of a name token.
pub open spec fn name_c(c: char) -> bool {
    ascii_alnum(c) || c == '-' || c == '_'
}

/// Where the name run continuing at `j` ends.
pub open spec fn name_end(s: Seq<char>, j: int) -> int
    decreases s.len() - j,
{
    if 0 <= j < s.len() && name_c(s[j]) {
        name_end(s, j + 1)
    } else {
        j
    }
}

/// The name tokens of `s` from index `i`: runs of ASCII alphanumerics, `-` and `_` that
/// start with an ASCII letter.
pub open spec fn names_from(s: Seq<char>, i: int) -> Seq<Seq<char>>
    decreases s.len() - i,
{
    if i < 0 || i >= s.len() {
        Seq::empty()
    } else if ascii_alpha(s[i]) {
        let e = name_end(s, i + 1);
        if e <= i || e > s.len() {
            Seq::empty()
        } else {
            seq![s.subrange(i, e)] + names_from(s, e)
        }
    } else {
        names_from(s, i + 1)
    }
}

/// The distinct name tokens of `xs` other than `c`, in order.
pub open spec fn slots(acc: Seq<Seq<char>>, xs: Seq<Seq<char>>, c: Seq<char>) -> Seq<Seq<char>>
    decreases xs.len(),
{
    if xs.len() == 0 {
        acc
    } else {
        let prev = slots(acc, xs.drop_last(), c);
        if xs.last() == c || prev.contains(xs.last()) {
            prev
        } else {
            prev.push(xs.last())
        }
    }
}

fn name_end_of(s: &[char], j: usize) -> (r: usize)
    requires
        j <= s@.len(),
    ensures
        r == name_end(s@, j as int),
        j <= r <= s@.len(),
    decreases s@.len() - j,
{
    if j < s.len() && (is_ascii_alnum(s[j]) || s[j] == '-' || s[j] == '_') {
        name_end_of(s, j + 1)
    } else {
        j
    }
}

fn name_tokens(s: &[char]) -> (r: Vec<Vec<char>>)
    ensures
        views(r@) == names_from(s@, 0),
{
    let n = s.len();
    let mut out: Vec<Vec<char>> = Vec::new();
    let mut i: usize = 0;
    while i < n
        invariant
            n == s@.len(),
            i <= n,
            views(out@) + names_from(s@, i as int) == names_from(s@, 0),
        decreases n - i,
    {
        if is_ascii_alpha(s[i]) {
            let e = name_end_of(s, i + 1);
            let t = crate::text::slice_chars(s, i, e);
            let ghost before = views(out@);
            out.push(t);
            proof {
                assert(views(out@) + names_from(s@, e as int) =~= before + (seq![t@] + names_from(s@, e as int)));
            }
            i = e;
        } else {
            i = i + 1;
        }
    }
    assert(views(out@) + Seq::<Seq<char>>::empty() =~= views(out@));
    out
}

/// `haystack` from index `i` with every whole-token occurrence of `f` replaced by `t`
/// (occurrences taken left to right without overlap; a token is bounded by characters
/// other than ASCII alphanumerics, `-` and `_`).
pub open spec fn replaced_from(h: Seq<char>, f: Seq<char>, t: Seq<char>, i: int) -> Seq<char>
    decreases h.len() + 1 - i,
{
    let start = find_from(h, f, i);
    if i < 0 || i > h.len() || f.len() == 0 || start < i || start + f.len() > h.len() {
        h.skip(i)
    } else {
        let end = start + f.len();
        let before_ok = start == 0 || !name_c(h[start - 1]);
        let after_ok = end >= h.len() || !name_c(h[end]);
        h.subrange(i, start) + (if before_ok && after_ok {
            t
        } else {
            h.subrange(start, end)
        }) + replaced_from(h, f, t, end)
    }
}

/// `replace_whole_token`: every whole-token occurrence of `from` replaced by `to`; an empty
/// `from` leaves the text as it is.
pub open spec fn replace_token_spec(h: Seq<char>, f: Seq<char>, t: Seq<char>) -> Seq<char> {
    if f.len() == 0 {
        h
    } else {
        replaced_from(h, f, t, 0)
    }
}

fn replace_token_chars(h: &[char], f: &[char], t: &[char]) -> (r: Vec<char>)
    ensures
        r@ == replace_token_spec(h@, f@, t@),
{
    if f.len() == 0 {
        return copy_chars(h);
    }
    let n = h.len();
    let mut out: Vec<char> = Vec::new();
    let mut i: usize = 0;
    loop
        invariant_except_break
            out@ + replaced_from(h@, f@, t@, i as int) == replaced_from(h@, f@, t@, 0),
        invariant
            n == h@.len(),
            f@.len() > 0,
            i <= n,
        ensures
            out@ == replaced_from(h@, f@, t@, 0),
        decreases n + 1 - i,
    {
        let start = match find(h, f, i) {
            Some(x) => x,
            None => {
                let rest = crate::text::slice_chars(h, i, n);
                let ghost o = out@;
                append_chars(&mut out, rest.as_slice());
                proof {
                    assert(rest@ =~= h@.skip(i as int));
                }
                break;
            },
        };
        proof {
            lemma_find_from(h@, f@, i as int);
        }
        let end = start + f.len();
        let before_ok = start == 0 || !(is_ascii_alnum(h[start - 1]) || h[start - 1] == '-' || h[start - 1] == '_');
        let after_ok = end >= n || !(is_ascii_alnum(h[end]) || h[end] == '-' || h[end] == '_');
        let ghost o = out@;
        let pre = crate::text::slice_chars(h, i, start);
        append_chars(&mut out, pre.as_slice());
        if before_ok && after_ok {
            append_chars(&mut out, t);
        } else {
            let mid = crate::text::slice_chars(h, start, end);
            append_chars(&mut out, mid.as_slice());
        }
        proof {
            let piece = h@.subrange(i as int, start as int) + (if before_ok && after_ok {
                t@
            } else {
                h@.subrange(start as int, end as int)
            });
            assert(out@ =~= o + piece);
            assert(replaced_from(h@, f@, t@, i as int) == piece + replaced_from(h@, f@, t@, end as int));
            assert(out@ + replaced_from(h@, f@, t@, end as int) =~= o + replaced_from(h@, f@, t@, i as int));
        }
        i = end;
    }
    out
}

/// See [`replace_token_spec`].
pub fn replace_whole_token(haystack: &str, from: &str, to: &str) -> (r: String)
    ensures
        r@ == replace_token_spec(haystack@, from@, to@),
{
    let h = chars_of(haystack);
    let f = chars_of(from);
    let t = chars_of(to);
    let r = replace_token_chars(h.as_slice(), f.as_slice(), t.as_slice());
    string_of(r.as_slice())
}

/// The splices of `construct` into `block`: for each of the first twelve distinct name
/// tokens of the block other than the construct, the block with that token replaced
/// whole by the construct.
pub open spec fn splices(construct: Seq<char>, block: Seq<char>) -> Seq<Seq<char>> {
    let ts = slots(Seq::empty(), names_from(block, 0), construct);
    let first = if ts.len() > 12 {
        ts.take(12)
    } else {
        ts
    };
    first.map_values(|t: Seq<char>| replace_token_spec(block, t, construct))
}

/// See [`splices`].
pub fn splice_construct(construct: &str, block: &str) -> (r: Vec<String>)
    ensures
        r.deep_view() == splices(construct@, block@),
{
    let c = chars_of(construct);
    let b = chars_of(block);
    let names = name_tokens(b.as_slice());
    let ghost nv = names_from(block@, 0);
    let mut toks: Vec<Vec<char>> = Vec::new();
    let mut i: usize = 0;
    while i < names.len()
        invariant
            i <= names@.len(),
            views(names@) == nv,
            nv == names_from(block@, 0),
            c@ == construct@,
            views(toks@) == slots(Seq::empty(), nv.take(i as int), construct@),
        decreases names@.len() - i,
    {
        proof {
            assert(nv.take(i + 1).drop_last() =~= nv.take(i as int));
            assert(nv.take(i + 1).last() == names@[i as int]@);
        }
        let ghost before = views(toks@);
        if !chars_eq(names[i].as_slice(), c.as_slice()) && !holds(&toks, names[i].as_slice()) {
            toks.push(copy_chars(names[i].as_slice()));
            proof {
                assert(views(toks@) =~= before.push(names@[i as int]@));
            }
        }
        i = i + 1;
    }
    assert(nv.take(i as int) =~= nv);
    let ghost ts = views(toks@);
    let lim: usize = if toks.len() > 12 {
        12
    } else {
        toks.len()
    };
    let ghost first = if ts.len() > 12 {
        ts.take(12)
    } else {
        ts
    };
    let mut out: Vec<String> = Vec::new();
    let mut k: usize = 0;
    while k < lim
        invariant
            k <= lim,
            lim == first.len(),
            lim <= toks@.len(),
            ts == views(toks@),
            first == (if ts.len() > 12 { ts.take(12) } else { ts }),
            c@ == construct@,
            b@ == block@,
            out.deep_view() == first.map_values(|t: Seq<char>| replace_token_spec(block@, t, construct@)).take(k as int),
        decreases lim - k,
    {
        let rep = replace_token_chars(b.as_slice(), toks[k].as_slice(), c.as_slice());
        let ghost before = out.deep_view();
        out.push(string_of(rep.as_slice()));
        proof {
            assert(first[k as int] == toks@[k as int]@);
            assert(out.deep_view() =~= before.push(replace_token_spec(block@, first[k as int], construct@)));
            assert(first.map_values(|t: Seq<char>| replace_token_spec(block@, t, construct@)).take(k + 1)
                =~= first.map_values(|t: Seq<char>| replace_token_spec(block@, t, construct@)).take(k as int).push(
                replace_token_spec(block@, first[k as int], construct@),
            ));
        }
        k = k + 1;
    }
    assert(first.map_values(|t: Seq<char>| replace_token_spec(block@, t, construct@)).take(k as int)
        =~= first.map_values(|t: Seq<char>| replace_token_spec(block@, t, construct@)));
    out
}


// ── What was read but never proposed ─────────────────────────────────────────

/// A construct-rule candidate proposed from the docs.
pub struct Candidate {
    /// The code construct whose use the rule forbids.
    pub construct: String,
    /// The governing sentence the construct was named in.
    pub understanding: String,
    /// The documentation url the governing sentence came from.
    pub url: String,
    /// The page's own incorrect example blocks that fire the construct.
    pub seeds: Vec<String>,
    /// Whether the origin page's deprecation is page-scope truth.
    pub page_scope: bool,
    /// Whether the page writes the subject as an element (`&lt;name&gt;`).
    pub element_typography: bool,
    /// Whether the origin page structurally attests the construct as deprecated.
    pub attested_deprecated: bool,
    /// Whether the page's lead summary states the construct as its subject.
    pub stated: bool,
}

/// One construct the reading layer extracted from a page but never proposed.
pub struct ReadConstruct {
    /// The construct token, byte-preserved.
    pub construct: String,
    /// A governing sentence from the construct's own page.
    pub governing: String,
    /// The page the construct was read from.
    pub url: String,
    /// Whether that page structurally attests deprecation.
    pub attested_deprecated: bool,
    /// Whether the page's deprecation is page-scope truth.
    pub page_scope: bool,
    /// Whether the page's own body writes the subject as an element.
    pub element_typography: bool,
}

/// A read construct as plain values: (construct, governing, url, attested_deprecated,
/// page_scope, element_typography).
pub type ReadV = (Seq<char>, Seq<char>, Seq<char>, bool, bool, bool);

impl View for ReadConstruct {
    type V = ReadV;

    open spec fn view(&self) -> ReadV {
        (self.construct@, self.governing@, self.url@, self.attested_deprecated, self.page_scope, self.element_typography)
    }
}

/// The views of read constructs.
pub open spec fn read_views(v: Seq<ReadConstruct>) -> Seq<ReadV> {
    v.map_values(|r: ReadConstruct| r@)
}

/// The entries of `xs` whose page-scope flag is `scope`, in order.
pub open spec fn with_scope(xs: Seq<ReadV>, scope: bool) -> Seq<ReadV>
    decreases xs.len(),
{
    if xs.len() == 0 {
        Seq::empty()
    } else if xs.last().4 == scope {
        with_scope(xs.drop_last(), scope).push(xs.last())
    } else {
        with_scope(xs.drop_last(), scope)
    }
}

/// The entries of `xs` whose construct is not proposed, the first entry of each construct
/// only.
pub open spec fn unproposed(xs: Seq<ReadV>, proposed: Seq<Seq<char>>) -> Seq<ReadV>
    decreases xs.len(),
{
    if xs.len() == 0 {
        Seq::empty()
    } else {
        let prev = unproposed(xs.drop_last(), proposed);
        let x = xs.last();
        if proposed.contains(x.0) || prev.map_values(|r: ReadV| r.0).contains(x.0) {
            prev
        } else {
            prev.push(x)
        }
    }
}

/// The read surface minus the proposed constructs, deduplicated by construct, the
/// page-scope entries first.
pub open spec fn read_not_proposed_spec(proposed: Seq<Seq<char>>, surface: Seq<ReadV>) -> Seq<ReadV> {
    unproposed(with_scope(surface, true) + with_scope(surface, false), proposed)
}

fn copy_read(r: &ReadConstruct) -> (c: ReadConstruct)
    ensures
        c@ == r@,
{
    ReadConstruct {
        construct: r.construct.clone(),
        governing: r.governing.clone(),
        url: r.url.clone(),
        attested_deprecated: r.attested_deprecated,
        page_scope: r.page_scope,
        element_typography: r.element_typography,
    }
}

/// The constructs of the candidates.
pub open spec fn candidate_constructs(cs: Seq<Candidate>) -> Seq<Seq<char>> {
    cs.map_values(|c: Candidate| c.construct@)
}

/// The everything-read constructs the funnel never proposed (see
/// [`read_not_proposed_spec`]).
pub fn read_not_proposed(candidates: &[Candidate], read_surface: Vec<ReadConstruct>) -> (r: Vec<ReadConstruct>)
    ensures
        read_views(r@) == read_not_proposed_spec(candidate_constructs(candidates@), read_views(read_surface@)),
{
    let mut proposed: Vec<Vec<char>> = Vec::new();
    let mut i: usize = 0;
    while i < candidates.len()
        invariant
            i <= candidates@.len(),
            views(proposed@) == candidate_constructs(candidates@).take(i as int),
        decreases candidates@.len() - i,
    {
        let ghost before = views(proposed@);
        proposed.push(chars_of(candidates[i].construct.as_str()));
        proof {
            assert(views(proposed@) =~= before.push(candidates@[i as int].construct@));
            assert(candidate_constructs(candidates@).take(i + 1) =~= candidate_constructs(candidates@).take(i as int).push(
                candidates@[i as int].construct@,
            ));
        }
        i = i + 1;
    }
    assert(candidate_constructs(candidates@).take(i as int) =~= candidate_constructs(candidates@));
    let ghost pv = candidate_constructs(candidates@);
    let ghost sv = read_views(read_surface@);
    let ghost ordered = with_scope(sv, true) + with_scope(sv, false);
    let mut out: Vec<ReadConstruct> = Vec::new();
    let mut seen: Vec<Vec<char>> = Vec::new();
    let mut pass: usize = 0;
    let ghost mut done: Seq<ReadV> = Seq::empty();
    while pass < 2
        invariant
            pass <= 2,
            views(proposed@) == pv,
            sv == read_views(read_surface@),
            ordered == with_scope(sv, true) + with_scope(sv, false),
            done == (if pass == 0 { Seq::empty() } else if pass == 1 { with_scope(sv, true) } else { ordered }),
            read_views(out@) == unproposed(done, pv),
            views(seen@) == unproposed(done, pv).map_values(|r: ReadV| r.0),
        decreases 2 - pass,
    {
        let scope = pass == 0;
        let ghost base = done;
        let mut j: usize = 0;
        while j < read_surface.len()
            invariant
                j <= read_surface@.len(),
                views(proposed@) == pv,
                sv == read_views(read_surface@),
                done == base + with_scope(sv.take(j as int), scope),
                read_views(out@) == unproposed(done, pv),
                views(seen@) == unproposed(done, pv).map_values(|r: ReadV| r.0),
            decreases read_surface@.len() - j,
        {
            proof {
                assert(sv.take(j + 1).drop_last() =~= sv.take(j as int));
                assert(sv.take(j + 1).last() == read_surface@[j as int]@);
            }
            let r = &read_surface[j];
            if r.page_scope == scope {
                let c = chars_of(r.construct.as_str());
                let ghost prev = unproposed(done, pv);
                let ghost nd = done.push(r@);
                proof {
                    assert(nd.drop_last() =~= done);
                    assert(nd.last() == r@);
                    assert(base + with_scope(sv.take(j + 1), scope) =~= nd);
                }
                if !holds(&proposed, c.as_slice()) && !holds(&seen, c.as_slice()) {
                    let ghost bs = views(seen@);
                    out.push(copy_read(r));
                    seen.push(c);
                    proof {
                        assert(read_views(out@) =~= prev.push(r@));
                        assert(views(seen@) =~= bs.push(r@.0));
                        assert(prev.push(r@).map_values(|x: ReadV| x.0) =~= prev.map_values(|x: ReadV| x.0).push(r@.0));
                    }
                }
                proof {
                    done = nd;
                }
            } else {
                proof {
                    assert(base + with_scope(sv.take(j + 1), scope) =~= done);
                }
            }
            j = j + 1;
        }
        proof {
            assert(sv.take(j as int) =~= sv);
            if pass == 0 {
                assert(Seq::<ReadV>::empty() + with_scope(sv, true) =~= with_scope(sv, true));
            }
        }
        pass = pass + 1;
    }
    out
}

/// `rows` with `(id, reason)` appended unless already present.
pub open spec fn withhold_rows(rows: Seq<(Seq<char>, Seq<char>)>, id: Seq<char>, reason: Seq<char>) -> Seq<(Seq<char>, Seq<char>)> {
    if rows.contains((id, reason)) {
        rows
    } else {
        rows.push((id, reason))
    }
}

/// Dedup-appends one named withhold row.
pub fn note_withhold(rows: &mut Vec<(String, String)>, id: String, reason: &str)
    ensures
        final(rows).deep_view() == withhold_rows(old(rows).deep_view(), id@, reason@),
{
    let idc = chars_of(id.as_str());
    let rc = chars_of(reason);
    let mut i: usize = 0;
    while i < rows.len()
        invariant
            i <= rows@.len(),
            idc@ == id@,
            rc@ == reason@,
            forall|k: int| 0 <= k < i ==> rows.deep_view()[k] != (id@, reason@),
        decreases rows@.len() - i,
    {
        let a = chars_of(rows[i].0.as_str());
        let b = chars_of(rows[i].1.as_str());
        proof {
            assert(rows.deep_view()[i as int] == (rows@[i as int].0@, rows@[i as int].1@));
        }
        if chars_eq(a.as_slice(), idc.as_slice()) && chars_eq(b.as_slice(), rc.as_slice()) {
            assert(rows.deep_view()[i as int] == (id@, reason@));
            return;
        }
        i = i + 1;
    }
    let ghost before = rows.deep_view();
    rows.push((id, reason.to_owned()));
    proof {
        assert(rows.deep_view() =~= before.push((id@, reason@)));
    }
}

// ── The qualified-safe cut ───────────────────────────────────────────────────

/// The rustdoc anchor prefixes.
pub open spec fn anchor_prefixes() -> Seq<Seq<char>> {
    seq![
        "method."@, "struct."@, "primitive."@, "trait."@, "enum."@, "fn."@, "macro."@,
        "constant."@, "type."@, "mod."@, "keyword."@, "associatedtype."@, "union."@,
        "associatedconstant."@,
    ]
}

/// The document extensions a URL basename ends with.
pub open spec fn doc_extensions() -> Seq<Seq<char>> {
    seq![".html"@, ".htm"@, ".php"@]
}

/// A dotted part of a qualified name: at least two characters, an ASCII letter or `_`
/// first, ASCII alphanumerics and `_` throughout.
pub open spec fn part_ok(p: Seq<char>) -> bool {
    p.len() >= 2 && (ascii_alpha(p[0]) || p[0] == '_') && forall|i: int| 0 <= i < p.len() ==> (ascii_alnum(#[trigger] p[i]) || p[i] == '_')
}

/// Whether `c` is safe to fire a graded finding on: a real `owner.member` (or deeper) whose
/// every dotted part is an identifier, not a leading-dot member, a document basename or a
/// rustdoc anchor.
pub open spec fn qualified_safe_spec(c: Seq<char>) -> bool {
    let parts = split_all(c, '.');
    &&& !(c.len() > 0 && c[0] == '.')
    &&& !(exists|e: int| 0 <= e < doc_extensions().len() && crate::text::ends_with(c, #[trigger] doc_extensions()[e]))
    &&& !(exists|a: int| 0 <= a < anchor_prefixes().len() && crate::text::starts_with(lowercase(c), #[trigger] anchor_prefixes()[a]))
    &&& parts.len() >= 2
    &&& forall|k: int| 0 <= k < parts.len() ==> part_ok(#[trigger] parts[k])
}

fn anchor_prefix_list() -> (r: Vec<Vec<char>>)
    ensures
        views(r@) == anchor_prefixes(),
{
    let r = vec![
        chars_of("method."), chars_of("struct."), chars_of("primitive."), chars_of("trait."),
        chars_of("enum."), chars_of("fn."), chars_of("macro."), chars_of("constant."),
        chars_of("type."), chars_of("mod."), chars_of("keyword."), chars_of("associatedtype."),
        chars_of("union."), chars_of("associatedconstant."),
    ];
    assert(views(r@) =~= anchor_prefixes());
    r
}

fn doc_extension_list() -> (r: Vec<Vec<char>>)
    ensures
        views(r@) == doc_extensions(),
{
    let r = vec![chars_of(".html"), chars_of(".htm"), chars_of(".php")];
    assert(views(r@) =~= doc_extensions());
    r
}

fn part_ok_exec(p: &[char]) -> (r: bool)
    ensures
        r == part_ok(p@),
{
    if p.len() < 2 || !(is_ascii_alpha(p[0]) || p[0] == '_') {
        return false;
    }
    let mut i: usize = 0;
    while i < p.len()
        invariant
            i <= p@.len(),
            forall|k: int| 0 <= k < i ==> (ascii_alnum(#[trigger] p@[k]) || p@[k] == '_'),
        decreases p@.len() - i,
    {
        if !(is_ascii_alnum(p[i]) || p[i] == '_') {
            return false;
        }
        i = i + 1;
    }
    true
}

/// See [`qualified_safe_spec`].
pub fn qualified_safe(c: &str) -> (r: bool)
    ensures
        r == qualified_safe_spec(c@),
{
    let cs = chars_of(c);
    if cs.len() > 0 && cs[0] == '.' {
        return false;
    }
    let exts = doc_extension_list();
    let mut e: usize = 0;
    while e < exts.len()
        invariant
            e <= exts@.len(),
            views(exts@) == doc_extensions(),
            cs@ == c@,
            forall|k: int| 0 <= k < e ==> !crate::text::ends_with(c@, #[trigger] doc_extensions()[k]),
        decreases exts@.len() - e,
    {
        if crate::text::has_suffix(cs.as_slice(), exts[e].as_slice()) {
            assert(crate::text::ends_with(c@, doc_extensions()[e as int]));
            return false;
        }
        e = e + 1;
    }
    let low = to_lowercase(cs.as_slice());
    let anchors = anchor_prefix_list();
    let mut a: usize = 0;
    while a < anchors.len()
        invariant
            a <= anchors@.len(),
            views(anchors@) == anchor_prefixes(),
            low@ == lowercase(c@),
            forall|k: int| 0 <= k < a ==> !crate::text::starts_with(lowercase(c@), #[trigger] anchor_prefixes()[k]),
        decreases anchors@.len() - a,
    {
        if crate::text::has_prefix(low.as_slice(), anchors[a].as_slice()) {
            assert(crate::text::starts_with(lowercase(c@), anchor_prefixes()[a as int]));
            return false;
        }
        a = a + 1;
    }
    let parts = split_on(cs.as_slice(), '.');
    if parts.len() < 2 {
        return false;
    }
    let mut k: usize = 0;
    while k < parts.len()
        invariant
            k <= parts@.len(),
            views(parts@) == split_all(c@, '.'),
            forall|j: int| 0 <= j < k ==> part_ok(#[trigger] split_all(c@, '.')[j]),
        decreases parts@.len() - k,
    {
        if !part_ok_exec(parts[k].as_slice()) {
            assert(!part_ok(split_all(c@, '.')[k as int]));
            return false;
        }
        k = k + 1;
    }
    true
}

} // verus!
