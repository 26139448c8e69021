//! The language-doc reading rung: the construct shapes a documentation page names, the
//! page's own worked-example code, and the deprecation markers it renders in place —
//! all read structurally from URL paths and markup, never from a judgement of English.

use vstd::prelude::*;
use crate::text::{
    after_last, append_chars, ascii_lower_seq, string_of, byte_len, byte_len_at_least, ends_with, has_suffix,
    matches_at_ci, split_words, starts_with, to_ascii_lower_chars, trim, trim_class, trimmed,
    trimmed_class, words, ascii_alnum, chars_eq_ci, chars_of, chars_of_all, contains,
    contains_seq, copy_chars, dedup_all, find, find_ci_at, find_ci_from, find_from, is_ascii_alnum,
    lemma_find_ci_from, lemma_find_from, lowercase, matches_at, occurs_at, push_unique, add_unique,
    segments, seq_eq_ci, slice_chars, split_segments, strings_of, strip_trailing, tail_after_last,
    to_lowercase, trim_trailing, views, holds, lemma_byte_len_concat, lemma_byte_len_push, width_of,
};

verus! {

broadcast use vstd::string::group_string_axioms;

/// The path marker of a per-construct reference page.
pub open spec fn reference_marker() -> Seq<char> {
    seq!['/', 'r', 'e', 'f', 'e', 'r', 'e', 'n', 'c', 'e', '/']
}

/// The path marker of a linter rule page.
pub open spec fn rules_marker() -> Seq<char> {
    seq!['/', 'r', 'u', 'l', 'e', 's', '/']
}

fn reference_marker_chars() -> (r: Vec<char>)
    ensures
        r@ == reference_marker(),
{
    let r = chars_of("/reference/");
    proof {
        reveal_strlit("/reference/");
        assert(r@ =~= reference_marker());
    }
    r
}

fn rules_marker_chars() -> (r: Vec<char>)
    ensures
        r@ == rules_marker(),
{
    let r = chars_of("/rules/");
    proof {
        reveal_strlit("/rules/");
        assert(r@ =~= rules_marker());
    }
    r
}

/// Whether the url is a per-construct REFERENCE page: its lower-cased path names a
/// documentation reference section (`/reference/`).
pub fn is_reference_page(url: &str) -> (r: bool)
    ensures
        r == contains_seq(lowercase(url@), reference_marker()),
{
    let lower = to_lowercase(chars_of(url).as_slice());
    contains(lower.as_slice(), reference_marker_chars().as_slice())
}

/// Whether the url is a linter RULE page: its lower-cased path names a rule directory
/// (`/rules/`).
pub fn is_rule_page(url: &str) -> (r: bool)
    ensures
        r == contains_seq(lowercase(url@), rules_marker()),
{
    let lower = to_lowercase(chars_of(url).as_slice());
    contains(lower.as_slice(), rules_marker_chars().as_slice())
}

// ── Member shapes from the URL ────────────────────────────────────────────────

/// The construct shapes a deprecated reference page proposes for its subject,
/// most-specific first: the subject is the last path segment after the `/reference/`
/// marker (located ASCII-case-insensitively); a subject with an owner segment between its
/// category and itself (three or more segments) is a member, proposed as `owner.subject`,
/// `.subject` and bare `subject`; any other subject only bare. With no segment after the
/// marker the subject is the url's last path segment.
pub open spec fn member_shapes(url: Seq<char>) -> Seq<Seq<char>> {
    let i = find_ci_from(url, reference_marker(), 0);
    let after = if i >= 0 {
        url.skip(i + reference_marker().len())
    } else {
        Seq::<char>::empty()
    };
    let segs = segments(after, '/');
    let bare = if segs.len() > 0 {
        segs.last()
    } else {
        after_last(strip_trailing(url, '/'), '/')
    };
    if segs.len() >= 3 {
        let owner = segs[segs.len() - 2];
        seq![owner.push('.') + bare, seq!['.'] + bare, bare]
    } else {
        seq![bare]
    }
}

/// See [`member_shapes`].
pub fn member_page_shapes(url: &str) -> (r: Vec<String>)
    ensures
        r.deep_view() == member_shapes(url@),
{
    let u = chars_of(url);
    let ulen = u.len();
    let marker = reference_marker_chars();
    let after: Vec<char> = match find_ci_at(u.as_slice(), marker.as_slice(), 0) {
        Some(i) => {
            proof {
                lemma_find_ci_from(u@, reference_marker(), 0);
                assert(i + marker@.len() <= ulen);
            }
            slice_chars(u.as_slice(), i + marker.len(), ulen)
        },
        None => Vec::new(),
    };
    proof {
        let i = find_ci_from(u@, reference_marker(), 0);
        if i >= 0 {
            assert(after@ =~= u@.skip(i + reference_marker().len()));
        } else {
            assert(after@ =~= Seq::<char>::empty());
        }
    }
    let segs = split_segments(after.as_slice(), '/');
    let bare: Vec<char> = if segs.len() > 0 {
        copy_chars(segs[segs.len() - 1].as_slice())
    } else {
        let trimmed = trim_trailing(u.as_slice(), '/');
        tail_after_last(trimmed.as_slice(), '/')
    };
    let mut out: Vec<Vec<char>> = Vec::new();
    if segs.len() >= 3 {
        let mut q = copy_chars(segs[segs.len() - 2].as_slice());
        q.push('.');
        append_chars(&mut q, bare.as_slice());
        let mut m: Vec<char> = Vec::new();
        m.push('.');
        append_chars(&mut m, bare.as_slice());
        out.push(q);
        out.push(m);
        out.push(bare);
        proof {
            assert(views(out@) =~= member_shapes(u@));
        }
    } else {
        out.push(bare);
        proof {
            assert(views(out@) =~= member_shapes(u@));
        }
    }
    strings_of(&out)
}

// ── Qualified receivers read from the page's own examples ────────────────────

/// `"://"`.
pub open spec fn scheme_sep() -> Seq<char> {
    seq![':', '/', '/']
}

/// `url.split("://").nth(1).unwrap_or(url)`: the text after the first `://` up to the next
/// one, or the whole url when it has none.
pub open spec fn after_scheme(url: Seq<char>) -> Seq<char> {
    let i = find_from(url, scheme_sep(), 0);
    if i < 0 {
        url
    } else {
        let rest = url.skip(i + 3);
        let j = find_from(rest, scheme_sep(), 0);
        if j < 0 {
            rest
        } else {
            rest.take(j)
        }
    }
}

/// A receiver identifier character: ASCII alphanumeric, `_` or `$`.
pub open spec fn is_recv_ident(c: char) -> bool {
    ascii_alnum(c) || c == '_' || c == '$'
}

/// The end of the identifier run starting at `i`.
pub open spec fn recv_run_end(b: Seq<char>, i: int) -> int
    decreases b.len() - i,
{
    if 0 <= i < b.len() && is_recv_ident(b[i]) {
        recv_run_end(b, i + 1)
    } else {
        i
    }
}

/// The identifier run `b[s..e]` is the owner (up to ASCII case), followed by `.subject`
/// ending on an identifier boundary.
pub open spec fn receiver_hit(b: Seq<char>, s: int, e: int, owner: Seq<char>, subject: Seq<char>) -> bool {
    &&& seq_eq_ci(b.subrange(s, e), owner)
    &&& e < b.len()
    &&& b[e] == '.'
    &&& occurs_at(b, subject, e + 1)
    &&& (e + 1 + subject.len() >= b.len() || !is_recv_ident(b[e + 1 + subject.len()]))
}

/// The `receiver.subject` shapes found in block `b` from position `i`, in order.
pub open spec fn receiver_scan(b: Seq<char>, owner: Seq<char>, subject: Seq<char>, i: int) -> Seq<Seq<char>>
    decreases b.len() - i,
{
    if i < 0 || i >= b.len() {
        Seq::empty()
    } else if is_recv_ident(b[i]) && (i == 0 || !is_recv_ident(b[i - 1])) {
        let e = recv_run_end(b, i);
        let rest = if i < e <= b.len() {
            receiver_scan(b, owner, subject, e)
        } else {
            Seq::empty()
        };
        if receiver_hit(b, i, e, owner, subject) {
            seq![b.subrange(i, e).push('.') + subject] + rest
        } else {
            rest
        }
    } else {
        receiver_scan(b, owner, subject, i + 1)
    }
}

/// The distinct shapes of all `blocks`, in first-seen order, appended to `acc`.
pub open spec fn receivers_in(blocks: Seq<Seq<char>>, owner: Seq<char>, subject: Seq<char>, acc: Seq<Seq<char>>) -> Seq<Seq<char>>
    decreases blocks.len(),
{
    if blocks.len() == 0 {
        acc
    } else {
        receivers_in(
            blocks.drop_first(),
            owner,
            subject,
            dedup_all(acc, receiver_scan(blocks[0], owner, subject, 0)),
        )
    }
}

/// The qualified-receiver shapes a page proposes for its subject: the url's last two path
/// segments are owner and subject, and every example identifier equal to the owner up to
/// ASCII case that is followed by `.subject` (ending on an identifier boundary) yields its
/// actual-case `receiver.subject`, distinct, in first-seen order.
pub open spec fn example_receivers(url: Seq<char>, blocks: Seq<Seq<char>>) -> Seq<Seq<char>> {
    let segs = segments(after_scheme(url), '/');
    if segs.len() < 2 {
        Seq::empty()
    } else {
        let owner = segs[segs.len() - 2];
        let subject = segs[segs.len() - 1];
        if owner.len() == 0 || subject.len() == 0 {
            Seq::empty()
        } else {
            receivers_in(blocks, owner, subject, Seq::empty())
        }
    }
}

fn recv_ident(c: char) -> (r: bool)
    ensures
        r == is_recv_ident(c),
{
    is_ascii_alnum(c) || c == '_' || c == '$'
}

proof fn lemma_recv_run_end(b: Seq<char>, s: int, i: int)
    requires
        0 <= s <= i <= b.len(),
        forall|k: int| s <= k < i ==> is_recv_ident(b[k]),
    ensures
        recv_run_end(b, s) == recv_run_end(b, i),
    decreases i - s,
{
    if s < i {
        lemma_recv_run_end(b, s + 1, i);
    }
}

proof fn lemma_dedup_cons(acc: Seq<Seq<char>>, x: Seq<char>, rest: Seq<Seq<char>>)
    ensures
        dedup_all(acc, seq![x] + rest) == dedup_all(push_unique(acc, x), rest),
{
    assert((seq![x] + rest).drop_first() =~= rest);
    assert((seq![x] + rest)[0] == x);
}

fn receivers_in_block(b: &[char], owner: &[char], subject: &[char], out: &mut Vec<Vec<char>>)
    ensures
        views(final(out)@) == dedup_all(views(old(out)@), receiver_scan(b@, owner@, subject@, 0)),
{
    let n = b.len();
    let mut i: usize = 0;
    while i < n
        invariant
            n == b@.len(),
            i <= n,
            dedup_all(views(out@), receiver_scan(b@, owner@, subject@, i as int)) == dedup_all(
                views(old(out)@),
                receiver_scan(b@, owner@, subject@, 0),
            ),
        decreases n - i,
    {
        if recv_ident(b[i]) && (i == 0 || !recv_ident(b[i - 1])) {
            let start = i;
            while i < n && recv_ident(b[i])
                invariant
                    n == b@.len(),
                    start <= i <= n,
                    forall|k: int| start <= k < i ==> is_recv_ident(b@[k]),
                decreases n - i,
            {
                i = i + 1;
            }
            proof {
                lemma_recv_run_end(b@, start as int, i as int);
                assert(recv_run_end(b@, i as int) == i);
            }
            let ghost rest = receiver_scan(b@, owner@, subject@, i as int);
            let sl = subject.len();
            let hit = chars_eq_ci(slice_chars(b, start, i).as_slice(), owner) && i < n && b[i]
                == '.' && sl <= n - i - 1 && matches_at(b, subject, i + 1) && (i + 1 + sl >= n
                || !recv_ident(b[i + 1 + sl]));
            proof {
                assert(hit == receiver_hit(b@, start as int, i as int, owner@, subject@));
            }
            if hit {
                let mut shape = slice_chars(b, start, i);
                shape.push('.');
                append_chars(&mut shape, subject);
                proof {
                    assert(shape@ == b@.subrange(start as int, i as int).push('.') + subject@);
                    lemma_dedup_cons(views(out@), shape@, rest);
                }
                add_unique(out, shape);
            }
            continue;
        }
        i = i + 1;
    }
}

/// See [`example_receivers`].
pub fn example_receiver_shapes(url: &str, example_code: &[String]) -> (r: Vec<String>)
    ensures
        r.deep_view() == example_receivers(url@, example_code.deep_view()),
{
    let u = chars_of(url);
    let n = u.len();
    let sep = scheme_sep_chars();
    let path: Vec<char> = match find(u.as_slice(), sep.as_slice(), 0) {
        None => u,
        Some(i) => {
            proof {
                lemma_find_from(u@, scheme_sep(), 0);
                assert(i + 3 <= u@.len());
            }
            let rest = slice_chars(u.as_slice(), i + 3, n);
            match find(rest.as_slice(), sep.as_slice(), 0) {
                None => rest,
                Some(j) => {
                    proof {
                        lemma_find_from(rest@, scheme_sep(), 0);
                    }
                    slice_chars(rest.as_slice(), 0, j)
                },
            }
        },
    };
    proof {
        assert(path@ =~= after_scheme(url@));
    }
    let segs = split_segments(path.as_slice(), '/');
    let mut out: Vec<Vec<char>> = Vec::new();
    if segs.len() < 2 {
        return strings_of(&out);
    }
    let owner = &segs[segs.len() - 2];
    let subject = &segs[segs.len() - 1];
    if owner.len() == 0 || subject.len() == 0 {
        return strings_of(&out);
    }
    let blocks = chars_of_all(example_code);
    let mut k: usize = 0;
    proof {
        assert(views(blocks@).skip(0) =~= views(blocks@));
        assert(views(out@) =~= Seq::<Seq<char>>::empty());
    }
    while k < blocks.len()
        invariant
            k <= blocks@.len(),
            views(blocks@) == example_code.deep_view(),
            segs@.len() >= 2,
            owner@ == views(segs@)[segs@.len() - 2],
            subject@ == views(segs@)[segs@.len() - 1],
            receivers_in(views(blocks@).skip(k as int), owner@, subject@, views(out@))
                == example_receivers(url@, example_code.deep_view()),
        decreases blocks@.len() - k,
    {
        proof {
            assert(views(blocks@).skip(k as int).drop_first() =~= views(blocks@).skip(k + 1));
            assert(views(blocks@).skip(k as int)[0] == blocks@[k as int]@);
        }
        receivers_in_block(blocks[k].as_slice(), owner.as_slice(), subject.as_slice(), &mut out);
        k = k + 1;
    }
    proof {
        assert(views(blocks@).skip(blocks@.len() as int) =~= Seq::<Seq<char>>::empty());
    }
    strings_of(&out)
}

fn scheme_sep_chars() -> (r: Vec<char>)
    ensures
        r@ == scheme_sep(),
{
    let r = chars_of("://");
    proof {
        reveal_strlit("://");
        assert(r@ =~= scheme_sep());
    }
    r
}

// ── Construct normalization and operator tokens ──────────────────────────────

/// A construct token in its firing form: trimmed of whitespace and of the prose edge
/// punctuation (`` ` `` `,` `.` `:`), unwrapped from `<…>` element typography, and with a
/// trailing empty call `()` removed.
pub open spec fn normalized(raw: Seq<char>) -> Seq<char> {
    let c0 = trim_class(trim(raw), 0);
    let c1 = if starts_with(c0, seq!['<']) && ends_with(c0, seq!['>']) {
        c0.subrange(1, c0.len() - 1)
    } else {
        c0
    };
    if ends_with(c1, seq!['(', ')']) {
        c1.take(c1.len() - 2)
    } else {
        c1
    }
}

/// See [`normalized`].
pub fn normalize_construct(raw: &str) -> (r: String)
    ensures
        r@ == normalized(raw@),
{
    let v = chars_of(raw);
    let t = trimmed(v.as_slice());
    let c0 = trimmed_class(t.as_slice(), 0);
    let n0 = c0.len();
    let c1: Vec<char> = if n0 >= 1 && c0[0] == '<' && c0[n0 - 1] == '>' {
        proof {
            assert(starts_with(c0@, seq!['<'])) by {
                assert(c0@.take(1) =~= seq!['<']);
            }
            assert(ends_with(c0@, seq!['>'])) by {
                assert(c0@.skip(n0 - 1) =~= seq!['>']);
            }
        }
        if n0 < 2 {
            proof {
                assert(false);
            }
            copy_chars(c0.as_slice())
        } else {
            slice_chars(c0.as_slice(), 1, n0 - 1)
        }
    } else {
        proof {
            if starts_with(c0@, seq!['<']) && ends_with(c0@, seq!['>']) {
                assert(c0@.take(1)[0] == c0@[0]);
                assert(c0@.skip(n0 - 1)[0] == c0@[n0 - 1]);
            }
        }
        c0
    };
    let n1 = c1.len();
    let r: Vec<char> = if n1 >= 2 && c1[n1 - 2] == '(' && c1[n1 - 1] == ')' {
        proof {
            assert(c1@.skip(n1 - 2) =~= seq!['(', ')']);
        }
        slice_chars(c1.as_slice(), 0, n1 - 2)
    } else {
        proof {
            if ends_with(c1@, seq!['(', ')']) {
                assert(c1@.skip(n1 - 2)[0] == c1@[n1 - 2]);
                assert(c1@.skip(n1 - 2)[1] == c1@[n1 - 1]);
            }
        }
        c1
    };
    proof {
        assert(r@ =~= normalized(raw@));
    }
    string_of(r.as_slice())
}

/// A character that may make up an operator token: not ASCII alphanumeric, not a quote,
/// a backtick or `_`.
pub open spec fn is_op_char(c: char) -> bool {
    !ascii_alnum(c) && c != '"' && c != '\'' && c != '`' && c != '_'
}

/// An operator token: at least two bytes, all operator characters.
pub open spec fn is_operator_token(t: Seq<char>) -> bool {
    byte_len(t) >= 2 && forall|k: int| 0 <= k < t.len() ==> is_op_char(t[k])
}

/// The distinct operator tokens among the whitespace words `ws` (each trimmed of the code
/// punctuation class), appended to `acc` in first-seen order.
pub open spec fn operator_fold(acc: Seq<Seq<char>>, ws: Seq<Seq<char>>) -> Seq<Seq<char>>
    decreases ws.len(),
{
    if ws.len() == 0 {
        acc
    } else {
        let t = trim_class(ws[0], 1);
        operator_fold(
            if is_operator_token(t) {
                push_unique(acc, t)
            } else {
                acc
            },
            ws.drop_first(),
        )
    }
}

fn op_char(c: char) -> (r: bool)
    ensures
        r == is_op_char(c),
{
    !is_ascii_alnum(c) && c != '"' && c != '\'' && c != '`' && c != '_'
}

fn operator_token(t: &[char]) -> (r: bool)
    ensures
        r == is_operator_token(t@),
{
    if !byte_len_at_least(t, 2) {
        return false;
    }
    let mut i: usize = 0;
    while i < t.len()
        invariant
            i <= t@.len(),
            forall|k: int| 0 <= k < i ==> is_op_char(t@[k]),
        decreases t@.len() - i,
    {
        if !op_char(t[i]) {
            return false;
        }
        i = i + 1;
    }
    true
}

/// The multi-character OPERATOR tokens of a code block: each whitespace word trimmed of
/// `( ) ; { } ,`, kept when it is two or more bytes of non-alphanumeric, non-quote
/// characters — distinct, in first-seen order.
pub fn operator_tokens(code: &str) -> (r: Vec<String>)
    ensures
        r.deep_view() == operator_fold(Seq::empty(), words(code@)),
{
    let v = chars_of(code);
    let ws = split_words(v.as_slice());
    let mut out: Vec<Vec<char>> = Vec::new();
    let mut i: usize = 0;
    proof {
        assert(views(ws@).skip(0) =~= views(ws@));
        assert(views(out@) =~= Seq::<Seq<char>>::empty());
    }
    while i < ws.len()
        invariant
            i <= ws@.len(),
            views(ws@) == words(code@),
            operator_fold(views(out@), views(ws@).skip(i as int)) == operator_fold(
                Seq::empty(),
                words(code@),
            ),
        decreases ws@.len() - i,
    {
        proof {
            assert(views(ws@).skip(i as int).drop_first() =~= views(ws@).skip(i + 1));
            assert(views(ws@).skip(i as int)[0] == ws@[i as int]@);
        }
        let t = trimmed_class(ws[i].as_slice(), 1);
        if operator_token(t.as_slice()) {
            add_unique(&mut out, t);
        }
        i = i + 1;
    }
    proof {
        assert(views(ws@).skip(ws@.len() as int) =~= Seq::<Seq<char>>::empty());
    }
    strings_of(&out)
}

// ── ASCII case-insensitive markup search ─────────────────────────────────────

/// `h` starts with `n` up to ASCII case.
pub open spec fn starts_with_ci_spec(h: Seq<char>, n: Seq<char>) -> bool {
    n.len() <= h.len() && seq_eq_ci(h.take(n.len() as int), n)
}

/// ASCII case-insensitive prefix test (tag names are ASCII), so a `<CODE>` still keys.
pub fn starts_with_ci(haystack: &[char], needle: &[char]) -> (r: bool)
    ensures
        r == starts_with_ci_spec(haystack@, needle@),
{
    if needle.len() > haystack.len() {
        return false;
    }
    let r = matches_at_ci(haystack, needle, 0);
    proof {
        assert(haystack@.subrange(0, needle@.len() as int) == haystack@.take(needle@.len() as int));
    }
    r
}

/// The first ASCII case-insensitive occurrence of a non-empty `n` in `h`, or -1.
pub open spec fn find_ci_spec(h: Seq<char>, n: Seq<char>) -> int {
    if n.len() == 0 {
        -1
    } else {
        find_ci_from(h, n, 0)
    }
}

/// The first ASCII case-insensitive occurrence of `needle` in `haystack`; `None` for an
/// empty needle or none found.
pub fn find_ci(haystack: &[char], needle: &[char]) -> (r: Option<usize>)
    ensures
        match r {
            Some(i) => i as int == find_ci_spec(haystack@, needle@),
            None => find_ci_spec(haystack@, needle@) == -1,
        },
{
    if needle.len() == 0 {
        return None;
    }
    find_ci_at(haystack, needle, 0)
}

// ── Script interiors ─────────────────────────────────────────────────────────

/// `<script`.
pub open spec fn script_open() -> Seq<char> {
    seq!['<', 's', 'c', 'r', 'i', 'p', 't']
}

/// `</script>`.
pub open spec fn script_close() -> Seq<char> {
    seq!['<', '/', 's', 'c', 'r', 'i', 'p', 't', '>']
}

/// The JavaScript interior of a code block that IS a single `<script>…</script>` element:
/// `Some(Some(js))` for a lone script element with a non-empty interior holding no nested
/// `<script`, `Some(None)` for anything else, and `None` for the blocks whose opening tag
/// has no `>` before the closing tag (where slicing the interior would panic).
pub open spec fn script_interior_of(code: Seq<char>) -> Option<Option<Seq<char>>> {
    let t = trim(code);
    if !(starts_with_ci_spec(t, script_open()) && ends_with(ascii_lower_seq(t), script_close())) {
        Some(None)
    } else {
        let g = find_from(t, seq!['>'], 0);
        if g < 0 {
            Some(None)
        } else if g + 1 > t.len() - 9 {
            None
        } else {
            let inner = trim(t.subrange(g + 1, t.len() - 9));
            if inner.len() == 0 || find_ci_spec(inner, script_open()) >= 0 {
                Some(None)
            } else {
                Some(Some(inner))
            }
        }
    }
}

fn script_open_chars() -> (r: Vec<char>)
    ensures
        r@ == script_open(),
{
    let r = chars_of("<script");
    proof {
        reveal_strlit("<script");
        assert(r@ =~= script_open());
    }
    r
}

fn script_close_chars() -> (r: Vec<char>)
    ensures
        r@ == script_close(),
{
    let r = chars_of("</script>");
    proof {
        reveal_strlit("</script>");
        assert(r@ =~= script_close());
    }
    r
}

/// [`script_interior_of`] over characters.
pub fn script_interior_chars(code: &[char]) -> (r: Option<Vec<char>>)
    requires
        script_interior_of(code@) is Some,
    ensures
        match r {
            Some(v) => script_interior_of(code@) == Some(Some(v@)),
            None => script_interior_of(code@) == Some(None::<Seq<char>>),
        },
{
    let t = trimmed(code);
    let open = script_open_chars();
    let close = script_close_chars();
    let lower = to_ascii_lower_chars(t.as_slice());
    if !(starts_with_ci(t.as_slice(), open.as_slice()) && has_suffix(lower.as_slice(), close.as_slice())) {
        return None;
    }
    let gt: Vec<char> = vec!['>'];
    proof {
        assert(gt@ =~= seq!['>']);
    }
    let g = match find(t.as_slice(), gt.as_slice(), 0) {
        Some(g) => g,
        None => {
            return None;
        },
    };
    proof {
        lemma_find_from(t@, seq!['>'], 0);
        assert(t@.len() >= 9) by {
            assert(ascii_lower_seq(t@).len() == t@.len());
        }
    }
    let inner = trimmed(slice_chars(t.as_slice(), g + 1, t.len() - 9).as_slice());
    if inner.len() == 0 || find_ci(inner.as_slice(), open.as_slice()).is_some() {
        return None;
    }
    Some(inner)
}

/// See [`script_interior_of`]; only the blocks it gives a value for are accepted.
pub fn script_interior(code: &str) -> (r: Option<String>)
    requires
        script_interior_of(code@) is Some,
    ensures
        r.deep_view() == script_interior_of(code@).unwrap(),
{
    let v = chars_of(code);
    match script_interior_chars(v.as_slice()) {
        Some(js) => Some(string_of(js.as_slice())),
        None => None,
    }
}

// ── Removing worked-example blocks from prose ────────────────────────────────

/// `<pre`.
pub open spec fn pre_open() -> Seq<char> {
    seq!['<', 'p', 'r', 'e']
}

/// `</pre>`.
pub open spec fn pre_close() -> Seq<char> {
    seq!['<', '/', 'p', 'r', 'e', '>']
}

/// `s` with every `<pre …>…</pre>` block (first `<pre` to the next `</pre>`) replaced by one
/// space, left to right; an unterminated `<pre` is left with the rest of the text.
pub open spec fn stripped_pre(s: Seq<char>) -> Seq<char>
    decreases s.len(),
{
    let a = find_from(s, pre_open(), 0);
    if a < 0 {
        s
    } else {
        let e = find_from(s, pre_close(), a);
        if a <= e && e + 6 <= s.len() {
            s.take(a) + seq![' '] + stripped_pre(s.skip(e + 6))
        } else {
            s
        }
    }
}

fn pre_open_chars() -> (r: Vec<char>)
    ensures
        r@ == pre_open(),
{
    let r = chars_of("<pre");
    proof {
        reveal_strlit("<pre");
        assert(r@ =~= pre_open());
    }
    r
}

fn pre_close_chars() -> (r: Vec<char>)
    ensures
        r@ == pre_close(),
{
    let r = chars_of("</pre>");
    proof {
        reveal_strlit("</pre>");
        assert(r@ =~= pre_close());
    }
    r
}

/// See [`stripped_pre`].
pub fn strip_pre_blocks(html: &str) -> (r: String)
    ensures
        r@ == stripped_pre(html@),
{
    let open = pre_open_chars();
    let close = pre_close_chars();
    let mut rest = chars_of(html);
    let mut out: Vec<char> = Vec::new();
    loop
        invariant
            open@ == pre_open(),
            close@ == pre_close(),
            out@ + stripped_pre(rest@) == stripped_pre(html@),
        ensures
            out@ + stripped_pre(rest@) == stripped_pre(html@),
            stripped_pre(rest@) == rest@,
        decreases rest@.len(),
    {
        let n = rest.len();
        let a = match find(rest.as_slice(), open.as_slice(), 0) {
            Some(a) => a,
            None => {
                break;
            },
        };
        let e = match find(rest.as_slice(), close.as_slice(), a) {
            Some(e) => e,
            None => {
                proof {
                    assert(stripped_pre(rest@) == rest@);
                }
                break;
            },
        };
        proof {
            lemma_find_from(rest@, pre_close(), a as int);
            lemma_find_from(rest@, pre_open(), 0);
            assert(e + 6 <= n);
        }
        let ghost old_rest = rest@;
        let ghost old_out = out@;
        append_chars(&mut out, slice_chars(rest.as_slice(), 0, a).as_slice());
        out.push(' ');
        rest = slice_chars(rest.as_slice(), e + 6, n);
        proof {
            assert(out@ =~= old_out + (old_rest.take(a as int) + seq![' ']));
            assert(rest@ == old_rest.skip(e + 6));
            assert(old_out + stripped_pre(old_rest) == old_out + (old_rest.take(a as int) + seq![' '] + stripped_pre(rest@)));
            assert(out@ + stripped_pre(rest@) =~= old_out + (old_rest.take(a as int) + seq![' '] + stripped_pre(rest@)));
        }
    }
    append_chars(&mut out, rest.as_slice());
    string_of(out.as_slice())
}

// ── Example code blocks ──────────────────────────────────────────────────────

/// The text of `s` from `i` with every markup token removed: a `<` through the next `>`
/// is dropped; a `<` with no `>` after it keeps the rest as text.
pub open spec fn untagged_from(s: Seq<char>, i: int) -> Seq<char>
    decreases s.len() - i,
{
    if i < 0 || i >= s.len() {
        Seq::empty()
    } else if s[i] == '<' {
        let g = find_from(s, seq!['>'], i);
        if i <= g < s.len() {
            untagged_from(s, g + 1)
        } else {
            s.skip(i)
        }
    } else {
        seq![s[i]] + untagged_from(s, i + 1)
    }
}

/// The character entity that begins at `i` (`&lt;` `&gt;` `&amp;` `&quot;` `&#39;`): its
/// length and the character it stands for, or length 0.
pub open spec fn entity_at(s: Seq<char>, i: int) -> (int, char) {
    if occurs_at(s, seq!['&', 'l', 't', ';'], i) {
        (4, '<')
    } else if occurs_at(s, seq!['&', 'g', 't', ';'], i) {
        (4, '>')
    } else if occurs_at(s, seq!['&', 'a', 'm', 'p', ';'], i) {
        (5, '&')
    } else if occurs_at(s, seq!['&', 'q', 'u', 'o', 't', ';'], i) {
        (6, '"')
    } else if occurs_at(s, seq!['&', '#', '3', '9', ';'], i) {
        (5, '\'')
    } else {
        (0, ' ')
    }
}

/// The text of `s` from `i` with its character entities decoded, left to right.
pub open spec fn decoded_from(s: Seq<char>, i: int) -> Seq<char>
    decreases s.len() - i,
{
    if i < 0 || i >= s.len() {
        Seq::empty()
    } else if entity_at(s, i).0 > 0 {
        seq![entity_at(s, i).1] + decoded_from(s, i + entity_at(s, i).0)
    } else {
        seq![s[i]] + decoded_from(s, i + 1)
    }
}

/// An example block's code as served: markup tokens removed (highlighter spans vanish,
/// line structure stays) and character entities decoded.
pub open spec fn strip_code_spec(s: Seq<char>) -> Seq<char> {
    decoded_from(untagged_from(s, 0), 0)
}

fn untag(s: &[char]) -> (r: Vec<char>)
    ensures
        r@ == untagged_from(s@, 0),
{
    let n = s.len();
    let gt: Vec<char> = vec!['>'];
    proof {
        assert(gt@ =~= seq!['>']);
    }
    let mut out: Vec<char> = Vec::new();
    let mut i: usize = 0;
    while i < n
        invariant
            n == s@.len(),
            i <= n,
            gt@ == seq!['>'],
            out@ + untagged_from(s@, i as int) == untagged_from(s@, 0),
        decreases n - i,
    {
        if s[i] == '<' {
            match find(s, gt.as_slice(), i) {
                Some(g) => {
                    proof {
                        lemma_find_from(s@, seq!['>'], i as int);
                    }
                    i = g + 1;
                },
                None => {
                    let ghost o = out@;
                    append_chars(&mut out, slice_chars(s, i, n).as_slice());
                    proof {
                        assert(untagged_from(s@, i as int) == s@.skip(i as int));
                        assert(s@.subrange(i as int, n as int) =~= s@.skip(i as int));
                        assert(untagged_from(s@, n as int) == Seq::<char>::empty());
                        assert(out@ + untagged_from(s@, n as int) =~= out@);
                    }
                    i = n;
                },
            }
        } else {
            let ghost o = out@;
            out.push(s[i]);
            proof {
                assert(o + untagged_from(s@, i as int) =~= out@ + untagged_from(s@, i + 1));
            }
            i = i + 1;
        }
    }
    proof {
        assert(out@ + untagged_from(s@, i as int) =~= out@);
    }
    out
}

fn entity(s: &[char], i: usize) -> (r: (usize, char))
    requires
        i < s@.len(),
    ensures
        r.0 as int == entity_at(s@, i as int).0,
        r.0 > 0 ==> r.1 == entity_at(s@, i as int).1,
        i + r.0 <= s@.len(),
{
    let n = s.len();
    let room = n - i;
    let lt: Vec<char> = vec!['&', 'l', 't', ';'];
    let gt: Vec<char> = vec!['&', 'g', 't', ';'];
    let amp: Vec<char> = vec!['&', 'a', 'm', 'p', ';'];
    let quot: Vec<char> = vec!['&', 'q', 'u', 'o', 't', ';'];
    let apos: Vec<char> = vec!['&', '#', '3', '9', ';'];
    proof {
        assert(lt@ =~= seq!['&', 'l', 't', ';']);
        assert(gt@ =~= seq!['&', 'g', 't', ';']);
        assert(amp@ =~= seq!['&', 'a', 'm', 'p', ';']);
        assert(quot@ =~= seq!['&', 'q', 'u', 'o', 't', ';']);
        assert(apos@ =~= seq!['&', '#', '3', '9', ';']);
    }
    if room >= 4 && matches_at(s, lt.as_slice(), i) {
        (4, '<')
    } else if room >= 4 && matches_at(s, gt.as_slice(), i) {
        (4, '>')
    } else if room >= 5 && matches_at(s, amp.as_slice(), i) {
        (5, '&')
    } else if room >= 6 && matches_at(s, quot.as_slice(), i) {
        (6, '"')
    } else if room >= 5 && matches_at(s, apos.as_slice(), i) {
        (5, '\'')
    } else {
        (0, ' ')
    }
}

fn decode(s: &[char]) -> (r: Vec<char>)
    ensures
        r@ == decoded_from(s@, 0),
{
    let n = s.len();
    let mut out: Vec<char> = Vec::new();
    let mut i: usize = 0;
    while i < n
        invariant
            n == s@.len(),
            i <= n,
            out@ + decoded_from(s@, i as int) == decoded_from(s@, 0),
        decreases n - i,
    {
        let (len, c) = entity(s, i);
        let ghost o = out@;
        if len > 0 {
            out.push(c);
            proof {
                assert(o + decoded_from(s@, i as int) =~= out@ + decoded_from(s@, i + len));
            }
            i = i + len;
        } else {
            out.push(s[i]);
            proof {
                assert(o + decoded_from(s@, i as int) =~= out@ + decoded_from(s@, i + 1));
            }
            i = i + 1;
        }
    }
    proof {
        assert(out@ + decoded_from(s@, i as int) =~= out@);
    }
    out
}

/// See [`strip_code_spec`].
pub fn strip_code(s: &[char]) -> (r: Vec<char>)
    ensures
        r@ == strip_code_spec(s@),
{
    let u = untag(s);
    decode(u.as_slice())
}


// ── Worked-example blocks ────────────────────────────────────────────────────

/// `<code`.
pub open spec fn code_open() -> Seq<char> {
    seq!['<', 'c', 'o', 'd', 'e']
}

/// `</code>`.
pub open spec fn code_close() -> Seq<char> {
    seq!['<', '/', 'c', 'o', 'd', 'e', '>']
}

fn code_open_chars() -> (r: Vec<char>)
    ensures
        r@ == code_open(),
{
    let r = chars_of("<code");
    proof {
        reveal_strlit("<code");
        assert(r@ =~= code_open());
    }
    r
}

fn code_close_chars() -> (r: Vec<char>)
    ensures
        r@ == code_close(),
{
    let r = chars_of("</code>");
    proof {
        reveal_strlit("</code>");
        assert(r@ =~= code_close());
    }
    r
}

/// The example held by the `<pre>` that opens at `p` and closes at `e` (the index of its
/// `</pre>`): the decoded interior of its first `<code>` element when it has one, else the
/// decoded `<pre>` interior itself unless that is blank. `Some(None)` when there is no such
/// example; `None` when the `<code` tag's `>` lies past `e`, where the interior cannot be sliced.
pub open spec fn pre_block(h: Seq<char>, p: int, e: int) -> Option<Option<Seq<char>>> {
    let c = find_ci_from(h.take(e), code_open(), p);
    if c >= 0 {
        let g = find_from(h, seq!['>'], c);
        if g < 0 {
            Some(None)
        } else if g + 1 > e {
            None
        } else {
            let ce = find_ci_from(h.take(e), code_close(), g + 1);
            if ce < 0 {
                Some(None)
            } else {
                Some(Some(strip_code_spec(h.subrange(g + 1, ce))))
            }
        }
    } else {
        let g = find_from(h.take(e), seq!['>'], p);
        if g < 0 {
            Some(None)
        } else {
            let b = strip_code_spec(h.subrange(g + 1, e));
            if trim(b).len() == 0 {
                Some(None)
            } else {
                Some(Some(b))
            }
        }
    }
}

/// An example block as surfaced: the interior of a lone `<script>` element, else the block.
pub open spec fn surfaced(b: Seq<char>) -> Seq<char> {
    match script_interior_of(b) {
        Some(Some(js)) => js,
        _ => b,
    }
}

/// Whether the example of a `<pre>` block can be surfaced (no slicing on the way panics).
pub open spec fn block_readable(o: Option<Option<Seq<char>>>) -> bool {
    match o {
        None => false,
        Some(None) => true,
        Some(Some(b)) => script_interior_of(b) is Some,
    }
}

/// The surfaced example of every `<pre>` block of `h` from index `at` on, in order (`<pre` and
/// `</pre>` found up to ASCII case; scanning stops at a `<pre` with no `</pre>`), or `None` when
/// some block cannot be read.
pub open spec fn interiors_from(h: Seq<char>, at: int) -> Option<Seq<Seq<char>>>
    decreases h.len() - at,
{
    if at < 0 || at > h.len() {
        Some(Seq::empty())
    } else {
        let p = find_ci_from(h, pre_open(), at);
        if p < 0 {
            Some(Seq::empty())
        } else {
            let e = find_ci_from(h, pre_close(), p);
            if e < 0 || e < at || e + 6 > h.len() {
                Some(Seq::empty())
            } else {
                let o = pre_block(h, p, e);
                if !block_readable(o) {
                    None
                } else {
                    match interiors_from(h, e + 6) {
                        None => None,
                        Some(rest) => match o {
                            Some(Some(b)) => Some(seq![surfaced(b)] + rest),
                            _ => Some(rest),
                        },
                    }
                }
            }
        }
    }
}

/// The example blocks of a markup region, or `None` where reading one would panic.
pub open spec fn code_interiors_of(h: Seq<char>) -> Option<Seq<Seq<char>>> {
    interiors_from(h, 0)
}

fn pre_block_at(h: &[char], p: usize, e: usize) -> (r: Option<Vec<char>>)
    requires
        p <= e <= h@.len(),
        block_readable(pre_block(h@, p as int, e as int)),
    ensures
        match r {
            Some(b) => pre_block(h@, p as int, e as int) == Some(Some(b@)),
            None => pre_block(h@, p as int, e as int) == Some(None::<Seq<char>>),
        },
{
    let head = slice_chars(h, 0, e);
    proof {
        assert(head@ =~= h@.take(e as int));
    }
    let copen = code_open_chars();
    let cclose = code_close_chars();
    let gt: Vec<char> = vec!['>'];
    proof {
        assert(gt@ =~= seq!['>']);
    }
    match find_ci_at(head.as_slice(), copen.as_slice(), p) {
        Some(c) => {
            proof {
                lemma_find_ci_from(head@, code_open(), p as int);
            }
            match find(h, gt.as_slice(), c) {
                None => None,
                Some(g) => {
                    proof {
                        lemma_find_from(h@, seq!['>'], c as int);
                    }
                    if g + 1 > e {
                        return None;
                    }
                    match find_ci_at(head.as_slice(), cclose.as_slice(), g + 1) {
                        None => None,
                        Some(ce) => {
                            proof {
                                lemma_find_ci_from(head@, code_close(), g + 1);
                            }
                            let inner = slice_chars(h, g + 1, ce);
                            Some(strip_code(inner.as_slice()))
                        },
                    }
                },
            }
        },
        None => {
            match find(head.as_slice(), gt.as_slice(), p) {
                None => None,
                Some(g) => {
                    proof {
                        lemma_find_from(head@, seq!['>'], p as int);
                    }
                    let inner = slice_chars(h, g + 1, e);
                    let b = strip_code(inner.as_slice());
                    let t = trimmed(b.as_slice());
                    if t.len() == 0 {
                        None
                    } else {
                        Some(b)
                    }
                },
            }
        },
    }
}

fn surface(b: Vec<char>) -> (r: Vec<char>)
    requires
        script_interior_of(b@) is Some,
    ensures
        r@ == surfaced(b@),
{
    match script_interior_chars(b.as_slice()) {
        Some(js) => js,
        None => b,
    }
}

/// The `<pre>` example blocks of `h` (see [`code_interiors_of`]).
pub fn code_interiors_chars(h: &[char]) -> (r: Vec<Vec<char>>)
    requires
        code_interiors_of(h@) is Some,
    ensures
        views(r@) == code_interiors_of(h@).unwrap(),
{
    let n = h.len();
    let open = pre_open_chars();
    let close = pre_close_chars();
    let mut out: Vec<Vec<char>> = Vec::new();
    let mut at: usize = 0;
    loop
        invariant
            n == h@.len(),
            at <= n,
            open@ == pre_open(),
            close@ == pre_close(),
            interiors_from(h@, at as int) is Some,
            views(out@) + interiors_from(h@, at as int).unwrap() == code_interiors_of(h@).unwrap(),
        ensures
            views(out@) == code_interiors_of(h@).unwrap(),
        decreases n - at,
    {
        let p = match find_ci_at(h, open.as_slice(), at) {
            Some(p) => p,
            None => {
                proof {
                    assert(interiors_from(h@, at as int).unwrap() == Seq::<Seq<char>>::empty());
                    assert(views(out@) + Seq::<Seq<char>>::empty() =~= views(out@));
                }
                break;
            },
        };
        proof {
            lemma_find_ci_from(h@, pre_open(), at as int);
        }
        let e = match find_ci_at(h, close.as_slice(), p) {
            Some(e) => e,
            None => {
                proof {
                    assert(interiors_from(h@, at as int).unwrap() == Seq::<Seq<char>>::empty());
                    assert(views(out@) + Seq::<Seq<char>>::empty() =~= views(out@));
                }
                break;
            },
        };
        proof {
            lemma_find_ci_from(h@, pre_close(), p as int);
        }
        let ghost before = views(out@);
        let ghost rest = interiors_from(h@, e + 6).unwrap();
        match pre_block_at(h, p, e) {
            Some(b) => {
                let s = surface(b);
                out.push(s);
                proof {
                    assert(views(out@) =~= before.push(s@));
                    assert(interiors_from(h@, at as int).unwrap() == seq![s@] + rest);
                    assert(views(out@) + rest =~= before + (seq![s@] + rest));
                }
            },
            None => {
            },
        }
        at = e + 6;
    }
    out
}

/// The `strip_code`-decoded interior of every `<pre>` example block in a markup region: the
/// first `<code>` interior inside the `<pre>` when there is one, else the `<pre>` interior
/// itself unless blank; a block that is one `<script>` element is surfaced as its interior.
pub fn code_interiors(html: &str) -> (r: Vec<String>)
    requires
        code_interiors_of(html@) is Some,
    ensures
        r.deep_view() == code_interiors_of(html@).unwrap(),
{
    let h = chars_of(html);
    let v = code_interiors_chars(h.as_slice());
    strings_of(&v)
}


// ── The docs' own paired examples ───────────────────────────────────────────

/// How far a paired-example region reaches at most, in bytes.
pub const EXAMPLE_REGION_BYTES: usize = 8000;

/// The class marker of an incorrect example region.
pub open spec fn incorrect_marker() -> Seq<char> {
    seq!['c', 'l', 'a', 's', 's', '=', '"', 'i', 'n', 'c', 'o', 'r', 'r', 'e', 'c', 't', '"']
}

/// The class marker of a correct example region.
pub open spec fn correct_marker() -> Seq<char> {
    seq!['c', 'l', 'a', 's', 's', '=', '"', 'c', 'o', 'r', 'r', 'e', 'c', 't', '"']
}

/// The marker `class="<class>"`.
pub open spec fn class_marker(class: Seq<char>) -> Seq<char> {
    seq!['c', 'l', 'a', 's', 's', '=', '"'] + class + seq!['"']
}

/// The index of the next paired-example marker at or after `start`, or the end of `h`.
pub open spec fn next_marker(h: Seq<char>, start: int) -> int {
    let a = find_from(h, incorrect_marker(), start);
    let b = find_from(h, correct_marker(), start);
    if a >= 0 && (b < 0 || a <= b) {
        a
    } else if b >= 0 {
        b
    } else {
        h.len() as int
    }
}

/// The largest index from `k` on up to which the text from `start` spans at most `limit`
/// bytes.
pub open spec fn fit_from(h: Seq<char>, start: int, k: int, limit: nat) -> int
    decreases h.len() - k,
{
    if k < start || k >= h.len() || byte_len(h.subrange(start, k + 1)) > limit {
        k
    } else {
        fit_from(h, start, k + 1, limit)
    }
}

/// Where the paired-example region starting at `start` ends: at the next marker, or
/// [`EXAMPLE_REGION_BYTES`] bytes on when that comes first; `None` when that byte offset
/// falls inside a character.
pub open spec fn region_end(h: Seq<char>, start: int) -> Option<int> {
    let sc = next_marker(h, start);
    if byte_len(h.subrange(start, sc)) <= EXAMPLE_REGION_BYTES {
        Some(sc)
    } else {
        let q = fit_from(h, start, start, EXAMPLE_REGION_BYTES as nat);
        if byte_len(h.subrange(start, q)) == EXAMPLE_REGION_BYTES {
            Some(q)
        } else {
            None
        }
    }
}

/// The blocks of `bs` whose trimmed text spans at least three bytes.
pub open spec fn substantial(bs: Seq<Seq<char>>) -> Seq<Seq<char>>
    decreases bs.len(),
{
    if bs.len() == 0 {
        Seq::empty()
    } else if byte_len(trim(bs.last())) >= 3 {
        substantial(bs.drop_last()).push(bs.last())
    } else {
        substantial(bs.drop_last())
    }
}

/// The example blocks of every region of `h` marked `needle` from index `at` on: each
/// region runs from just past its marker to [`region_end`], and its blocks are its `<pre>`
/// example interiors ([`code_interiors_of`]) that are [`substantial`]. `None` where a
/// region cannot be cut or read.
pub open spec fn examples_from(h: Seq<char>, needle: Seq<char>, at: int) -> Option<Seq<Seq<char>>>
    decreases h.len() - at,
{
    let p = find_from(h, needle, at);
    if at < 0 || at > h.len() || needle.len() == 0 || p < at || p + needle.len() > h.len() {
        Some(Seq::empty())
    } else {
        let start = p + needle.len();
        match region_end(h, start) {
            None => None,
            Some(end) => if end < start || end > h.len() {
                Some(Seq::empty())
            } else {
                match code_interiors_of(h.subrange(start, end)) {
                    None => None,
                    Some(bs) => match examples_from(h, needle, end) {
                        None => None,
                        Some(rest) => Some(substantial(bs) + rest),
                    },
                }
            },
        }
    }
}

/// The example code blocks inside every `class="<class>"` region of a page (see
/// [`examples_from`]).
pub open spec fn examples_of_class_spec(body: Seq<char>, class: Seq<char>) -> Option<Seq<Seq<char>>> {
    examples_from(body, class_marker(class), 0)
}

/// The text from `start` to `a` spans no more bytes than the text from `start` to `b`.
proof fn lemma_byte_len_grows(h: Seq<char>, start: int, a: int, b: int)
    requires
        0 <= start <= a <= b <= h.len(),
    ensures
        byte_len(h.subrange(start, a)) <= byte_len(h.subrange(start, b)),
{
    lemma_byte_len_concat(h.subrange(start, a), h.subrange(a, b));
    assert(h.subrange(start, a) + h.subrange(a, b) =~= h.subrange(start, b));
}

/// The end of the paired-example region starting at `start` (see [`region_end`]).
fn region_end_exec(h: &[char], start: usize) -> (r: usize)
    requires
        start <= h@.len(),
        region_end(h@, start as int) is Some,
    ensures
        r as int == region_end(h@, start as int).unwrap(),
        start <= r <= h@.len(),
{
    let n = h.len();
    let inc: Vec<char> = vec!['c', 'l', 'a', 's', 's', '=', '"', 'i', 'n', 'c', 'o', 'r', 'r', 'e', 'c', 't', '"'];
    let cor: Vec<char> = vec!['c', 'l', 'a', 's', 's', '=', '"', 'c', 'o', 'r', 'r', 'e', 'c', 't', '"'];
    proof {
        assert(inc@ =~= incorrect_marker());
        assert(cor@ =~= correct_marker());
        lemma_find_from(h@, incorrect_marker(), start as int);
        lemma_find_from(h@, correct_marker(), start as int);
    }
    let a = find(h, inc.as_slice(), start);
    let b = find(h, cor.as_slice(), start);
    let sc: usize = match (a, b) {
        (Some(x), Some(y)) => if x <= y { x } else { y },
        (Some(x), None) => x,
        (None, Some(y)) => y,
        (None, None) => n,
    };
    assert(sc as int == next_marker(h@, start as int));
    assert(start <= sc <= n);
    let mut q: usize = start;
    let mut bytes: usize = 0;
    assert(h@.subrange(start as int, start as int) =~= Seq::<char>::empty());
    while q < n && width_of(h[q]) <= EXAMPLE_REGION_BYTES - bytes
        invariant
            n == h@.len(),
            start <= q <= n,
            bytes == byte_len(h@.subrange(start as int, q as int)),
            bytes <= EXAMPLE_REGION_BYTES,
            fit_from(h@, start as int, start as int, EXAMPLE_REGION_BYTES as nat) == fit_from(
                h@,
                start as int,
                q as int,
                EXAMPLE_REGION_BYTES as nat,
            ),
        decreases n - q,
    {
        proof {
            lemma_byte_len_push(h@.subrange(start as int, q as int), h@[q as int]);
            assert(h@.subrange(start as int, q as int).push(h@[q as int]) =~= h@.subrange(start as int, q + 1));
        }
        bytes = bytes + width_of(h[q]);
        q = q + 1;
    }
    proof {
        if q < n {
            lemma_byte_len_push(h@.subrange(start as int, q as int), h@[q as int]);
            assert(h@.subrange(start as int, q as int).push(h@[q as int]) =~= h@.subrange(start as int, q + 1));
        }
    }
    assert(q as int == fit_from(h@, start as int, start as int, EXAMPLE_REGION_BYTES as nat));
    if sc <= q {
        proof {
            lemma_byte_len_grows(h@, start as int, sc as int, q as int);
        }
        sc
    } else {
        proof {
            lemma_byte_len_grows(h@, start as int, q + 1, sc as int);
        }
        q
    }
}

/// The substantial blocks of `bs` (see [`substantial`]).
fn substantial_blocks(bs: &Vec<Vec<char>>, out: &mut Vec<String>)
    ensures
        final(out).deep_view() == old(out).deep_view() + substantial(views(bs@)),
{
    let ghost o = out.deep_view();
    let mut i: usize = 0;
    while i < bs.len()
        invariant
            i <= bs@.len(),
            out.deep_view() == o + substantial(views(bs@).take(i as int)),
        decreases bs@.len() - i,
    {
        proof {
            assert(views(bs@).take(i + 1).drop_last() =~= views(bs@).take(i as int));
            assert(views(bs@).take(i + 1).last() == bs@[i as int]@);
        }
        let t = trimmed(bs[i].as_slice());
        if byte_len_at_least(t.as_slice(), 3) {
            let ghost before = out.deep_view();
            let s = string_of(bs[i].as_slice());
            out.push(s);
            proof {
                assert(out.deep_view() =~= before.push(s@));
                assert(o + substantial(views(bs@).take(i + 1)) =~= (o + substantial(views(bs@).take(i as int))).push(
                    bs@[i as int]@,
                ));
            }
        }
        i = i + 1;
    }
    assert(views(bs@).take(i as int) =~= views(bs@));
}

/// Every example code block inside a `class="<class>"` region of a page: the docs' own
/// paired-example markup. Each region runs from its marker to the next paired-example
/// marker, or [`EXAMPLE_REGION_BYTES`] bytes on, and its blocks are its `<pre>` example
/// interiors whose trimmed text spans at least three bytes (see [`examples_of_class_spec`]).
pub fn examples_of_class(body: &str, class: &str) -> (r: Vec<String>)
    requires
        examples_of_class_spec(body@, class@) is Some,
    ensures
        r.deep_view() == examples_of_class_spec(body@, class@).unwrap(),
{
    let h = chars_of(body);
    let n = h.len();
    let mut needle: Vec<char> = vec!['c', 'l', 'a', 's', 's', '=', '"'];
    let cl = chars_of(class);
    append_chars(&mut needle, cl.as_slice());
    needle.push('"');
    proof {
        assert(needle@ =~= class_marker(class@));
    }
    let nl = needle.len();
    let mut out: Vec<String> = Vec::new();
    let mut at: usize = 0;
    assert(out.deep_view() =~= Seq::<Seq<char>>::empty());
    loop
        invariant
            n == h@.len(),
            h@ == body@,
            needle@ == class_marker(class@),
            nl == needle@.len(),
            at <= n,
            examples_from(h@, needle@, at as int) is Some,
            out.deep_view() + examples_from(h@, needle@, at as int).unwrap() == examples_of_class_spec(body@, class@).unwrap(),
        ensures
            out.deep_view() == examples_of_class_spec(body@, class@).unwrap(),
        decreases n - at,
    {
        proof {
            lemma_find_from(h@, needle@, at as int);
        }
        let p = match find(h.as_slice(), needle.as_slice(), at) {
            Some(p) => p,
            None => {
                assert(out.deep_view() + Seq::<Seq<char>>::empty() =~= out.deep_view());
                break;
            },
        };
        let start = p + nl;
        let end = region_end_exec(h.as_slice(), start);
        let region = slice_chars(h.as_slice(), start, end);
        let blocks = code_interiors_chars(region.as_slice());
        let ghost before = out.deep_view();
        let ghost rest = examples_from(h@, needle@, end as int).unwrap();
        substantial_blocks(&blocks, &mut out);
        proof {
            assert(out.deep_view() + rest =~= before + (substantial(views(blocks@)) + rest));
        }
        at = end;
    }
    out
}


/// Every `<code>…</code>` interior of `h` from index `at` on, decoded and trimmed, kept when it
/// spans at least two bytes; scanning stops at a `<code` with no `>` or no `</code>` after it.
pub open spec fn bare_from(h: Seq<char>, at: int) -> Seq<Seq<char>>
    decreases h.len() - at,
{
    if at < 0 || at > h.len() {
        Seq::empty()
    } else {
        let c = find_ci_from(h, code_open(), at);
        let g = find_from(h, seq!['>'], c);
        let ce = find_ci_from(h, code_close(), g + 1);
        if c < 0 || g < 0 || ce < 0 || ce < at || ce + 7 > h.len() {
            Seq::empty()
        } else {
            let t = trim(strip_code_spec(h.subrange(g + 1, ce)));
            if byte_len(t) >= 2 {
                seq![t] + bare_from(h, ce + 7)
            } else {
                bare_from(h, ce + 7)
            }
        }
    }
}

/// Every `<code>…</code>` interior on a page, inline ones included (see [`bare_from`]).
pub fn bare_code_interiors(h: &[char]) -> (r: Vec<Vec<char>>)
    ensures
        views(r@) == bare_from(h@, 0),
{
    let n = h.len();
    let open = code_open_chars();
    let close = code_close_chars();
    let gt: Vec<char> = vec!['>'];
    proof {
        assert(gt@ =~= seq!['>']);
    }
    let mut out: Vec<Vec<char>> = Vec::new();
    let mut at: usize = 0;
    loop
        invariant
            n == h@.len(),
            at <= n,
            open@ == code_open(),
            close@ == code_close(),
            gt@ == seq!['>'],
            views(out@) + bare_from(h@, at as int) == bare_from(h@, 0),
        ensures
            views(out@) == bare_from(h@, 0),
        decreases n - at,
    {
        let c = match find_ci_at(h, open.as_slice(), at) {
            Some(c) => c,
            None => {
                assert(views(out@) + Seq::<Seq<char>>::empty() =~= views(out@));
                break;
            },
        };
        proof {
            lemma_find_ci_from(h@, code_open(), at as int);
        }
        let g = match find(h, gt.as_slice(), c) {
            Some(g) => g,
            None => {
                assert(views(out@) + Seq::<Seq<char>>::empty() =~= views(out@));
                break;
            },
        };
        proof {
            lemma_find_from(h@, seq!['>'], c as int);
        }
        let ce = match find_ci_at(h, close.as_slice(), g + 1) {
            Some(ce) => ce,
            None => {
                assert(views(out@) + Seq::<Seq<char>>::empty() =~= views(out@));
                break;
            },
        };
        proof {
            lemma_find_ci_from(h@, code_close(), g + 1);
        }
        let inner = slice_chars(h, g + 1, ce);
        let b = strip_code(inner.as_slice());
        let t = trimmed(b.as_slice());
        let ghost before = views(out@);
        if byte_len_at_least(t.as_slice(), 2) {
            out.push(t);
            proof {
                assert(views(out@) =~= before.push(t@));
                assert(views(out@) + bare_from(h@, ce + 7) =~= before + (seq![t@] + bare_from(
                    h@,
                    ce + 7,
                )));
            }
        }
        at = ce + 7;
    }
    out
}

/// The example corpus of a page: its `<pre>` example blocks, widened (when the page carries
/// rendered item markers) by its inline `<code>` interiors not already present.
pub open spec fn example_corpus_of(body: Seq<char>, rendered_marker: bool) -> Seq<Seq<char>> {
    if rendered_marker {
        dedup_all(code_interiors_of(body).unwrap(), bare_from(body, 0))
    } else {
        code_interiors_of(body).unwrap()
    }
}

/// The example-code corpus a page's own worked usage is read from (see [`example_corpus_of`]).
pub fn page_example_corpus(body: &str, rendered_marker: bool) -> (r: Vec<String>)
    requires
        code_interiors_of(body@) is Some,
    ensures
        r.deep_view() == example_corpus_of(body@, rendered_marker),
{
    let h = chars_of(body);
    let mut out = code_interiors_chars(h.as_slice());
    if rendered_marker {
        let bare = bare_code_interiors(h.as_slice());
        let ghost base = views(out@);
        let mut i: usize = 0;
        assert(views(bare@).skip(0) =~= views(bare@));
        while i < bare.len()
            invariant
                i <= bare@.len(),
                dedup_all(views(out@), views(bare@).skip(i as int)) == dedup_all(
                    base,
                    views(bare@),
                ),
            decreases bare@.len() - i,
        {
            let ghost prev = views(out@);
            add_unique(&mut out, copy_chars(bare[i].as_slice()));
            proof {
                assert(views(bare@).skip(i as int).drop_first() =~= views(bare@).skip(i + 1));
                assert(views(bare@).skip(i as int)[0] == bare@[i as int]@);
            }
            i = i + 1;
        }
        proof {
            assert(views(bare@).skip(i as int) =~= Seq::<Seq<char>>::empty());
            assert(views(bare@).skip(0) =~= views(bare@));
        }
    }
    strings_of(&out)
}

/// The `(url, block)` pairs of a page's example blocks.
pub open spec fn page_pairs(page: (Seq<char>, Seq<char>)) -> Seq<(Seq<char>, Seq<char>)> {
    code_interiors_of(page.1).unwrap().map_values(|b: Seq<char>| (page.0, b))
}

/// The `(url, block)` pairs of every page's example blocks, pages in order.
pub open spec fn url_blocks(pages: Seq<(Seq<char>, Seq<char>)>) -> Seq<(Seq<char>, Seq<char>)>
    decreases pages.len(),
{
    if pages.len() == 0 {
        Seq::empty()
    } else {
        page_pairs(pages[0]) + url_blocks(pages.drop_first())
    }
}

/// The blocks of `acc`.
pub open spec fn blocks_of(acc: Seq<(Seq<char>, Seq<char>)>) -> Seq<Seq<char>> {
    acc.map_values(|p: (Seq<char>, Seq<char>)| p.1)
}

/// `acc` extended by the pairs of `xs` in order, each block trimmed, keeping a block of at
/// least three bytes not already kept, and stopping as soon as `cap` pairs are held.
pub open spec fn collect_capped(
    acc: Seq<(Seq<char>, Seq<char>)>,
    xs: Seq<(Seq<char>, Seq<char>)>,
    cap: int,
) -> Seq<(Seq<char>, Seq<char>)>
    decreases xs.len(),
{
    if xs.len() == 0 {
        acc
    } else {
        let t = trim(xs[0].1);
        if byte_len(t) >= 3 && !blocks_of(acc).contains(t) {
            let a2 = acc.push((xs[0].0, t));
            if a2.len() >= cap {
                a2
            } else {
                collect_capped(a2, xs.drop_first(), cap)
            }
        } else {
            collect_capped(acc, xs.drop_first(), cap)
        }
    }
}

/// Whether every page body's example blocks can be read.
pub open spec fn pages_readable(pages: Seq<(Seq<char>, Seq<char>)>) -> bool {
    forall|i: int| 0 <= i < pages.len() ==> (#[trigger] code_interiors_of(pages[i].1)) is Some
}

proof fn lemma_url_blocks_skip(pages: Seq<(Seq<char>, Seq<char>)>, i: int)
    requires
        0 <= i < pages.len(),
    ensures
        url_blocks(pages.skip(i)) == page_pairs(pages[i]) + url_blocks(pages.skip(i + 1)),
{
    assert(pages.skip(i).drop_first() =~= pages.skip(i + 1));
    assert(pages.skip(i)[0] == pages[i]);
}

/// The worked-example blocks of `pages` with their page's url, deduped by block text and
/// bounded by `cap` (see [`collect_capped`]).
pub fn page_code_blocks_by_url(pages: &[(String, String)], cap: usize) -> (r: Vec<(String, String)>)
    requires
        pages_readable(pages.deep_view()),
    ensures
        r.deep_view() == collect_capped(Seq::empty(), url_blocks(pages.deep_view()), cap as int),
{
    let ghost all = pages.deep_view();
    let ghost target = collect_capped(Seq::empty(), url_blocks(all), cap as int);
    let mut out: Vec<(String, String)> = Vec::new();
    let mut seen: Vec<Vec<char>> = Vec::new();
    let mut i: usize = 0;
    proof {
        assert(all.skip(0) =~= all);
        assert(out.deep_view() =~= Seq::<(Seq<char>, Seq<char>)>::empty());
        assert(views(seen@) =~= blocks_of(out.deep_view()));
    }
    while i < pages.len()
        invariant
            all == pages.deep_view(),
            pages_readable(all),
            target == collect_capped(Seq::empty(), url_blocks(all), cap as int),
            i <= pages@.len(),
            views(seen@) == blocks_of(out.deep_view()),
            collect_capped(out.deep_view(), url_blocks(all.skip(i as int)), cap as int) == target,
        decreases pages@.len() - i,
    {
        let url = &pages[i].0;
        let body = chars_of(pages[i].1.as_str());
        proof {
            assert(all[i as int] == (pages@[i as int].0@, pages@[i as int].1@));
            assert(code_interiors_of(all[i as int].1) is Some);
            lemma_url_blocks_skip(all, i as int);
        }
        let blocks = code_interiors_chars(body.as_slice());
        let ghost later = url_blocks(all.skip(i + 1));
        let ghost pairs = page_pairs(all[i as int]);
        let mut j: usize = 0;
        assert(pairs.skip(0) + later =~= pairs + later);
        while j < blocks.len()
            invariant
                all == pages.deep_view(),
                target == collect_capped(Seq::empty(), url_blocks(all), cap as int),
                i < pages@.len(),
                *url == pages@[i as int].0,
                pairs == page_pairs(all[i as int]),
                views(blocks@) == code_interiors_of(all[i as int].1).unwrap(),
                j <= blocks@.len(),
                views(seen@) == blocks_of(out.deep_view()),
                collect_capped(out.deep_view(), pairs.skip(j as int) + later, cap as int) == target,
            decreases blocks@.len() - j,
        {
            let t = trimmed(blocks[j].as_slice());
            let ghost rem = pairs.skip(j as int) + later;
            let ghost before = out.deep_view();
            proof {
                assert(all[i as int].0 == url@);
                assert(rem[0] == (url@, blocks@[j as int]@));
                assert(rem.drop_first() =~= pairs.skip(j + 1) + later);
            }
            if byte_len_at_least(t.as_slice(), 3) && !holds(&seen, t.as_slice()) {
                let ts = string_of(t.as_slice());
                out.push((url.clone(), ts));
                seen.push(t);
                proof {
                    assert(out.deep_view() =~= before.push((url@, t@)));
                    assert(blocks_of(out.deep_view()) =~= blocks_of(before).push(t@));
                    assert(views(seen@) =~= blocks_of(out.deep_view()));
                }
                if out.len() >= cap {
                    proof {
                        assert(trim(rem[0].1) == t@);
                        assert(collect_capped(before, rem, cap as int) == before.push((url@, t@)));
                    }
                    return out;
                }
            }
            j = j + 1;
        }
        proof {
            assert(pairs.skip(j as int) + later =~= later);
        }
        i = i + 1;
    }
    proof {
        assert(all.skip(i as int) =~= Seq::<(Seq<char>, Seq<char>)>::empty());
    }
    out
}

/// The worked-example blocks of `pages`, deduped and bounded: the blocks of
/// [`page_code_blocks_by_url`] without their urls.
pub fn page_code_corpus(pages: &[(String, String)], lang: &str, cap: usize) -> (r: Vec<String>)
    requires
        pages_readable(pages.deep_view()),
    ensures
        r.deep_view() == blocks_of(
            collect_capped(Seq::empty(), url_blocks(pages.deep_view()), cap as int),
        ),
{
    let pairs = page_code_blocks_by_url(pages, cap);
    let mut out: Vec<String> = Vec::new();
    let mut i: usize = 0;
    while i < pairs.len()
        invariant
            i <= pairs@.len(),
            out.deep_view() == blocks_of(pairs.deep_view()).take(i as int),
        decreases pairs@.len() - i,
    {
        let ghost before = out.deep_view();
        out.push(pairs[i].1.clone());
        proof {
            assert(out.deep_view() =~= before.push(pairs@[i as int].1@));
            assert(blocks_of(pairs.deep_view()).take(i + 1) =~= blocks_of(pairs.deep_view()).take(
                i as int,
            ).push(pairs@[i as int].1@));
        }
        i = i + 1;
    }
    proof {
        assert(blocks_of(pairs.deep_view()).take(i as int) =~= blocks_of(pairs.deep_view()));
    }
    out
}


// ── Deprecation notes ────────────────────────────────────────────────────────

/// The deprecation-status vocabulary the marker readers key on: the class tokens of a
/// rendered deprecation marker, the exception-scope anchors and the usage-form anchors.
pub struct StatusTokens {
    /// Class tokens that mark an element as a prohibition (deprecation) marker.
    pub prohibition_class: Vec<String>,
    /// Words that open an exception scope (`except`).
    pub scope_exception: Vec<String>,
    /// Words that make a deprecation conditional on a usage form (`if`).
    pub usage_form: Vec<String>,
}

/// The most note prose read, in bytes.
pub const NOTE_TEXT_CAP: usize = 600;

/// The largest byte distance between a marker and the item anchor it may belong to.
pub const MARKER_ANCHOR_WINDOW: usize = 20000;

/// A character of a note word.
pub open spec fn word_c(c: char) -> bool {
    ascii_alnum(c) || c == '_'
}

/// Where the word run continuing at `j` ends.
pub open spec fn word_end(s: Seq<char>, j: int) -> int
    decreases s.len() - j,
{
    if 0 <= j < s.len() && word_c(s[j]) {
        word_end(s, j + 1)
    } else {
        j
    }
}

/// The words of a note from index `i`, each with its start: maximal runs of ASCII
/// alphanumerics and `_`.
pub open spec fn note_words_from(s: Seq<char>, i: int) -> Seq<(int, Seq<char>)>
    decreases s.len() - i,
{
    if i < 0 || i >= s.len() {
        Seq::empty()
    } else if word_c(s[i]) {
        let e = word_end(s, i);
        if e <= i || e > s.len() {
            Seq::empty()
        } else {
            seq![(i, s.subrange(i, e))] + note_words_from(s, e)
        }
    } else {
        note_words_from(s, i + 1)
    }
}

fn word_end_of(s: &[char], j: usize) -> (r: usize)
    requires
        j <= s@.len(),
    ensures
        r == word_end(s@, j as int),
        j <= r <= s@.len(),
    decreases s@.len() - j,
{
    if j < s.len() && (is_ascii_alnum(s[j]) || s[j] == '_') {
        word_end_of(s, j + 1)
    } else {
        j
    }
}

/// The words of a note with their starts (see [`note_words_from`]).
pub fn note_words(s: &[char]) -> (r: Vec<(usize, Vec<char>)>)
    ensures
        r@.len() == note_words_from(s@, 0).len(),
        forall|k: int| 0 <= k < r@.len() ==> (#[trigger] r@[k]).0 as int == note_words_from(s@, 0)[k].0
            && r@[k].1@ == note_words_from(s@, 0)[k].1,
{
    let n = s.len();
    let mut out: Vec<(usize, Vec<char>)> = Vec::new();
    let ghost mut done: Seq<(int, Seq<char>)> = Seq::empty();
    let mut i: usize = 0;
    while i < n
        invariant
            n == s@.len(),
            i <= n,
            done + note_words_from(s@, i as int) == note_words_from(s@, 0),
            out@.len() == done.len(),
            forall|k: int| 0 <= k < out@.len() ==> (#[trigger] out@[k]).0 as int == done[k].0 && out@[k].1@ == done[k].1,
        decreases n - i,
    {
        if is_ascii_alnum(s[i]) || s[i] == '_' {
            let e = word_end_of(s, i + 1);
            let w = slice_chars(s, i, e);
            proof {
                assert(word_end(s@, i as int) == e);
                assert(note_words_from(s@, i as int) == seq![(i as int, w@)] + note_words_from(s@, e as int));
                assert(done.push((i as int, w@)) + note_words_from(s@, e as int) =~= done + note_words_from(s@, i as int));
                done = done.push((i as int, w@));
            }
            out.push((i, w));
            i = e;
        } else {
            i = i + 1;
        }
    }
    assert(done + Seq::<(int, Seq<char>)>::empty() =~= done);
    out
}

/// The clause after a note's first `:`, or the whole note.
pub open spec fn clause_of(note: Seq<char>) -> Seq<char> {
    let c = find_from(note, seq![':'], 0);
    if c >= 0 {
        note.skip(c + 1)
    } else {
        note
    }
}

/// The first sentence of a clause: through the `.` of its first `. `, or the whole clause.
pub open spec fn first_sentence(clause: Seq<char>) -> Seq<char> {
    let p = find_from(clause, seq!['.', ' '], 0);
    if p >= 0 {
        clause.take(p + 1)
    } else {
        clause
    }
}

/// The last two dotted parts of a lower-cased item (the whole item when it has one part).
pub open spec fn last_two(item: Seq<char>) -> Seq<char> {
    let parts = crate::module::split_all(item, '.');
    if parts.len() >= 2 {
        parts[parts.len() - 2] + seq!['.'] + parts[parts.len() - 1]
    } else {
        item
    }
}

/// Whether some exception anchor among the words of `note` is followed by a mention of the
/// item: its last two dotted parts, or its receiver-generic `.last`.
pub open spec fn exception_hit(note: Seq<char>, anchors: Seq<Seq<char>>, two: Seq<char>, last: Seq<char>) -> bool {
    exists|k: int|
        0 <= k < note_words_from(note, 0).len() && anchors.contains((#[trigger] note_words_from(note, 0)[k]).1) && (
        contains_seq(note.skip(note_words_from(note, 0)[k].0 + note_words_from(note, 0)[k].1.len()), two)
            || contains_seq(
            note.skip(note_words_from(note, 0)[k].0 + note_words_from(note, 0)[k].1.len()),
            seq!['.'] + last,
        ))
}

/// Whether some word of the note's first sentence is a usage-form anchor.
pub open spec fn usage_hit(note: Seq<char>, anchors: Seq<Seq<char>>) -> bool {
    let fs = first_sentence(clause_of(note));
    exists|k: int| 0 <= k < note_words_from(fs, 0).len() && anchors.contains((#[trigger] note_words_from(fs, 0)[k]).1)
}

/// Whether a deprecation note's own prose counter-attests its item: the note names the
/// item after an exception anchor, or the first sentence of its clause carries a usage-form
/// anchor. (`note` is lower-case by contract.)
pub open spec fn counter_attests(note: Seq<char>, item: Seq<char>, exception: Seq<Seq<char>>, usage: Seq<Seq<char>>) -> bool {
    let il = lowercase(item);
    note.len() > 0 && (exception_hit(note, exception, last_two(il), after_last(il, '.')) || usage_hit(note, usage))
}

fn list_holds(v: &Vec<String>, x: &[char]) -> (r: bool)
    ensures
        r == v.deep_view().contains(x@),
{
    let cv = chars_of_all(v.as_slice());
    holds(&cv, x)
}

fn last_two_of(il: &[char]) -> (r: Vec<char>)
    ensures
        r@ == last_two(il@),
{
    let parts = crate::module::split_on(il, '.');
    if parts.len() >= 2 {
        let mut out = copy_chars(parts[parts.len() - 2].as_slice());
        out.push('.');
        append_chars(&mut out, parts[parts.len() - 1].as_slice());
        assert(out@ =~= views(parts@)[parts@.len() - 2] + seq!['.'] + views(parts@)[parts@.len() - 1]);
        out
    } else {
        copy_chars(il)
    }
}

/// Whether a deprecation note's own prose counter-attests its item (see
/// [`counter_attests`]); the anchors are the status vocabulary's `scope_exception` and
/// `usage_form` words, matched as they stand.
pub fn note_counter_attests(note: &str, item: &str, tokens: &StatusTokens) -> (r: bool)
    ensures
        r == counter_attests(note@, item@, tokens.scope_exception.deep_view(), tokens.usage_form.deep_view()),
{
    let nc = chars_of(note);
    if nc.len() == 0 {
        return false;
    }
    let ic = chars_of(item);
    let il = to_lowercase(ic.as_slice());
    let two = last_two_of(il.as_slice());
    let last = tail_after_last(il.as_slice(), '.');
    let mut dot_last: Vec<char> = vec!['.'];
    append_chars(&mut dot_last, last.as_slice());
    assert(dot_last@ =~= seq!['.'] + last@);
    let ws = note_words(nc.as_slice());
    let nlen = nc.len();
    let ghost nw = note_words_from(note@, 0);
    let ghost exc = tokens.scope_exception.deep_view();
    let mut k: usize = 0;
    while k < ws.len()
        invariant
            k <= ws@.len(),
            nc@ == note@,
            nlen == note@.len(),
            ws@.len() == nw.len(),
            nw == note_words_from(note@, 0),
            forall|t: int| 0 <= t < ws@.len() ==> (#[trigger] ws@[t]).0 as int == nw[t].0 && ws@[t].1@ == nw[t].1,
            exc == tokens.scope_exception.deep_view(),
            two@ == last_two(lowercase(item@)),
            dot_last@ == seq!['.'] + after_last(lowercase(item@), '.'),
            forall|t: int| 0 <= t < k ==> !(exc.contains((#[trigger] nw[t]).1) && (contains_seq(
                note@.skip(nw[t].0 + nw[t].1.len()),
                two@,
            ) || contains_seq(note@.skip(nw[t].0 + nw[t].1.len()), dot_last@))),
        decreases ws@.len() - k,
    {
        if list_holds(&tokens.scope_exception, ws[k].1.as_slice()) {
            let pos = ws[k].0;
            let wl = ws[k].1.len();
            proof {
                assert(nw[k as int].0 + nw[k as int].1.len() <= note@.len()) by {
                    lemma_note_words_bound(note@, 0, k as int);
                }
            }
            let after = slice_chars(nc.as_slice(), pos + wl, nlen);
            proof {
                assert(after@ =~= note@.skip(pos + wl));
            }
            if contains(after.as_slice(), two.as_slice()) || contains(after.as_slice(), dot_last.as_slice()) {
                assert(exc.contains(nw[k as int].1));
                return true;
            }
        }
        k = k + 1;
    }
    let colon: Vec<char> = vec![':'];
    assert(colon@ =~= seq![':']);
    let clause = match find(nc.as_slice(), colon.as_slice(), 0) {
        Some(c) => {
            proof {
                lemma_find_from(note@, seq![':'], 0);
            }
            slice_chars(nc.as_slice(), c + 1, nc.len())
        },
        None => copy_chars(nc.as_slice()),
    };
    proof {
        assert(clause@ =~= clause_of(note@));
    }
    let stop: Vec<char> = vec!['.', ' '];
    assert(stop@ =~= seq!['.', ' ']);
    let fs = match find(clause.as_slice(), stop.as_slice(), 0) {
        Some(p) => {
            proof {
                lemma_find_from(clause@, seq!['.', ' '], 0);
            }
            slice_chars(clause.as_slice(), 0, p + 1)
        },
        None => copy_chars(clause.as_slice()),
    };
    proof {
        assert(fs@ =~= first_sentence(clause_of(note@)));
    }
    let fw = note_words(fs.as_slice());
    let ghost fwv = note_words_from(fs@, 0);
    assert(nc@.len() > 0);
    let mut j: usize = 0;
    while j < fw.len()
        invariant
            j <= fw@.len(),
            note@.len() > 0,
            fwv == note_words_from(first_sentence(clause_of(note@)), 0),
            fw@.len() == fwv.len(),
            forall|t: int| 0 <= t < fw@.len() ==> (#[trigger] fw@[t]).1@ == fwv[t].1,
            forall|t: int| 0 <= t < j ==> !tokens.usage_form.deep_view().contains((#[trigger] fwv[t]).1),
        decreases fw@.len() - j,
    {
        if list_holds(&tokens.usage_form, fw[j].1.as_slice()) {
            assert(tokens.usage_form.deep_view().contains(fwv[j as int].1));
            return true;
        }
        j = j + 1;
    }
    false
}

proof fn lemma_note_words_bound(s: Seq<char>, i: int, k: int)
    requires
        0 <= k < note_words_from(s, i).len(),
    ensures
        note_words_from(s, i)[k].0 + note_words_from(s, i)[k].1.len() <= s.len(),
        note_words_from(s, i)[k].0 >= 0,
    decreases s.len() - i,
{
    if i < 0 || i >= s.len() {
    } else if word_c(s[i]) {
        let e = word_end(s, i);
        if e <= i || e > s.len() {
        } else if k > 0 {
            lemma_note_words_bound(s, e, k - 1);
        }
    } else {
        lemma_note_words_bound(s, i + 1, k);
    }
}


/// Whether a tag carries a quoted `id=` attribute (its first `id=` followed by a quote).
pub open spec fn has_id_attr(tag: Seq<char>) -> bool {
    let i = find_from(tag, seq!['i', 'd', '='], 0);
    i >= 0 && i + 3 < tag.len() && (tag[i + 3] == '"' || tag[i + 3] == '\'')
}

/// The note prose scan from index `i` for a marker at `start`, holding `out` so far: text
/// characters lower-cased, whitespace runs collapsed to one space, markup skipped, stopping
/// at the next id-bearing tag after the marker, at an unterminated tag, or once `out` holds
/// [`NOTE_TEXT_CAP`] bytes.
pub open spec fn note_loop(s: Seq<char>, start: int, i: int, out: Seq<char>) -> Seq<char>
    decreases s.len() - i,
{
    if i < 0 || i >= s.len() || byte_len(out) >= NOTE_TEXT_CAP {
        out
    } else if s[i] == '<' {
        let g = find_from(s, seq!['>'], i);
        if g < i || g >= s.len() {
            out
        } else if i > start && has_id_attr(s.subrange(i, g + 1)) {
            out
        } else {
            note_loop(s, start, g + 1, out)
        }
    } else if crate::text::unicode_white_space(s[i]) {
        note_loop(
            s,
            start,
            i + 1,
            if out.len() > 0 && out.last() != ' ' {
                out.push(' ')
            } else {
                out
            },
        )
    } else {
        note_loop(s, start, i + 1, out + crate::text::char_lowercase(s[i]))
    }
}

/// The deprecation note's own prose after the marker tag at `m` (see [`note_loop`]).
pub open spec fn note_text(s: Seq<char>, m: int) -> Seq<char> {
    note_loop(s, m, m, Seq::empty())
}

fn has_id_attr_exec(tag: &[char]) -> (r: bool)
    ensures
        r == has_id_attr(tag@),
{
    let key: Vec<char> = vec!['i', 'd', '='];
    assert(key@ =~= seq!['i', 'd', '=']);
    match find(tag, key.as_slice(), 0) {
        Some(i) => {
            proof {
                lemma_find_from(tag@, seq!['i', 'd', '='], 0);
            }
            tag.len() - i > 3 && (tag[i + 3] == '"' || tag[i + 3] == '\'')
        },
        None => false,
    }
}

/// The note prose after the marker tag at char index `m` (see [`note_text`]).
pub fn marker_note_text(s: &[char], m: usize) -> (r: Vec<char>)
    ensures
        r@ == note_text(s@, m as int),
{
    let n = s.len();
    let gt: Vec<char> = vec!['>'];
    assert(gt@ =~= seq!['>']);
    let mut out: Vec<char> = Vec::new();
    let mut i: usize = m;
    if i > n {
        return out;
    }
    loop
        invariant
            n == s@.len(),
            i <= n,
            gt@ == seq!['>'],
            note_loop(s@, m as int, i as int, out@) == note_text(s@, m as int),
        decreases n - i,
    {
        if i >= n || byte_len_at_least(out.as_slice(), NOTE_TEXT_CAP) {
            return out;
        }
        if s[i] == '<' {
            let g = match find(s, gt.as_slice(), i) {
                Some(g) => g,
                None => {
                    return out;
                },
            };
            proof {
                lemma_find_from(s@, seq!['>'], i as int);
            }
            let tag = slice_chars(s, i, g + 1);
            if i > m && has_id_attr_exec(tag.as_slice()) {
                return out;
            }
            i = g + 1;
        } else if crate::text::is_whitespace(s[i]) {
            if out.len() > 0 && out[out.len() - 1] != ' ' {
                out.push(' ');
            }
            i = i + 1;
        } else {
            let lc = crate::text::lowercase_char(s[i]);
            append_chars(&mut out, lc.as_slice());
            i = i + 1;
        }
    }
}

// ── Rendered deprecation markers ─────────────────────────────────────────────

/// The value of attribute `name` in a tag: the text after the first `name=` when a quote
/// follows it, up to the matching quote.
pub open spec fn attr_value(tag: Seq<char>, name: Seq<char>) -> Option<Seq<char>> {
    let key = name + seq!['='];
    let i = find_from(tag, key, 0);
    if i < 0 || i + key.len() > tag.len() {
        None
    } else {
        let rest = tag.skip(i + key.len());
        if rest.len() == 0 || (rest[0] != '"' && rest[0] != '\'') {
            None
        } else {
            let body = rest.skip(1);
            let end = find_from(body, seq![rest[0]], 0);
            if end < 0 || end > body.len() {
                None
            } else {
                Some(body.take(end))
            }
        }
    }
}

fn attr_of(tag: &[char], key: &[char]) -> (r: Option<Vec<char>>)
    requires
        key@.len() > 0,
        key@.last() == '=',
    ensures
        match r {
            Some(v) => attr_value(tag@, key@.drop_last()) == Some(v@),
            None => attr_value(tag@, key@.drop_last()) is None,
        },
{
    proof {
        assert(key@.drop_last() + seq!['='] =~= key@);
    }
    let tlen = tag.len();
    let i = match find(tag, key, 0) {
        Some(i) => i,
        None => {
            return None;
        },
    };
    proof {
        lemma_find_from(tag@, key@, 0);
        assert(i + key@.len() <= tlen);
    }
    let rest = slice_chars(tag, i + key.len(), tlen);
    assert(rest@ =~= tag@.skip(i + key@.len()));
    if rest.len() == 0 || (rest[0] != '"' && rest[0] != '\'') {
        return None;
    }
    let q = rest[0];
    let body = slice_chars(rest.as_slice(), 1, rest.len());
    assert(body@ =~= rest@.skip(1));
    let qv: Vec<char> = vec![q];
    assert(qv@ =~= seq![q]);
    match find(body.as_slice(), qv.as_slice(), 0) {
        Some(e) => {
            proof {
                lemma_find_from(body@, seq![q], 0);
            }
            let v = slice_chars(body.as_slice(), 0, e);
            assert(v@ =~= body@.take(e as int));
            Some(v)
        },
        None => None,
    }
}

/// An ASCII whitespace character (a byte `u8::is_ascii_whitespace` or a `char` below
/// 0x80 that `char::is_whitespace` accepts).
pub open spec fn ascii_ws(c: char) -> bool {
    c == ' ' || c == '\t' || c == '\n' || c == '\x0B' || c == '\x0C' || c == '\r'
}

/// Whether a class attribute carries one of the marker tokens (up to ASCII case).
pub open spec fn marks(class: Seq<char>, toks: Seq<Seq<char>>) -> bool {
    exists|w: int, t: int|
        0 <= w < words(class).len() && 0 <= t < toks.len() && seq_eq_ci(#[trigger] toks[t], #[trigger] words(class)[w])
}

/// The markup scan of a page from index `i`: every id-bearing tag (its position and id),
/// every marker tag (its position and own id, if any), and every position of a text
/// character that is not ASCII whitespace; the scan ends at a `<` with no `>` after it.
pub open spec fn scan_tags(s: Seq<char>, toks: Seq<Seq<char>>, i: int) -> (Seq<(int, Seq<char>)>, Seq<(int, Option<Seq<char>>)>, Seq<int>)
    decreases s.len() - i,
{
    if i < 0 || i >= s.len() {
        (Seq::empty(), Seq::empty(), Seq::empty())
    } else if s[i] == '<' {
        let g = find_from(s, seq!['>'], i);
        if g < i || g >= s.len() {
            (Seq::empty(), Seq::empty(), Seq::empty())
        } else {
            let tag = s.subrange(i, g + 1);
            let r = scan_tags(s, toks, g + 1);
            let own = attr_value(tag, seq!['i', 'd']);
            let ids = match own {
                Some(x) => seq![(i, x)] + r.0,
                None => r.0,
            };
            let ms = match attr_value(tag, seq!['c', 'l', 'a', 's', 's']) {
                Some(c) => if marks(c, toks) {
                    seq![(i, own)] + r.1
                } else {
                    r.1
                },
                None => r.1,
            };
            (ids, ms, r.2)
        }
    } else {
        let r = scan_tags(s, toks, i + 1);
        if ascii_ws(s[i]) {
            r
        } else {
            (r.0, r.1, seq![i] + r.2)
        }
    }
}

fn marks_exec(class: &[char], toks: &Vec<Vec<char>>) -> (r: bool)
    ensures
        r == marks(class@, views(toks@)),
{
    let ws = split_words(class);
    let mut w: usize = 0;
    while w < ws.len()
        invariant
            w <= ws@.len(),
            views(ws@) == words(class@),
            forall|a: int, t: int| 0 <= a < w && 0 <= t < toks@.len() ==> !seq_eq_ci(#[trigger] views(toks@)[t], #[trigger] words(class@)[a]),
        decreases ws@.len() - w,
    {
        let mut t: usize = 0;
        while t < toks.len()
            invariant
                t <= toks@.len(),
                w < ws@.len(),
                views(ws@) == words(class@),
                forall|a: int, u: int| 0 <= a < w && 0 <= u < toks@.len() ==> !seq_eq_ci(#[trigger] views(toks@)[u], #[trigger] words(class@)[a]),
                forall|u: int| 0 <= u < t ==> !seq_eq_ci(#[trigger] views(toks@)[u], words(class@)[w as int]),
            decreases toks@.len() - t,
        {
            if chars_eq_ci(toks[t].as_slice(), ws[w].as_slice()) {
                assert(seq_eq_ci(views(toks@)[t as int], words(class@)[w as int]));
                return true;
            }
            t = t + 1;
        }
        w = w + 1;
    }
    false
}

/// The markup scan of a page (see [`scan_tags`]).
fn scan_markup(s: &[char], toks: &Vec<Vec<char>>) -> (r: (Vec<(usize, Vec<char>)>, Vec<(usize, Option<Vec<char>>)>, Vec<usize>))
    ensures
        r.0@.len() == scan_tags(s@, views(toks@), 0).0.len(),
        forall|k: int| 0 <= k < r.0@.len() ==> (#[trigger] r.0@[k]).0 as int == scan_tags(s@, views(toks@), 0).0[k].0
            && r.0@[k].1@ == scan_tags(s@, views(toks@), 0).0[k].1,
        r.1@.len() == scan_tags(s@, views(toks@), 0).1.len(),
        forall|k: int| 0 <= k < r.1@.len() ==> (#[trigger] r.1@[k]).0 as int == scan_tags(s@, views(toks@), 0).1[k].0
            && opt_view(r.1@[k].1) == scan_tags(s@, views(toks@), 0).1[k].1,
        r.2@.len() == scan_tags(s@, views(toks@), 0).2.len(),
        forall|k: int| 0 <= k < r.2@.len() ==> (#[trigger] r.2@[k]) as int == scan_tags(s@, views(toks@), 0).2[k],
{
    let ghost tv = views(toks@);
    let n = s.len();
    let gt: Vec<char> = vec!['>'];
    assert(gt@ =~= seq!['>']);
    let idk: Vec<char> = vec!['i', 'd', '='];
    let clk: Vec<char> = vec!['c', 'l', 'a', 's', 's', '='];
    assert(idk@.drop_last() =~= seq!['i', 'd']);
    assert(clk@.drop_last() =~= seq!['c', 'l', 'a', 's', 's']);
    let mut ids: Vec<(usize, Vec<char>)> = Vec::new();
    let mut ms: Vec<(usize, Option<Vec<char>>)> = Vec::new();
    let mut texts: Vec<usize> = Vec::new();
    let ghost mut d0: Seq<(int, Seq<char>)> = Seq::empty();
    let ghost mut d1: Seq<(int, Option<Seq<char>>)> = Seq::empty();
    let ghost mut d2: Seq<int> = Seq::empty();
    let mut i: usize = 0;
    loop
        invariant
            n == s@.len(),
            i <= n,
            tv == views(toks@),
            gt@ == seq!['>'],
            idk@.drop_last() == seq!['i', 'd'],
            clk@.drop_last() == seq!['c', 'l', 'a', 's', 's'],
            idk@.len() > 0 && idk@.last() == '=',
            clk@.len() > 0 && clk@.last() == '=',
            d0 + scan_tags(s@, tv, i as int).0 == scan_tags(s@, tv, 0).0,
            d1 + scan_tags(s@, tv, i as int).1 == scan_tags(s@, tv, 0).1,
            d2 + scan_tags(s@, tv, i as int).2 == scan_tags(s@, tv, 0).2,
            ids@.len() == d0.len(),
            forall|k: int| 0 <= k < ids@.len() ==> (#[trigger] ids@[k]).0 as int == d0[k].0 && ids@[k].1@ == d0[k].1,
            ms@.len() == d1.len(),
            forall|k: int| 0 <= k < ms@.len() ==> (#[trigger] ms@[k]).0 as int == d1[k].0 && opt_view(ms@[k].1) == d1[k].1,
            texts@.len() == d2.len(),
            forall|k: int| 0 <= k < texts@.len() ==> (#[trigger] texts@[k]) as int == d2[k],
        ensures
            d0 == scan_tags(s@, tv, 0).0,
            d1 == scan_tags(s@, tv, 0).1,
            d2 == scan_tags(s@, tv, 0).2,
            ids@.len() == d0.len(),
            forall|k: int| 0 <= k < ids@.len() ==> (#[trigger] ids@[k]).0 as int == d0[k].0 && ids@[k].1@ == d0[k].1,
            ms@.len() == d1.len(),
            forall|k: int| 0 <= k < ms@.len() ==> (#[trigger] ms@[k]).0 as int == d1[k].0 && opt_view(ms@[k].1) == d1[k].1,
            texts@.len() == d2.len(),
            forall|k: int| 0 <= k < texts@.len() ==> (#[trigger] texts@[k]) as int == d2[k],
        decreases n - i,
    {
        if i >= n {
            proof {
                assert(d0 + Seq::<(int, Seq<char>)>::empty() =~= d0);
                assert(d1 + Seq::<(int, Option<Seq<char>>)>::empty() =~= d1);
                assert(d2 + Seq::<int>::empty() =~= d2);
            }
            break;
        }
        if s[i] == '<' {
            let g = match find(s, gt.as_slice(), i) {
                Some(g) => g,
                None => {
                    proof {
                        assert(d0 + Seq::<(int, Seq<char>)>::empty() =~= d0);
                        assert(d1 + Seq::<(int, Option<Seq<char>>)>::empty() =~= d1);
                        assert(d2 + Seq::<int>::empty() =~= d2);
                    }
                    break;
                },
            };
            proof {
                lemma_find_from(s@, seq!['>'], i as int);
            }
            let tag = slice_chars(s, i, g + 1);
            let own = attr_of(tag.as_slice(), idk.as_slice());
            let cls = attr_of(tag.as_slice(), clk.as_slice());
            let ghost r = scan_tags(s@, tv, g + 1);
            let ghost ownv = attr_value(tag@, seq!['i', 'd']);
            let is_marker = match &cls {
                Some(c) => marks_exec(c.as_slice(), toks),
                None => false,
            };
            match &own {
                Some(x) => {
                    ids.push((i, copy_chars(x.as_slice())));
                    proof {
                        d0 = d0.push((i as int, x@));
                    }
                },
                None => {},
            }
            if is_marker {
                let own2 = match &own {
                    Some(x) => Some(copy_chars(x.as_slice())),
                    None => None,
                };
                ms.push((i, own2));
                proof {
                    d1 = d1.push((i as int, ownv));
                }
            }
            proof {
                assert(opt_view(own) == ownv);
                let full = scan_tags(s@, tv, i as int);
                assert(full.2 == r.2);
                assert(d2 + r.2 == scan_tags(s@, tv, 0).2);
                if own is Some {
                    assert(full.0 == seq![(i as int, own.unwrap()@)] + r.0);
                    assert(d0 + r.0 =~= d0.drop_last() + full.0);
                } else {
                    assert(full.0 == r.0);
                }
                if is_marker {
                    assert(full.1 == seq![(i as int, ownv)] + r.1);
                    assert(d1 + r.1 =~= d1.drop_last() + full.1);
                } else {
                    assert(full.1 == r.1);
                }
            }
            i = g + 1;
        } else {
            let ghost r = scan_tags(s@, tv, i + 1);
            let c = s[i];
            if !(c == ' ' || c == '\t' || c == '\n' || c == '\x0B' || c == '\x0C' || c == '\r') {
                texts.push(i);
                proof {
                    d2 = d2.push(i as int);
                    assert(d2 + r.2 =~= d2.drop_last() + (seq![i as int] + r.2));
                }
            }
            i = i + 1;
        }
    }
    (ids, ms, texts)
}

/// The view of an optional character vector.
pub open spec fn opt_view(o: Option<Vec<char>>) -> Option<Seq<char>> {
    match o {
        Some(v) => Some(v@),
        None => None,
    }
}


/// Whether the text from `a` to `b` spans at most [`MARKER_ANCHOR_WINDOW`] bytes.
pub open spec fn within(s: Seq<char>, a: int, b: int) -> bool {
    byte_len(s.subrange(a, b)) <= MARKER_ANCHOR_WINDOW
}

/// The first id at or after index `k` of `ids` positioned after `m`, or -1.
pub open spec fn first_after(ids: Seq<(int, Seq<char>)>, m: int, k: int) -> int
    decreases ids.len() - k,
{
    if k < 0 || k >= ids.len() {
        -1
    } else if ids[k].0 > m {
        k
    } else {
        first_after(ids, m, k + 1)
    }
}

/// The last of the first `n` ids positioned before `m` and within the window of it, or -1.
pub open spec fn last_near(s: Seq<char>, ids: Seq<(int, Seq<char>)>, m: int, n: int) -> int
    decreases n,
{
    if n <= 0 || n > ids.len() {
        -1
    } else if ids[n - 1].0 < m && 0 <= ids[n - 1].0 && m <= s.len() && within(s, ids[n - 1].0, m) {
        n - 1
    } else {
        last_near(s, ids, m, n - 1)
    }
}

/// Whether a text position lies strictly between `m` and `a`.
pub open spec fn prose_between(texts: Seq<int>, m: int, a: int) -> bool {
    exists|t: int| 0 <= t < texts.len() && m < #[trigger] texts[t] < a
}

/// Whether the id after a marker at `m` follows within the window with only markup
/// between.
pub open spec fn container_ok(s: Seq<char>, ids: Seq<(int, Seq<char>)>, texts: Seq<int>, m: int) -> bool {
    let j = first_after(ids, m, 0);
    j >= 0 && 0 <= m <= ids[j].0 <= s.len() && within(s, m, ids[j].0) && !prose_between(texts, m, ids[j].0)
}

/// The item a marker at `mk` attests: its own id; else the next id when it follows within
/// the window with only markup between (a container opening); else the nearest preceding id
/// within the window (a trailing badge).
pub open spec fn attributed(
    s: Seq<char>,
    ids: Seq<(int, Seq<char>)>,
    texts: Seq<int>,
    mk: (int, Option<Seq<char>>),
) -> Option<Seq<char>> {
    match mk.1 {
        Some(id) => Some(id),
        None => {
            let j = first_after(ids, mk.0, 0);
            if container_ok(s, ids, texts, mk.0) {
                Some(ids[j].1)
            } else {
                let k = last_near(s, ids, mk.0, ids.len() as int);
                if k >= 0 {
                    Some(ids[k].1)
                } else {
                    None
                }
            }
        },
    }
}

/// A character of a dotted item id.
pub open spec fn item_c(c: char) -> bool {
    ascii_alnum(c) || c == '_' || c == '.'
}

/// Whether an id names a dotted item: at least three characters, a dot inside but not at
/// either end and never doubled, identifier characters and dots only, and a last component
/// of at least two characters.
pub open spec fn dotted_item(v: Seq<char>) -> bool {
    &&& v.len() >= 3
    &&& contains_seq(v, seq!['.'])
    &&& v[0] != '.'
    &&& v.last() != '.'
    &&& !contains_seq(v, seq!['.', '.'])
    &&& forall|i: int| 0 <= i < v.len() ==> item_c(#[trigger] v[i])
    &&& after_last(v, '.').len() >= 2
}

/// The parts joined by `sep`.
pub open spec fn join_with(parts: Seq<Seq<char>>, sep: char) -> Seq<char>
    decreases parts.len(),
{
    if parts.len() == 0 {
        Seq::empty()
    } else if parts.len() == 1 {
        parts[0]
    } else {
        join_with(parts.drop_last(), sep) + seq![sep] + parts.last()
    }
}

/// The construct shapes of a dotted item, most specific first: every dotted suffix that
/// keeps at least two components, then the receiver-generic `.last`.
pub open spec fn item_shapes(id: Seq<char>) -> Seq<Seq<char>> {
    let parts = crate::module::split_all(id, '.');
    Seq::new((parts.len() - 1) as nat, |k: int| join_with(parts.skip(k), '.')) + seq![seq!['.'] + parts.last()]
}

/// The marked items over the first `n` markers: (enforced groups, counter-attested groups,
/// items seen).
pub open spec fn attest_fold(
    s: Seq<char>,
    exc: Seq<Seq<char>>,
    usage: Seq<Seq<char>>,
    ids: Seq<(int, Seq<char>)>,
    texts: Seq<int>,
    ms: Seq<(int, Option<Seq<char>>)>,
    n: int,
) -> (Seq<Seq<Seq<char>>>, Seq<Seq<Seq<char>>>, Seq<Seq<char>>)
    decreases n,
{
    if n <= 0 || n > ms.len() {
        (Seq::empty(), Seq::empty(), Seq::empty())
    } else {
        let prev = attest_fold(s, exc, usage, ids, texts, ms, n - 1);
        let mk = ms[n - 1];
        match attributed(s, ids, texts, mk) {
            Some(id) => if dotted_item(id) && !prev.2.contains(id) {
                if counter_attests(note_text(s, mk.0), id, exc, usage) {
                    (prev.0, prev.1.push(item_shapes(id)), prev.2.push(id))
                } else {
                    (prev.0.push(item_shapes(id)), prev.1, prev.2.push(id))
                }
            } else {
                prev
            },
            None => prev,
        }
    }
}

/// The construct shapes a page marks deprecated in place, one group per marked item, and
/// the groups whose own note counter-attests them.
pub open spec fn attested_shapes(
    s: Seq<char>,
    toks: Seq<Seq<char>>,
    exc: Seq<Seq<char>>,
    usage: Seq<Seq<char>>,
) -> (Seq<Seq<Seq<char>>>, Seq<Seq<Seq<char>>>) {
    if toks.len() == 0 {
        (Seq::empty(), Seq::empty())
    } else {
        let sc = scan_tags(s, toks, 0);
        let r = attest_fold(s, exc, usage, sc.0, sc.2, sc.1, sc.1.len() as int);
        (r.0, r.1)
    }
}

proof fn lemma_first_after_range(ids: Seq<(int, Seq<char>)>, m: int, k: int)
    requires
        0 <= k,
    ensures
        first_after(ids, m, k) == -1 || (k <= first_after(ids, m, k) < ids.len() && ids[first_after(ids, m, k)].0 > m),
    decreases ids.len() - k,
{
    if k < ids.len() && ids[k].0 <= m {
        lemma_first_after_range(ids, m, k + 1);
    }
}

fn within_exec(s: &[char], a: usize, b: usize) -> (r: bool)
    requires
        a <= b <= s@.len(),
    ensures
        r == within(s@, a as int, b as int),
{
    let seg = slice_chars(s, a, b);
    !byte_len_at_least(seg.as_slice(), MARKER_ANCHOR_WINDOW + 1)
}

fn attribute(
    s: &[char],
    ids: &Vec<(usize, Vec<char>)>,
    texts: &Vec<usize>,
    mpos: usize,
    own: &Option<Vec<char>>,
    ghost_ids: Ghost<Seq<(int, Seq<char>)>>,
    ghost_texts: Ghost<Seq<int>>,
) -> (r: Option<Vec<char>>)
    requires
        ids@.len() == ghost_ids@.len(),
        forall|k: int| 0 <= k < ids@.len() ==> (#[trigger] ids@[k]).0 as int == ghost_ids@[k].0 && ids@[k].1@ == ghost_ids@[k].1,
        texts@.len() == ghost_texts@.len(),
        forall|k: int| 0 <= k < texts@.len() ==> (#[trigger] texts@[k]) as int == ghost_texts@[k],
    ensures
        opt_view(r) == attributed(s@, ghost_ids@, ghost_texts@, (mpos as int, opt_view(*own))),
{
    let ghost gi = ghost_ids@;
    let ghost gt = ghost_texts@;
    match own {
        Some(x) => {
            return Some(copy_chars(x.as_slice()));
        },
        None => {},
    }
    let n = s.len();
    // the next id after the marker
    let mut j: usize = 0;
    while j < ids.len() && ids[j].0 <= mpos
        invariant
            j <= ids@.len(),
            ids@.len() == gi.len(),
            forall|k: int| 0 <= k < ids@.len() ==> (#[trigger] ids@[k]).0 as int == gi[k].0 && ids@[k].1@ == gi[k].1,
            first_after(gi, mpos as int, 0) == first_after(gi, mpos as int, j as int),
        decreases ids@.len() - j,
    {
        j = j + 1;
    }
    proof {
        lemma_first_after_range(gi, mpos as int, j as int);
    }
    let mut ok = false;
    if j < ids.len() {
        let apos = ids[j].0;
        if apos <= n && within_exec(s, mpos, apos) {
            let mut between = false;
            let mut t: usize = 0;
            while t < texts.len()
                invariant
                    t <= texts@.len(),
                    texts@.len() == gt.len(),
                    forall|k: int| 0 <= k < texts@.len() ==> (#[trigger] texts@[k]) as int == gt[k],
                    between == (exists|k: int| 0 <= k < t && mpos < #[trigger] gt[k] < apos),
                decreases texts@.len() - t,
            {
                if mpos < texts[t] && texts[t] < apos {
                    between = true;
                }
                t = t + 1;
            }
            ok = !between;
        }
    }
    proof {
        assert(ok == container_ok(s@, gi, gt, mpos as int));
    }
    if ok {
        return Some(copy_chars(ids[j].1.as_slice()));
    }
    // the nearest preceding id within the window
    let mut k: usize = ids.len();
    while k > 0
        invariant
            k <= ids@.len(),
            n == s@.len(),
            gi == ghost_ids@,
            gt == ghost_texts@,
            own is None,
            !container_ok(s@, gi, gt, mpos as int),
            ids@.len() == gi.len(),
            forall|x: int| 0 <= x < ids@.len() ==> (#[trigger] ids@[x]).0 as int == gi[x].0 && ids@[x].1@ == gi[x].1,
            last_near(s@, gi, mpos as int, gi.len() as int) == last_near(s@, gi, mpos as int, k as int),
        decreases k,
    {
        let apos = ids[k - 1].0;
        if apos < mpos && mpos <= n && within_exec(s, apos, mpos) {
            return Some(copy_chars(ids[k - 1].1.as_slice()));
        }
        k = k - 1;
    }
    None
}

fn item_char(c: char) -> (r: bool)
    ensures
        r == item_c(c),
{
    is_ascii_alnum(c) || c == '_' || c == '.'
}

fn dotted_item_exec(v: &[char]) -> (r: bool)
    ensures
        r == dotted_item(v@),
{
    let dot: Vec<char> = vec!['.'];
    let dots: Vec<char> = vec!['.', '.'];
    assert(dot@ =~= seq!['.']);
    assert(dots@ =~= seq!['.', '.']);
    if v.len() < 3 || !contains(v, dot.as_slice()) || v[0] == '.' || v[v.len() - 1] == '.' || contains(v, dots.as_slice()) {
        return false;
    }
    let mut i: usize = 0;
    while i < v.len()
        invariant
            i <= v@.len(),
            forall|k: int| 0 <= k < i ==> item_c(#[trigger] v@[k]),
        decreases v@.len() - i,
    {
        if !item_char(v[i]) {
            return false;
        }
        i = i + 1;
    }
    let last = tail_after_last(v, '.');
    last.len() >= 2
}

fn join_parts(parts: &Vec<Vec<char>>, from: usize, sep: char) -> (r: Vec<char>)
    requires
        from <= parts@.len(),
    ensures
        r@ == join_with(views(parts@).skip(from as int), sep),
{
    let ghost ps = views(parts@).skip(from as int);
    let mut out: Vec<char> = Vec::new();
    let mut k: usize = from;
    while k < parts.len()
        invariant
            from <= k <= parts@.len(),
            ps == views(parts@).skip(from as int),
            out@ == join_with(ps.take(k - from), sep),
        decreases parts@.len() - k,
    {
        proof {
            assert(ps.take(k - from + 1).drop_last() =~= ps.take(k - from));
            assert(ps.take(k - from + 1).last() == parts@[k as int]@);
        }
        if k > from {
            out.push(sep);
        }
        append_chars(&mut out, parts[k].as_slice());
        proof {
            if k == from {
                assert(out@ =~= parts@[k as int]@);
            } else {
                assert(out@ =~= join_with(ps.take(k - from), sep) + seq![sep] + parts@[k as int]@);
            }
        }
        k = k + 1;
    }
    assert(ps.take(k - from) =~= ps);
    out
}

fn shapes_of(id: &[char]) -> (r: Vec<Vec<char>>)
    ensures
        views(r@) == item_shapes(id@),
{
    let parts = crate::module::split_on(id, '.');
    proof {
        crate::module::lemma_split_all_nonempty(id@, '.');
    }
    let ghost ps = views(parts@);
    let np = parts.len();
    let mut out: Vec<Vec<char>> = Vec::new();
    let mut k: usize = 0;
    while k < np - 1
        invariant
            np == parts@.len(),
            np >= 1,
            ps == views(parts@),
            ps == crate::module::split_all(id@, '.'),
            k <= np - 1,
            views(out@) == Seq::new((ps.len() - 1) as nat, |x: int| join_with(ps.skip(x), '.')).take(k as int),
        decreases np - 1 - k,
    {
        let j = join_parts(&parts, k, '.');
        let ghost before = views(out@);
        out.push(j);
        proof {
            assert(Seq::new((ps.len() - 1) as nat, |x: int| join_with(ps.skip(x), '.'))[k as int] == join_with(
                ps.skip(k as int),
                '.',
            ));
            assert(views(out@) =~= before.push(j@));
            assert(views(out@) =~= Seq::new((ps.len() - 1) as nat, |x: int| join_with(ps.skip(x), '.')).take(k + 1));
        }
        k = k + 1;
    }
    let mut last: Vec<char> = vec!['.'];
    append_chars(&mut last, parts[np - 1].as_slice());
    let ghost before = views(out@);
    out.push(last);
    proof {
        assert(Seq::new((ps.len() - 1) as nat, |x: int| join_with(ps.skip(x), '.')).take(k as int) =~= Seq::new(
            (ps.len() - 1) as nat,
            |x: int| join_with(ps.skip(x), '.'),
        ));
        assert(last@ =~= seq!['.'] + ps.last());
        assert(views(out@) =~= item_shapes(id@));
    }
    out
}

fn groups_strings(g: &Vec<Vec<char>>) -> (r: Vec<String>)
    ensures
        r.deep_view() == views(g@),
{
    strings_of(g)
}

/// The construct shapes a page marks deprecated in place (see [`attested_shapes`]): for
/// every element whose class carries a prohibition token, the item it attests — its own
/// dotted id, the id it opens with only markup between, or the nearest preceding id whose
/// region holds it — gives one group of shapes; a group whose note counter-attests its
/// item ([`note_counter_attests`]) is returned apart.
pub fn attested_item_shapes(body: &str, tokens: &StatusTokens) -> (r: (Vec<Vec<String>>, Vec<Vec<String>>))
    ensures
        (r.0.deep_view(), r.1.deep_view()) == attested_shapes(
            body@,
            tokens.prohibition_class.deep_view(),
            tokens.scope_exception.deep_view(),
            tokens.usage_form.deep_view(),
        ),
{
    let toks = chars_of_all(tokens.prohibition_class.as_slice());
    let ghost tv = views(toks@);
    let ghost exc = tokens.scope_exception.deep_view();
    let ghost usage = tokens.usage_form.deep_view();
    let mut groups: Vec<Vec<String>> = Vec::new();
    let mut counter: Vec<Vec<String>> = Vec::new();
    if toks.len() == 0 {
        return (groups, counter);
    }
    let s = chars_of(body);
    let (ids, ms, texts) = scan_markup(s.as_slice(), &toks);
    let ghost sc = scan_tags(s@, tv, 0);
    let mut seen: Vec<Vec<char>> = Vec::new();
    let mut k: usize = 0;
    while k < ms.len()
        invariant
            k <= ms@.len(),
            s@ == body@,
            tv == views(toks@),
            tv == tokens.prohibition_class.deep_view(),
            exc == tokens.scope_exception.deep_view(),
            usage == tokens.usage_form.deep_view(),
            sc == scan_tags(s@, tv, 0),
            ids@.len() == sc.0.len(),
            forall|x: int| 0 <= x < ids@.len() ==> (#[trigger] ids@[x]).0 as int == sc.0[x].0 && ids@[x].1@ == sc.0[x].1,
            ms@.len() == sc.1.len(),
            forall|x: int| 0 <= x < ms@.len() ==> (#[trigger] ms@[x]).0 as int == sc.1[x].0 && opt_view(ms@[x].1) == sc.1[x].1,
            texts@.len() == sc.2.len(),
            forall|x: int| 0 <= x < texts@.len() ==> (#[trigger] texts@[x]) as int == sc.2[x],
            groups.deep_view() == attest_fold(s@, exc, usage, sc.0, sc.2, sc.1, k as int).0,
            counter.deep_view() == attest_fold(s@, exc, usage, sc.0, sc.2, sc.1, k as int).1,
            views(seen@) == attest_fold(s@, exc, usage, sc.0, sc.2, sc.1, k as int).2,
        decreases ms@.len() - k,
    {
        let mpos = ms[k].0;
        let att = attribute(s.as_slice(), &ids, &texts, mpos, &ms[k].1, Ghost(sc.0), Ghost(sc.2));
        proof {
            assert(sc.1[k as int] == (mpos as int, opt_view(ms@[k as int].1)));
        }
        match att {
            Some(id) => {
                if dotted_item_exec(id.as_slice()) && !holds(&seen, id.as_slice()) {
                    let shapes = shapes_of(id.as_slice());
                    let note = marker_note_text(s.as_slice(), mpos);
                    let note_s = string_of(note.as_slice());
                    let id_s = string_of(id.as_slice());
                    let g = groups_strings(&shapes);
                    let ghost bg = groups.deep_view();
                    let ghost bc = counter.deep_view();
                    let ghost bs = views(seen@);
                    if note_counter_attests(note_s.as_str(), id_s.as_str(), tokens) {
                        counter.push(g);
                        proof {
                            assert(counter.deep_view() =~= bc.push(item_shapes(id@)));
                        }
                    } else {
                        groups.push(g);
                        proof {
                            assert(groups.deep_view() =~= bg.push(item_shapes(id@)));
                        }
                    }
                    seen.push(id);
                    proof {
                        assert(views(seen@) =~= bs.push(id@));
                    }
                }
            },
            None => {},
        }
        k = k + 1;
    }
    (groups, counter)
}


// ── Inline code typography ───────────────────────────────────────────────────

/// `h` from index `at` with every `<code…>X</code>` element (tag names in any ASCII case)
/// turned into `` `X` ``, where `X` is the element's interior as served (see
/// [`strip_code_spec`]); an element with an empty interior vanishes. An opening tag with no
/// `>` after it, or no closing tag after that, is kept as text.
pub open spec fn backticked_from(h: Seq<char>, at: int) -> Seq<char>
    decreases h.len() - at,
{
    if at < 0 || at >= h.len() {
        Seq::empty()
    } else {
        let rest = h.skip(at);
        let gt = find_from(rest, seq!['>'], 0);
        let inner_start = at + gt + 1;
        let end = find_ci_spec(h.skip(inner_start), code_close());
        if starts_with_ci_spec(rest, code_open()) && gt >= 0 && end >= 0 && inner_start + end + 7 <= h.len() {
            let inner = strip_code_spec(h.subrange(inner_start, inner_start + end));
            (if inner.len() > 0 {
                seq!['`'] + inner + seq!['`']
            } else {
                Seq::empty()
            }) + backticked_from(h, inner_start + end + 7)
        } else {
            seq![h[at]] + backticked_from(h, at + 1)
        }
    }
}

/// Inline code typography `<code>X</code>` as `` `X` `` (see [`backticked_from`]), so a
/// symbol construct (`==`, `===`) that plain tag-stripping would discard is read as one
/// backticked token; a highlighter's shredded `<code>` still yields one token.
pub fn code_to_backtick(html: &str) -> (r: String)
    ensures
        r@ == backticked_from(html@, 0),
{
    let h = chars_of(html);
    let n = h.len();
    let mut out: Vec<char> = Vec::new();
    let mut at: usize = 0;
    while at < n
        invariant
            n == h@.len(),
            h@ == html@,
            at <= n,
            out@ + backticked_from(h@, at as int) == backticked_from(h@, 0),
        decreases n - at,
    {
        let rest = slice_chars(h.as_slice(), at, n);
        assert(rest@ =~= h@.skip(at as int));
        let ghost gt = find_from(rest@, seq!['>'], 0);
        let mut jumped = false;
        if starts_with_ci(rest.as_slice(), code_open_chars().as_slice()) {
            let gts = vec!['>'];
            assert(gts@ =~= seq!['>']);
            if let Some(g) = find(rest.as_slice(), gts.as_slice(), 0) {
                proof {
                    lemma_find_from(rest@, seq!['>'], 0);
                }
                let inner_start = at + g + 1;
                let tail = slice_chars(h.as_slice(), inner_start, n);
                assert(tail@ =~= h@.skip(inner_start as int));
                let close = code_close_chars();
                if let Some(e) = find_ci(tail.as_slice(), close.as_slice()) {
                    proof {
                        lemma_find_ci_from(tail@, close@, 0);
                    }
                    let inner_chars = slice_chars(h.as_slice(), inner_start, inner_start + e);
                    let inner = strip_code(inner_chars.as_slice());
                    let ghost before = out@;
                    if inner.len() > 0 {
                        out.push('`');
                        append_chars(&mut out, inner.as_slice());
                        out.push('`');
                        assert(out@ =~= before + (seq!['`'] + inner@ + seq!['`']));
                    }
                    at = inner_start + e + 7;
                    jumped = true;
                }
            }
        }
        if !jumped {
            let ghost before = out@;
            out.push(h[at]);
            assert(out@ =~= before + seq![h@[at as int]]);
            at = at + 1;
        }
    }
    string_of(out.as_slice())
}

} // verus!
