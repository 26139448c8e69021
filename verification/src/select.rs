//! The text side of construct selection and firing: the code surface of a line (string
//! interiors blanked, comments cut), whole-token containment (the one matcher the compile
//! gates and live firing share), the identifier runs grounding compares, the bound on
//! advice prose shown to an agent, and which language names are prose or bundled grammars.

use vstd::prelude::*;
use crate::module::split_all;
use crate::text::{
    append_chars, ascii_alnum, ascii_digit, byte_len, chars_eq, chars_of, copy_chars, find, find_from, has_prefix,
    is_alphanumeric, is_ascii_alnum, is_ascii_digit, is_control, is_whitespace, lemma_find_from,
    lowercase, slice_chars, starts_with, string_of, strings_of, to_lowercase, trim, trim_start,
    trimmed, unicode_alphanumeric, unicode_control, unicode_white_space, views, width_of,
};

verus! {

broadcast use vstd::string::group_string_axioms;

// ── Language names ───────────────────────────────────────────────────────────

/// The languages whose grammars are bundled.
pub open spec fn bundled_names() -> Seq<Seq<char>> {
    seq![
        "rust"@, "python"@, "javascript"@, "typescript"@, "tsx"@, "go"@, "java"@, "ruby"@, "c"@,
        "bash"@,
    ]
}

/// Whether `name` names a bundled grammar: a membership probe over the bundled languages.
pub fn bundled_language(name: &str) -> (r: bool)
    ensures
        r == bundled_names().contains(name@),
{
    let names = vec![
        chars_of("rust"), chars_of("python"), chars_of("javascript"), chars_of("typescript"),
        chars_of("tsx"), chars_of("go"), chars_of("java"), chars_of("ruby"), chars_of("c"),
        chars_of("bash"),
    ];
    assert(views(names@) =~= bundled_names());
    let n = chars_of(name);
    crate::text::holds(&names, n.as_slice())
}

/// The prose language names.
pub open spec fn prose_names() -> Seq<Seq<char>> {
    seq!["md"@, "markdown"@, "txt"@, "text"@, "rst"@]
}

/// Whether a language's files are prose: a prose name, or a man-page section number.
pub open spec fn prose_lang_spec(lang: Seq<char>) -> bool {
    prose_names().contains(lang) || (lang.len() > 0 && forall|i: int| 0 <= i < lang.len() ==> ascii_digit(#[trigger] lang[i]))
}

/// See [`prose_lang_spec`].
pub fn prose_lang(lang: &str) -> (r: bool)
    ensures
        r == prose_lang_spec(lang@),
{
    let names = vec![chars_of("md"), chars_of("markdown"), chars_of("txt"), chars_of("text"), chars_of("rst")];
    assert(views(names@) =~= prose_names());
    let l = chars_of(lang);
    if crate::text::holds(&names, l.as_slice()) {
        return true;
    }
    if l.len() == 0 {
        return false;
    }
    let mut i: usize = 0;
    while i < l.len()
        invariant
            i <= l@.len(),
            l@ == lang@,
            !prose_names().contains(lang@),
            forall|k: int| 0 <= k < i ==> ascii_digit(#[trigger] lang@[k]),
        decreases l@.len() - i,
    {
        if !is_ascii_digit(l[i]) {
            return false;
        }
        i = i + 1;
    }
    true
}

// ── Advice prose ─────────────────────────────────────────────────────────────

/// The most bytes of advice kept.
pub const MAX_ADVICE: usize = 400;

/// A character advice keeps as printable: not a control character and not zero-width or
/// bidirectional formatting.
pub open spec fn printable(c: char) -> bool {
    let u = c as u32;
    !unicode_control(c) && !(0x200b <= u <= 0x200f) && !(0x202a <= u <= 0x202e) && !(0x2060 <= u <= 0x206f)
        && u != 0xfeff
}

/// The advice scan from index `i`: printable non-whitespace characters kept, every other
/// run collapsed to one space, stopping once [`MAX_ADVICE`] bytes are held.
pub open spec fn advice_loop(s: Seq<char>, i: int, out: Seq<char>, last_ws: bool) -> Seq<char>
    decreases s.len() - i,
{
    if i < 0 || i >= s.len() {
        out
    } else {
        let c = s[i];
        let keep = printable(c) && !unicode_white_space(c);
        let out2 = if keep {
            out.push(c)
        } else if !last_ws {
            out.push(' ')
        } else {
            out
        };
        let lw2 = if keep {
            false
        } else if !last_ws {
            true
        } else {
            last_ws
        };
        if byte_len(out2) >= MAX_ADVICE {
            out2
        } else {
            advice_loop(s, i + 1, out2, lw2)
        }
    }
}

/// Advice prose bounded before it is stored and shown: see [`advice_loop`], then trimmed.
pub open spec fn sanitized(desc: Seq<char>) -> Seq<char> {
    trim(advice_loop(desc, 0, Seq::empty(), false))
}

/// A character advice may hold: a space, or a printable non-whitespace character.
pub open spec fn advice_char(c: char) -> bool {
    c == ' ' || (printable(c) && !unicode_white_space(c))
}

proof fn lemma_advice_loop(s: Seq<char>, i: int, out: Seq<char>, last_ws: bool)
    requires
        forall|k: int| 0 <= k < out.len() ==> advice_char(#[trigger] out[k]),
        byte_len(out) < MAX_ADVICE,
    ensures
        forall|k: int| 0 <= k < advice_loop(s, i, out, last_ws).len() ==> advice_char(
            #[trigger] advice_loop(s, i, out, last_ws)[k],
        ),
        byte_len(advice_loop(s, i, out, last_ws)) < MAX_ADVICE + 4,
    decreases s.len() - i,
{
    if 0 <= i < s.len() {
        let c = s[i];
        let keep = printable(c) && !unicode_white_space(c);
        let out2 = if keep {
            out.push(c)
        } else if !last_ws {
            out.push(' ')
        } else {
            out
        };
        let lw2 = if keep {
            false
        } else if !last_ws {
            true
        } else {
            last_ws
        };
        crate::text::lemma_byte_len_push(out, c);
        crate::text::lemma_byte_len_push(out, ' ');
        assert forall|k: int| 0 <= k < out2.len() implies advice_char(#[trigger] out2[k]) by {
            if k < out.len() {
                assert(out2[k] == out[k]);
            }
        }
        if byte_len(out2) < MAX_ADVICE {
            lemma_advice_loop(s, i + 1, out2, lw2);
        }
    }
}

/// Where trimming starts: `trim_start(s)` is `s` from that index on.
proof fn trim_start_at(s: Seq<char>) -> (k: int)
    ensures
        0 <= k <= s.len(),
        trim_start(s) == s.skip(k),
    decreases s.len(),
{
    if s.len() > 0 && unicode_white_space(s[0]) {
        let k = trim_start_at(s.drop_first());
        assert(s.drop_first().skip(k) =~= s.skip(k + 1));
        k + 1
    } else {
        assert(s.skip(0) =~= s);
        0
    }
}

/// Where trimming ends: `trim_end(s)` is `s` up to that index.
proof fn trim_end_at(s: Seq<char>) -> (m: int)
    ensures
        0 <= m <= s.len(),
        crate::text::trim_end(s) == s.take(m),
    decreases s.len(),
{
    if s.len() > 0 && unicode_white_space(s.last()) {
        let m = trim_end_at(s.drop_last());
        assert(s.drop_last().take(m) =~= s.take(m));
        m
    } else {
        assert(s.take(s.len() as int) =~= s);
        s.len() as int
    }
}

/// Advice as stored holds only spaces and printable non-whitespace characters — no
/// control, zero-width or bidirectional formatting character survives — and spans fewer
/// than [`MAX_ADVICE`] + 4 bytes: the cap is checked after each character, which takes at
/// most four bytes.
pub proof fn law_advice_is_printable_and_capped(desc: Seq<char>)
    ensures
        forall|k: int| 0 <= k < sanitized(desc).len() ==> advice_char(#[trigger] sanitized(desc)[k]),
        byte_len(sanitized(desc)) < MAX_ADVICE + 4,
{
    let raw = advice_loop(desc, 0, Seq::empty(), false);
    lemma_advice_loop(desc, 0, Seq::empty(), false);
    let a = trim_start_at(raw);
    let t = trim_start(raw);
    let m = trim_end_at(t);
    assert(sanitized(desc) == t.take(m));
    assert(sanitized(desc) =~= raw.subrange(a, a + m));
    crate::text::lemma_byte_len_concat(raw.take(a), raw.skip(a));
    assert(raw.take(a) + raw.skip(a) =~= raw);
    crate::text::lemma_byte_len_concat(raw.subrange(a, a + m), raw.skip(a + m));
    assert(raw.subrange(a, a + m) + raw.skip(a + m) =~= raw.skip(a));
    assert forall|k: int| 0 <= k < sanitized(desc).len() implies advice_char(#[trigger] sanitized(desc)[k]) by {
        assert(sanitized(desc)[k] == raw[a + k]);
    }
}

fn is_printable(c: char) -> (r: bool)
    ensures
        r == printable(c),
{
    let u = c as u32;
    !is_control(c) && !(0x200b <= u && u <= 0x200f) && !(0x202a <= u && u <= 0x202e) && !(0x2060 <= u && u <= 0x206f)
        && u != 0xfeff
}

/// Bounds advice prose from documentation before it is stored and later shown to an agent:
/// control characters and zero-width or bidirectional formatting become a space, whitespace
/// runs collapse, and the length is capped at [`MAX_ADVICE`] bytes (see [`sanitized`]).
pub fn sanitize_advice(desc: &str) -> (r: String)
    ensures
        r@ == sanitized(desc@),
{
    let s = chars_of(desc);
    let n = s.len();
    let mut out: Vec<char> = Vec::new();
    let mut ob: usize = 0;
    let mut last_ws = false;
    let mut i: usize = 0;
    loop
        invariant_except_break
            ob < MAX_ADVICE,
            advice_loop(s@, i as int, out@, last_ws) == advice_loop(s@, 0, Seq::empty(), false),
        invariant
            n == s@.len(),
            s@ == desc@,
            i <= n,
            ob == byte_len(out@),
        ensures
            out@ == advice_loop(s@, 0, Seq::empty(), false),
        decreases n - i,
    {
        if i >= n {
            break;
        }
        let c = s[i];
        let keep = is_printable(c) && !is_whitespace(c);
        let ghost before = out@;
        let ghost blw = last_ws;
        if keep {
            out.push(c);
            proof {
                crate::text::lemma_byte_len_push(before, c);
            }
            ob = ob + width_of(c);
            last_ws = false;
        } else if !last_ws {
            out.push(' ');
            proof {
                crate::text::lemma_byte_len_push(before, ' ');
            }
            ob = ob + 1;
            last_ws = true;
        }
        proof {
            assert(advice_loop(s@, i as int, before, blw) == if byte_len(out@) >= MAX_ADVICE {
                out@
            } else {
                advice_loop(s@, i + 1, out@, last_ws)
            });
        }
        if ob >= MAX_ADVICE {
            break;
        }
        i = i + 1;
    }
    let t = trimmed(out.as_slice());
    string_of(t.as_slice())
}

// ── Lines ────────────────────────────────────────────────────────────────────

/// `s` without one trailing `\r`.
pub open spec fn strip_cr(s: Seq<char>) -> Seq<char> {
    if s.len() > 0 && s.last() == '\r' {
        s.drop_last()
    } else {
        s
    }
}

/// The lines of `s` (`str::lines`): the pieces between line feeds, each that a line feed
/// ended without one trailing `\r`, and the last piece only when it is not empty.
pub open spec fn lines_of(s: Seq<char>) -> Seq<Seq<char>> {
    let parts = split_all(s, '\n');
    let ended = parts.drop_last().map_values(|p: Seq<char>| strip_cr(p));
    if parts.last().len() == 0 {
        ended
    } else {
        ended.push(parts.last())
    }
}

fn lines_exec(s: &[char]) -> (r: Vec<Vec<char>>)
    ensures
        views(r@) == lines_of(s@),
{
    let parts = crate::module::split_on(s, '\n');
    proof {
        crate::module::lemma_split_all_nonempty(s@, '\n');
    }
    let ghost pv = views(parts@);
    let np = parts.len();
    let mut out: Vec<Vec<char>> = Vec::new();
    let mut k: usize = 0;
    while k < np - 1
        invariant
            np == parts@.len(),
            np >= 1,
            pv == views(parts@),
            pv == split_all(s@, '\n'),
            k <= np - 1,
            views(out@) == pv.drop_last().map_values(|p: Seq<char>| strip_cr(p)).take(k as int),
        decreases np - 1 - k,
    {
        let p = &parts[k];
        let ghost before = views(out@);
        if p.len() > 0 && p[p.len() - 1] == '\r' {
            out.push(slice_chars(p.as_slice(), 0, p.len() - 1));
        } else {
            out.push(copy_chars(p.as_slice()));
        }
        proof {
            assert(pv.drop_last()[k as int] == p@);
            assert(views(out@) =~= before.push(strip_cr(p@)));
            assert(pv.drop_last().map_values(|p: Seq<char>| strip_cr(p)).take(k + 1) =~= pv.drop_last().map_values(
                |p: Seq<char>| strip_cr(p),
            ).take(k as int).push(strip_cr(p@)));
        }
        k = k + 1;
    }
    proof {
        assert(pv.drop_last().map_values(|p: Seq<char>| strip_cr(p)).take(k as int) =~= pv.drop_last().map_values(
            |p: Seq<char>| strip_cr(p),
        ));
    }
    if parts[np - 1].len() > 0 {
        out.push(copy_chars(parts[np - 1].as_slice()));
    }
    out
}

/// Whether a line, start-trimmed, opens a comment.
pub open spec fn comment_line(l: Seq<char>) -> bool {
    let t = trim_start(l);
    starts_with(t, "//"@) || starts_with(t, "#"@) || starts_with(t, "*"@) || starts_with(t, "/*"@)
}

/// The lines of `s` that are not comment lines.
pub open spec fn code_lines(ls: Seq<Seq<char>>) -> Seq<Seq<char>>
    decreases ls.len(),
{
    if ls.len() == 0 {
        Seq::empty()
    } else if comment_line(ls.last()) {
        code_lines(ls.drop_last())
    } else {
        code_lines(ls.drop_last()).push(ls.last())
    }
}

/// The lines joined by line feeds.
pub open spec fn join_lines(ls: Seq<Seq<char>>) -> Seq<char> {
    crate::lang_layer::join_with(ls, '\n')
}

/// Code with its single-line comment lines (`//`, `#`, `*`, `/*` after leading whitespace)
/// removed, the remaining lines joined by line feeds.
pub open spec fn stripped_comments(code: Seq<char>) -> Seq<char> {
    join_lines(code_lines(lines_of(code)))
}

fn trim_start_chars(s: &[char]) -> (r: Vec<char>)
    ensures
        r@ == trim_start(s@),
{
    let mut i: usize = 0;
    assert(s@.skip(0) =~= s@);
    while i < s.len() && is_whitespace(s[i])
        invariant
            i <= s@.len(),
            trim_start(s@) == trim_start(s@.skip(i as int)),
        decreases s@.len() - i,
    {
        assert(s@.skip(i as int).drop_first() =~= s@.skip(i + 1));
        i = i + 1;
    }
    let r = slice_chars(s, i, s.len());
    assert(r@ =~= s@.skip(i as int));
    r
}

fn is_comment_line(l: &[char]) -> (r: bool)
    ensures
        r == comment_line(l@),
{
    let t = trim_start_chars(l);
    has_prefix(t.as_slice(), chars_of("//").as_slice()) || has_prefix(t.as_slice(), chars_of("#").as_slice())
        || has_prefix(t.as_slice(), chars_of("*").as_slice()) || has_prefix(t.as_slice(), chars_of("/*").as_slice())
}

/// See [`stripped_comments`].
pub fn strip_code_comments(code: &str) -> (r: String)
    ensures
        r@ == stripped_comments(code@),
{
    let c = chars_of(code);
    let ls = lines_exec(c.as_slice());
    let ghost lv = views(ls@);
    let mut kept: Vec<Vec<char>> = Vec::new();
    let mut i: usize = 0;
    while i < ls.len()
        invariant
            i <= ls@.len(),
            lv == views(ls@),
            views(kept@) == code_lines(lv.take(i as int)),
        decreases ls@.len() - i,
    {
        proof {
            assert(lv.take(i + 1).drop_last() =~= lv.take(i as int));
            assert(lv.take(i + 1).last() == ls@[i as int]@);
        }
        if !is_comment_line(ls[i].as_slice()) {
            let ghost before = views(kept@);
            kept.push(copy_chars(ls[i].as_slice()));
            proof {
                assert(views(kept@) =~= before.push(ls@[i as int]@));
            }
        }
        i = i + 1;
    }
    assert(lv.take(i as int) =~= lv);
    let mut out: Vec<char> = Vec::new();
    let mut k: usize = 0;
    while k < kept.len()
        invariant
            k <= kept@.len(),
            out@ == join_lines(views(kept@).take(k as int)),
        decreases kept@.len() - k,
    {
        proof {
            assert(views(kept@).take(k + 1).drop_last() =~= views(kept@).take(k as int));
            assert(views(kept@).take(k + 1).last() == kept@[k as int]@);
        }
        if k > 0 {
            out.push('\n');
        }
        crate::text::append_chars(&mut out, kept[k].as_slice());
        proof {
            if k == 0 {
                assert(out@ =~= kept@[0]@);
            } else {
                assert(out@ =~= join_lines(views(kept@).take(k as int)) + seq!['\n'] + kept@[k as int]@);
            }
        }
        k = k + 1;
    }
    assert(views(kept@).take(k as int) =~= views(kept@));
    string_of(out.as_slice())
}

// ── Whole-token containment ──────────────────────────────────────────────────

/// A word character of the matcher.
pub open spec fn word_char(c: char) -> bool {
    ascii_alnum(c) || c == '_'
}

/// The end of the leftmost whole-token occurrence of `tok` in `hay` at or after `at`: a token
/// edge that is a word character must not touch a word character of the text.
pub open spec fn whole_token_from(hay: Seq<char>, tok: Seq<char>, at: int) -> Option<int>
    decreases hay.len() + 1 - at,
{
    let start = find_from(hay, tok, at);
    if at < 0 || at > hay.len() || start < at || start + tok.len() > hay.len() {
        None
    } else {
        let end = start + tok.len();
        let first_word = tok.len() > 0 && word_char(tok[0]);
        let last_word = tok.len() > 0 && word_char(tok.last());
        let left_ok = !first_word || start == 0 || !word_char(hay[start - 1]);
        let right_ok = !last_word || end == hay.len() || !word_char(hay[end]);
        if left_ok && right_ok {
            Some(end)
        } else {
            whole_token_from(hay, tok, start + 1)
        }
    }
}

/// Whether the tokens occur in `hay` in order, each as a whole token after the previous
/// one's end (from `at` on).
pub open spec fn tokens_in_order(hay: Seq<char>, toks: Seq<Seq<char>>, at: int) -> bool
    decreases toks.len(),
{
    if toks.len() == 0 {
        true
    } else {
        match whole_token_from(hay, toks[0], at) {
            Some(end) => tokens_in_order(hay, toks.drop_first(), end),
            None => false,
        }
    }
}

/// Whether `tokens` (stored lower-cased) fire on a line: a non-empty token list whose tokens
/// occur in the lower-cased line in order, each as a whole token.
pub open spec fn fires_line(line: Seq<char>, toks: Seq<Seq<char>>) -> bool {
    toks.len() > 0 && tokens_in_order(lowercase(line), toks, 0)
}

/// Whether `tokens` fire on some line of `text`.
pub open spec fn fires_text(text: Seq<char>, toks: Seq<Seq<char>>) -> bool {
    exists|i: int| 0 <= i < lines_of(text).len() && fires_line(#[trigger] lines_of(text)[i], toks)
}

fn find_whole_token(hay: &[char], tok: &[char], from: usize) -> (r: Option<usize>)
    ensures
        match r {
            Some(e) => whole_token_from(hay@, tok@, from as int) == Some(e as int),
            None => whole_token_from(hay@, tok@, from as int) is None,
        },
{
    let n = hay.len();
    if from > n {
        return None;
    }
    let first_word = tok.len() > 0 && (is_ascii_alnum(tok[0]) || tok[0] == '_');
    let last_word = tok.len() > 0 && (is_ascii_alnum(tok[tok.len() - 1]) || tok[tok.len() - 1] == '_');
    let mut at: usize = from;
    loop
        invariant
            n == hay@.len(),
            at <= n,
            first_word == (tok@.len() > 0 && word_char(tok@[0])),
            last_word == (tok@.len() > 0 && word_char(tok@.last())),
            whole_token_from(hay@, tok@, at as int) == whole_token_from(hay@, tok@, from as int),
        decreases n + 1 - at,
    {
        let start = match find(hay, tok, at) {
            Some(s) => s,
            None => {
                return None;
            },
        };
        proof {
            lemma_find_from(hay@, tok@, at as int);
        }
        let end = start + tok.len();
        let left_ok = !first_word || start == 0 || !(is_ascii_alnum(hay[start - 1]) || hay[start - 1] == '_');
        let right_ok = !last_word || end == n || !(is_ascii_alnum(hay[end]) || hay[end] == '_');
        if left_ok && right_ok {
            return Some(end);
        }
        if start >= n {
            proof {
                assert(whole_token_from(hay@, tok@, start + 1) is None);
            }
            return None;
        }
        at = start + 1;
    }
}

/// Whether `tokens` (stored lower-cased) fire on this line (see [`fires_line`]).
pub fn tokens_fire_line(line: &str, tokens: &[String]) -> (r: bool)
    ensures
        r == fires_line(line@, tokens.deep_view()),
{
    if tokens.len() == 0 {
        return false;
    }
    let l = chars_of(line);
    let hay = to_lowercase(l.as_slice());
    let ghost tv = tokens.deep_view();
    let mut from: usize = 0;
    let mut i: usize = 0;
    assert(tv.skip(0) =~= tv);
    while i < tokens.len()
        invariant
            i <= tokens@.len(),
            tv == tokens.deep_view(),
            tv.len() > 0,
            hay@ == lowercase(line@),
            tokens_in_order(hay@, tv, 0) == tokens_in_order(hay@, tv.skip(i as int), from as int),
        decreases tokens@.len() - i,
    {
        proof {
            assert(tv.skip(i as int)[0] == tokens@[i as int]@);
            assert(tv.skip(i as int).drop_first() =~= tv.skip(i + 1));
        }
        let t = chars_of(tokens[i].as_str());
        match find_whole_token(hay.as_slice(), t.as_slice(), from) {
            Some(end) => {
                from = end;
            },
            None => {
                return false;
            },
        }
        i = i + 1;
    }
    proof {
        assert(tv.skip(i as int) =~= Seq::<Seq<char>>::empty());
        assert(tv.skip(0) =~= tv);
    }
    true
}

/// Whether `tokens` fire on any line of `text` (see [`fires_text`]).
pub fn tokens_fire_text(text: &str, tokens: &[String]) -> (r: bool)
    ensures
        r == fires_text(text@, tokens.deep_view()),
{
    let c = chars_of(text);
    let ls = lines_exec(c.as_slice());
    let mut i: usize = 0;
    while i < ls.len()
        invariant
            i <= ls@.len(),
            views(ls@) == lines_of(text@),
            forall|k: int| 0 <= k < i ==> !fires_line(#[trigger] lines_of(text@)[k], tokens.deep_view()),
        decreases ls@.len() - i,
    {
        let line = string_of(ls[i].as_slice());
        if tokens_fire_line(line.as_str(), tokens) {
            assert(fires_line(lines_of(text@)[i as int], tokens.deep_view()));
            return true;
        }
        i = i + 1;
    }
    false
}


/// Whether `tokens` fire anywhere in `text` under the one containment matcher (see
/// [`fires_text`]): the demonstration gate of a language without a grammar.
pub fn containment_fires(text: &str, tokens: &[String]) -> (r: bool)
    ensures
        r == fires_text(text@, tokens.deep_view()),
{
    tokens_fire_text(text, tokens)
}

// ── The detector tokens of a construct ──────────────────────────────────────

/// The index of the first `@` in `s`, or -1.
pub open spec fn first_at_sign(s: Seq<char>) -> int {
    find_from(s, seq!['@'], 0)
}

/// The containment tokens of a construct, lowercased: a `host@attr` attribute construct
/// with both halves present is the tag-open `<host` then `attr`; an element construct
/// `<x>` with a name is the tag-open `<x`; any other construct is itself.
pub open spec fn construct_tokens_of(c: Seq<char>) -> Seq<Seq<char>> {
    let a = first_at_sign(c);
    if a >= 0 && a > 0 && a + 1 < c.len() {
        seq![seq!['<'] + lowercase(c.subrange(0, a)), lowercase(c.subrange(a + 1, c.len() as int))]
    } else if c.len() >= 3 && c[0] == '<' && c.last() == '>' {
        seq![seq!['<'] + lowercase(c.subrange(1, c.len() - 1))]
    } else {
        seq![lowercase(c)]
    }
}

/// `<` followed by the lowercased `name`.
fn tag_open_token(name: &[char]) -> (r: String)
    ensures
        r@ == seq!['<'] + lowercase(name@),
{
    let mut out: Vec<char> = vec!['<'];
    let low = to_lowercase(name);
    append_chars(&mut out, low.as_slice());
    proof {
        assert(out@ =~= seq!['<'] + lowercase(name@));
    }
    string_of(out.as_slice())
}

/// The containment tokens a graduated construct compiles to (see [`construct_tokens_of`]).
pub fn construct_tokens(construct: &str) -> (r: Vec<String>)
    ensures
        r.deep_view() == construct_tokens_of(construct@),
{
    let c = chars_of(construct);
    let n = c.len();
    let at_sign: Vec<char> = vec!['@'];
    proof {
        assert(at_sign@ =~= seq!['@']);
    }
    proof {
        lemma_find_from(c@, at_sign@, 0);
    }
    match find(c.as_slice(), at_sign.as_slice(), 0) {
        Some(a) => {
            if a > 0 && a + 1 < n {
                let host = slice_chars(c.as_slice(), 0, a);
                let attr = slice_chars(c.as_slice(), a + 1, n);
                let first = tag_open_token(host.as_slice());
                let second = string_of(to_lowercase(attr.as_slice()).as_slice());
                let r = vec![first, second];
                proof {
                    assert(r.deep_view() =~= construct_tokens_of(construct@));
                }
                return r;
            }
        },
        None => {},
    }
    if n >= 3 && c[0] == '<' && c[n - 1] == '>' {
        let name = slice_chars(c.as_slice(), 1, n - 1);
        let r = vec![tag_open_token(name.as_slice())];
        proof {
            assert(r.deep_view() =~= construct_tokens_of(construct@));
        }
        return r;
    }
    let r = vec![string_of(to_lowercase(c.as_slice()).as_slice())];
    proof {
        assert(r.deep_view() =~= construct_tokens_of(construct@));
    }
    r
}

// ── Dotted owner typography ─────────────────────────────────────────────────

/// An identifier character of owner typography: ASCII alphanumeric or `_`.
pub open spec fn owner_ident(c: char) -> bool {
    ascii_alnum(c) || c == '_'
}

/// The index just past the last character of `s` before `k` that is not an identifier
/// character, or 0 when there is none.
pub open spec fn ident_run_start(s: Seq<char>, k: int) -> int
    decreases k,
{
    if k <= 0 {
        0
    } else if !owner_ident(s[k - 1]) {
        k
    } else {
        ident_run_start(s, k - 1)
    }
}

/// The dotted chain read off an occurrence of `token` at index `at` of `line`: when the
/// token is not followed by an identifier character and is preceded by `.` after a
/// nonempty identifier run (the owner), the lowercased `owner.token`.
pub open spec fn owner_chain_at(line: Seq<char>, token: Seq<char>, at: int) -> Option<Seq<char>> {
    let end = at + token.len();
    let after_ok = end >= line.len() || !owner_ident(line[end]);
    if !(after_ok && at >= 1 && line[at - 1] == '.') {
        None
    } else {
        let os = ident_run_start(line, at - 1);
        if os == at - 1 {
            None
        } else {
            Some(lowercase(line.subrange(os, at - 1)) + seq!['.'] + lowercase(token))
        }
    }
}

/// The first dotted chain (see [`owner_chain_at`]) over the occurrences of `token` in `line`
/// from index `from` on, occurrences taken left to right without overlap.
pub open spec fn owner_chain_from(line: Seq<char>, token: Seq<char>, from: int) -> Option<Seq<char>>
    decreases line.len() + 1 - from,
{
    let at = find_from(line, token, from);
    if from < 0 || from > line.len() || at < from || at + token.len() > line.len() {
        None
    } else {
        match owner_chain_at(line, token, at) {
            Some(c) => Some(c),
            None => owner_chain_from(line, token, if token.len() == 0 { at + 1 } else { at + token.len() }),
        }
    }
}

/// The author's own dotted chain `owner.token` read off `line`, lowercased, or `None` when
/// the line never spells `token` as a member (see [`owner_chain_from`]).
pub fn dotted_owner_chain(line: &str, token: &str) -> (r: Option<String>)
    ensures
        r matches Some(c) ==> owner_chain_from(line@, token@, 0) == Some(c@),
        r is None <==> owner_chain_from(line@, token@, 0) is None,
{
    let l = chars_of(line);
    let t = chars_of(token);
    let n = l.len();
    let tn = t.len();
    let mut from: usize = 0;
    while from <= n
        invariant
            n == l@.len(),
            tn == t@.len(),
            l@ == line@,
            t@ == token@,
            from <= n + 1,
            owner_chain_from(line@, token@, 0) == owner_chain_from(line@, token@, from as int),
        decreases n + 1 - from,
    {
        proof {
            lemma_find_from(l@, t@, from as int);
        }
        let at = match find(l.as_slice(), t.as_slice(), from) {
            Some(a) => a,
            None => {
                return None;
            },
        };
        let end = at + tn;
        let after_ok = end >= n || !(is_ascii_alnum(l[end]) || l[end] == '_');
        if after_ok && at >= 1 && l[at - 1] == '.' {
            let mut os: usize = at - 1;
            while os > 0 && (is_ascii_alnum(l[os - 1]) || l[os - 1] == '_')
                invariant
                    os <= at - 1,
                    at - 1 < n,
                    n == l@.len(),
                    l@ == line@,
                    ident_run_start(line@, at - 1) == ident_run_start(line@, os as int),
                decreases os,
            {
                os = os - 1;
            }
            if os < at - 1 {
                let owner = slice_chars(l.as_slice(), os, at - 1);
                let mut out = to_lowercase(owner.as_slice());
                out.push('.');
                let low = to_lowercase(t.as_slice());
                append_chars(&mut out, low.as_slice());
                proof {
                    assert(out@ =~= lowercase(line@.subrange(os as int, at - 1)) + seq!['.'] + lowercase(token@));
                }
                return Some(string_of(out.as_slice()));
            }
        }
        proof {
            assert(owner_chain_at(line@, token@, at as int) is None);
        }
        if tn == 0 {
            if at >= n {
                assert(owner_chain_from(line@, token@, at + 1) is None);
                return None;
            }
            from = at + 1;
        } else {
            from = at + tn;
        }
    }
    None
}

/// Whether `line` addresses `token` with dotted owner typography (see
/// [`dotted_owner_chain`]).
pub fn dotted_owner_typography(line: &str, token: &str) -> (r: bool)
    ensures
        r == owner_chain_from(line@, token@, 0) is Some,
{
    dotted_owner_chain(line, token).is_some()
}


// ── The code surface of a line ───────────────────────────────────────────────

/// Where the string opened by quote `q` before index `j` closes (an escape skips the
/// character after it), or a value at least the line's length when it does not.
pub open spec fn close_of(cs: Seq<char>, q: char, j: int) -> int
    decreases cs.len() - j,
{
    if j < 0 || j >= cs.len() {
        cs.len() as int
    } else if cs[j] == q {
        j
    } else if cs[j] == '\\' {
        if j + 2 >= cs.len() {
            cs.len() as int
        } else {
            close_of(cs, q, j + 2)
        }
    } else {
        close_of(cs, q, j + 1)
    }
}

/// A quote character: `"`, `'` or a backtick.
pub open spec fn quote(c: char) -> bool {
    c == '"' || c == '\'' || c == '`'
}

/// The code surface of a line from index `i`: a string with a closing mate on the line
/// keeps only its two quotes, a quote without one is kept as code, and a `#` or `//`
/// comment ends the surface.
pub open spec fn surface_from(cs: Seq<char>, i: int) -> Seq<char>
    decreases cs.len() - i,
{
    if i < 0 || i >= cs.len() {
        Seq::empty()
    } else {
        let c = cs[i];
        if quote(c) {
            let j = close_of(cs, c, i + 1);
            if i < j < cs.len() {
                seq![c, c] + surface_from(cs, j + 1)
            } else {
                seq![c] + surface_from(cs, i + 1)
            }
        } else if c == '#' {
            Seq::empty()
        } else if c == '/' && i + 1 < cs.len() && cs[i + 1] == '/' {
            Seq::empty()
        } else {
            seq![c] + surface_from(cs, i + 1)
        }
    }
}

/// The comment openers of a whole-line comment.
pub open spec fn comment_openers() -> Seq<Seq<char>> {
    seq!["//"@, "#"@, "*"@, "/*"@, "--"@]
}

/// The code surface of one source line: `None` for a whole-line comment, else
/// [`surface_from`] the line's start.
pub open spec fn code_surface_spec(line: Seq<char>) -> Option<Seq<char>> {
    if exists|k: int| 0 <= k < comment_openers().len() && starts_with(trim_start(line), #[trigger] comment_openers()[k]) {
        None
    } else {
        Some(surface_from(line, 0))
    }
}

fn close_exec(cs: &[char], q: char, j: usize) -> (r: usize)
    requires
        j <= cs@.len(),
    ensures
        r as int == close_of(cs@, q, j as int),
    decreases cs@.len() - j,
{
    if j >= cs.len() {
        cs.len()
    } else if cs[j] == q {
        j
    } else if cs[j] == '\\' {
        if cs.len() - j <= 2 {
            cs.len()
        } else {
            close_exec(cs, q, j + 2)
        }
    } else {
        close_exec(cs, q, j + 1)
    }
}

/// See [`code_surface_spec`].
pub fn code_surface(line: &str) -> (r: Option<String>)
    ensures
        match r {
            Some(v) => code_surface_spec(line@) == Some(v@),
            None => code_surface_spec(line@) is None,
        },
{
    let cs = chars_of(line);
    let t = trim_start_chars(cs.as_slice());
    let openers = vec![chars_of("//"), chars_of("#"), chars_of("*"), chars_of("/*"), chars_of("--")];
    assert(views(openers@) =~= comment_openers());
    let mut k: usize = 0;
    while k < openers.len()
        invariant
            k <= openers@.len(),
            views(openers@) == comment_openers(),
            t@ == trim_start(line@),
            forall|x: int| 0 <= x < k ==> !starts_with(trim_start(line@), #[trigger] comment_openers()[x]),
        decreases openers@.len() - k,
    {
        if has_prefix(t.as_slice(), openers[k].as_slice()) {
            assert(starts_with(trim_start(line@), comment_openers()[k as int]));
            return None;
        }
        k = k + 1;
    }
    let n = cs.len();
    let mut out: Vec<char> = Vec::new();
    let mut i: usize = 0;
    loop
        invariant_except_break
            out@ + surface_from(cs@, i as int) == surface_from(cs@, 0),
        invariant
            n == cs@.len(),
            cs@ == line@,
            i <= n,
        ensures
            out@ == surface_from(cs@, 0),
        decreases n - i,
    {
        if i >= n {
            assert(out@ + Seq::<char>::empty() =~= out@);
            break;
        }
        let c = cs[i];
        let ghost o = out@;
        if c == '"' || c == '\'' || c == '`' {
            let j = close_exec(cs.as_slice(), c, i + 1);
            if i < j && j < n {
                out.push(c);
                out.push(c);
                proof {
                    assert(out@ + surface_from(cs@, j + 1) =~= o + (seq![c, c] + surface_from(cs@, j + 1)));
                }
                i = j + 1;
            } else {
                out.push(c);
                proof {
                    assert(out@ + surface_from(cs@, i + 1) =~= o + (seq![c] + surface_from(cs@, i + 1)));
                }
                i = i + 1;
            }
        } else if c == '#' || (c == '/' && i + 1 < n && cs[i + 1] == '/') {
            assert(out@ + Seq::<char>::empty() =~= out@);
            break;
        } else {
            out.push(c);
            proof {
                assert(out@ + surface_from(cs@, i + 1) =~= o + (seq![c] + surface_from(cs@, i + 1)));
            }
            i = i + 1;
        }
    }
    Some(string_of(out.as_slice()))
}

// ── Identifier runs ──────────────────────────────────────────────────────────

/// A character of an identifier run: Unicode alphanumeric, or `_`.
pub open spec fn run_char(c: char) -> bool {
    unicode_alphanumeric(c) || c == '_'
}

/// The pieces of `s` between characters that are not run characters, empty pieces kept.
pub open spec fn run_pieces(s: Seq<char>) -> Seq<Seq<char>>
    decreases s.len(),
{
    if s.len() == 0 {
        seq![Seq::empty()]
    } else {
        let init = run_pieces(s.drop_last());
        if !run_char(s.last()) {
            init.push(Seq::empty())
        } else {
            init.update(init.len() - 1, init.last().push(s.last()))
        }
    }
}

/// The pieces of at least two characters, lower-cased.
pub open spec fn long_runs(ps: Seq<Seq<char>>) -> Seq<Seq<char>>
    decreases ps.len(),
{
    if ps.len() == 0 {
        Seq::empty()
    } else if ps.last().len() >= 2 {
        long_runs(ps.drop_last()).push(lowercase(ps.last()))
    } else {
        long_runs(ps.drop_last())
    }
}

/// The whole identifier runs of `text`, lower-cased, at least two characters each.
pub open spec fn ground_runs_spec(text: Seq<char>) -> Seq<Seq<char>> {
    long_runs(run_pieces(text))
}

/// See [`ground_runs_spec`].
pub fn ground_runs(text: &str) -> (r: Vec<String>)
    ensures
        r.deep_view() == ground_runs_spec(text@),
{
    let s = chars_of(text);
    let mut pieces: Vec<Vec<char>> = Vec::new();
    pieces.push(Vec::new());
    proof {
        assert(views(pieces@) =~= run_pieces(s@.take(0)));
    }
    let mut i: usize = 0;
    while i < s.len()
        invariant
            i <= s@.len(),
            pieces@.len() >= 1,
            views(pieces@) == run_pieces(s@.take(i as int)),
        decreases s@.len() - i,
    {
        proof {
            assert(s@.take(i + 1).drop_last() =~= s@.take(i as int));
            assert(s@.take(i + 1).last() == s@[i as int]);
        }
        let ghost before = views(pieces@);
        let c = s[i];
        if !(is_alphanumeric(c) || c == '_') {
            pieces.push(Vec::new());
            proof {
                assert(views(pieces@) =~= before.push(Seq::<char>::empty()));
            }
        } else {
            let last = pieces.len() - 1;
            let mut cur = copy_chars(pieces[last].as_slice());
            cur.push(c);
            pieces.set(last, cur);
            proof {
                assert(views(pieces@) =~= before.update(last as int, before.last().push(c)));
            }
        }
        i = i + 1;
    }
    assert(s@.take(i as int) =~= s@);
    let ghost pv = views(pieces@);
    let mut out: Vec<Vec<char>> = Vec::new();
    let mut k: usize = 0;
    while k < pieces.len()
        invariant
            k <= pieces@.len(),
            pv == views(pieces@),
            views(out@) == long_runs(pv.take(k as int)),
        decreases pieces@.len() - k,
    {
        proof {
            assert(pv.take(k + 1).drop_last() =~= pv.take(k as int));
            assert(pv.take(k + 1).last() == pieces@[k as int]@);
        }
        if pieces[k].len() >= 2 {
            let ghost before = views(out@);
            out.push(to_lowercase(pieces[k].as_slice()));
            proof {
                assert(views(out@) =~= before.push(lowercase(pieces@[k as int]@)));
            }
        }
        k = k + 1;
    }
    assert(pv.take(k as int) =~= pv);
    strings_of(&out)
}


// ── The code surface of a whole file ─────────────────────────────────────────

/// Byte ranges as integer pairs.
pub open spec fn pairs(v: Seq<(usize, usize)>) -> Seq<(int, int)> {
    v.map_values(|p: (usize, usize)| (p.0 as int, p.1 as int))
}

/// Whether byte offset `b` lies in one of the ranges `ps` (each from its first to before its
/// second offset).
pub open spec fn blanked(ps: Seq<(int, int)>, b: int) -> bool {
    exists|i: int| 0 <= i < ps.len() && (#[trigger] ps[i]).0 <= b && b < ps[i].1
}

/// Whether the bytes of the `k`-th character of `cs` are blanked all alike.
pub open spec fn char_uniform(cs: Seq<char>, ps: Seq<(int, int)>, k: int) -> bool {
    forall|j: int|
        0 <= j < crate::text::utf8_width(cs[k]) ==> #[trigger] blanked(ps, byte_len(cs.take(k)) + j) == blanked(
            ps,
            byte_len(cs.take(k)) as int,
        )
}

/// Whether blanking the byte ranges `ps` of the UTF-8 text `cs` splits no character, so the
/// blanked bytes are still UTF-8.
pub open spec fn uniform_blank(cs: Seq<char>, ps: Seq<(int, int)>) -> bool {
    forall|k: int| 0 <= k < cs.len() ==> #[trigger] char_uniform(cs, ps, k)
}

/// `cs` with every character other than a line feed whose bytes lie in the ranges `ps`
/// replaced by one space per byte.
pub open spec fn blank_chars(cs: Seq<char>, ps: Seq<(int, int)>) -> Seq<char>
    decreases cs.len(),
{
    if cs.len() == 0 {
        Seq::empty()
    } else {
        let c = cs.last();
        blank_chars(cs.drop_last(), ps) + if c != '\n' && blanked(ps, byte_len(cs.drop_last()) as int) {
            Seq::new(crate::text::utf8_width(c), |j: int| ' ')
        } else {
            seq![c]
        }
    }
}

/// A line's code surface, empty for a whole-line comment (see [`code_surface_spec`]).
pub open spec fn surface_or_empty(l: Seq<char>) -> Seq<char> {
    match code_surface_spec(l) {
        Some(t) => t,
        None => Seq::empty(),
    }
}

/// The line-by-line code surface of a text: each line's surface, joined by line feeds.
pub open spec fn line_surface(code: Seq<char>) -> Seq<char> {
    join_lines(lines_of(code).map_values(|l: Seq<char>| surface_or_empty(l)))
}

/// `code` with the byte ranges `ps` blanked (see [`blank_chars`]), or its line-by-line
/// surface when blanking would split a character.
pub open spec fn blanked_text(code: Seq<char>, ps: Seq<(int, int)>) -> Seq<char> {
    if uniform_blank(code, ps) {
        blank_chars(code, ps)
    } else {
        line_surface(code)
    }
}

/// Whether a node kind names English-bearing content: a string, a comment, a heredoc or a
/// character literal.
pub open spec fn english_kind(k: Seq<char>) -> bool {
    crate::text::contains_seq(k, "string"@) || crate::text::contains_seq(k, "comment"@) || crate::text::contains_seq(
        k,
        "heredoc"@,
    ) || crate::text::contains_seq(k, "char"@)
}

/// The byte spans of the outermost English-bearing nodes of the tree, in order.
pub open spec fn english_spans(n: crate::pattern::Syn) -> Seq<(int, int)>
    decreases n,
{
    if english_kind(n.kind@) {
        seq![(n.start as int, n.end as int)]
    } else {
        english_spans_all(n.children@)
    }
}

/// The English-bearing spans of the trees `cs`, in order.
pub open spec fn english_spans_all(cs: Seq<crate::pattern::Syn>) -> Seq<(int, int)>
    decreases cs,
{
    if cs.len() == 0 {
        Seq::empty()
    } else {
        english_spans_all(cs.drop_last()) + english_spans(cs.last())
    }
}

/// The code surface of a whole file given its parse tree: the text with every string,
/// comment, heredoc and character literal blanked (see [`blanked_text`]), or the line-by-line
/// surface when there is no tree.
pub open spec fn file_surface(tree: Option<crate::pattern::Syn>, code: Seq<char>) -> Seq<char> {
    match tree {
        Some(t) => blanked_text(code, english_spans(t)),
        None => line_surface(code),
    }
}

/// The number of UTF-8 bytes of `v`.
pub fn byte_count(v: &[char]) -> (r: usize)
    requires
        byte_len(v@) <= usize::MAX,
    ensures
        r == byte_len(v@),
{
    let mut total: usize = 0;
    let mut i: usize = 0;
    while i < v.len()
        invariant
            i <= v@.len(),
            total == byte_len(v@.take(i as int)),
            byte_len(v@) <= usize::MAX,
        decreases v@.len() - i,
    {
        proof {
            crate::text::lemma_byte_len_push(v@.take(i as int), v@[i as int]);
            assert(v@.take(i as int).push(v@[i as int]) == v@.take(i + 1));
            crate::text::lemma_byte_len_concat(v@.take(i + 1), v@.skip(i + 1));
            assert(v@.take(i + 1) + v@.skip(i + 1) =~= v@);
        }
        total = total + width_of(v[i]);
        i = i + 1;
    }
    assert(v@.take(i as int) =~= v@);
    total
}

/// Whether byte offset `b` lies in one of the ranges `ps` (see [`blanked`]).
fn in_ranges(ps: &Vec<(usize, usize)>, b: usize) -> (r: bool)
    ensures
        r == blanked(pairs(ps@), b as int),
{
    let mut i: usize = 0;
    while i < ps.len()
        invariant
            i <= ps@.len(),
            forall|q: int| 0 <= q < i ==> !((#[trigger] pairs(ps@)[q]).0 <= b && b < pairs(ps@)[q].1),
        decreases ps@.len() - i,
    {
        assert(pairs(ps@)[i as int] == (ps@[i as int].0 as int, ps@[i as int].1 as int));
        if ps[i].0 <= b && b < ps[i].1 {
            return true;
        }
        i = i + 1;
    }
    false
}

/// Whether blanking `ps` splits no character of `cs` (see [`uniform_blank`]).
fn blank_is_uniform(cs: &[char], ps: &Vec<(usize, usize)>) -> (r: bool)
    requires
        byte_len(cs@) <= usize::MAX,
    ensures
        r == uniform_blank(cs@, pairs(ps@)),
{
    let mut b: usize = 0;
    let mut k: usize = 0;
    while k < cs.len()
        invariant
            k <= cs@.len(),
            b == byte_len(cs@.take(k as int)),
            byte_len(cs@) <= usize::MAX,
            forall|q: int| 0 <= q < k ==> #[trigger] char_uniform(cs@, pairs(ps@), q),
        decreases cs@.len() - k,
    {
        proof {
            crate::text::lemma_byte_len_push(cs@.take(k as int), cs@[k as int]);
            assert(cs@.take(k as int).push(cs@[k as int]) == cs@.take(k + 1));
            crate::text::lemma_byte_len_concat(cs@.take(k + 1), cs@.skip(k + 1));
            assert(cs@.take(k + 1) + cs@.skip(k + 1) =~= cs@);
        }
        let w = width_of(cs[k]);
        let bl = in_ranges(ps, b);
        let mut j: usize = 1;
        while j < w
            invariant
                1 <= j <= w,
                k < cs@.len(),
                w == crate::text::utf8_width(cs@[k as int]),
                b + w <= usize::MAX,
                b == byte_len(cs@.take(k as int)),
                bl == blanked(pairs(ps@), b as int),
                forall|jj: int| 0 <= jj < j ==> #[trigger] blanked(pairs(ps@), b + jj) == bl,
            decreases w - j,
        {
            if in_ranges(ps, b + j) != bl {
                assert(!char_uniform(cs@, pairs(ps@), k as int)) by {
                    assert(blanked(pairs(ps@), byte_len(cs@.take(k as int)) + j) != blanked(
                        pairs(ps@),
                        byte_len(cs@.take(k as int)) as int,
                    ));
                }
                assert(!uniform_blank(cs@, pairs(ps@)));
                return false;
            }
            j = j + 1;
        }
        assert(char_uniform(cs@, pairs(ps@), k as int)) by {
            assert forall|jj: int| 0 <= jj < crate::text::utf8_width(cs@[k as int]) implies #[trigger] blanked(
                pairs(ps@),
                byte_len(cs@.take(k as int)) + jj,
            ) == blanked(pairs(ps@), byte_len(cs@.take(k as int)) as int) by {
                assert(blanked(pairs(ps@), b + jj) == bl);
            }
        }
        b = b + w;
        k = k + 1;
    }
    true
}

/// `cs` with the ranges `ps` blanked (see [`blank_chars`]).
fn blank_out(cs: &[char], ps: &Vec<(usize, usize)>) -> (r: Vec<char>)
    requires
        byte_len(cs@) <= usize::MAX,
    ensures
        r@ == blank_chars(cs@, pairs(ps@)),
{
    let mut out: Vec<char> = Vec::new();
    let mut b: usize = 0;
    let mut k: usize = 0;
    assert(cs@.take(0) =~= Seq::<char>::empty());
    while k < cs.len()
        invariant
            k <= cs@.len(),
            b == byte_len(cs@.take(k as int)),
            byte_len(cs@) <= usize::MAX,
            out@ == blank_chars(cs@.take(k as int), pairs(ps@)),
        decreases cs@.len() - k,
    {
        proof {
            crate::text::lemma_byte_len_push(cs@.take(k as int), cs@[k as int]);
            assert(cs@.take(k as int).push(cs@[k as int]) == cs@.take(k + 1));
            crate::text::lemma_byte_len_concat(cs@.take(k + 1), cs@.skip(k + 1));
            assert(cs@.take(k + 1) + cs@.skip(k + 1) =~= cs@);
            assert(cs@.take(k + 1).drop_last() =~= cs@.take(k as int));
            assert(cs@.take(k + 1).last() == cs@[k as int]);
        }
        let c = cs[k];
        let w = width_of(c);
        let ghost before = out@;
        if c != '\n' && in_ranges(ps, b) {
            let mut j: usize = 0;
            while j < w
                invariant
                    j <= w,
                    out@ == before + Seq::new(j as nat, |q: int| ' '),
                decreases w - j,
            {
                out.push(' ');
                assert(out@ =~= before + Seq::new((j + 1) as nat, |q: int| ' '));
                j = j + 1;
            }
        } else {
            out.push(c);
            assert(out@ =~= before + seq![c]);
        }
        b = b + w;
        k = k + 1;
    }
    assert(cs@.take(k as int) =~= cs@);
    out
}

/// The line-by-line code surface of `code` (see [`line_surface`]).
fn line_surface_of(code: &[char]) -> (r: Vec<char>)
    ensures
        r@ == line_surface(code@),
{
    let ls = lines_exec(code);
    let ghost lv = views(ls@);
    let ghost mv = lv.map_values(|l: Seq<char>| surface_or_empty(l));
    let mut out: Vec<char> = Vec::new();
    let mut k: usize = 0;
    while k < ls.len()
        invariant
            k <= ls@.len(),
            lv == views(ls@),
            lv == lines_of(code@),
            mv == lv.map_values(|l: Seq<char>| surface_or_empty(l)),
            out@ == join_lines(mv.take(k as int)),
        decreases ls@.len() - k,
    {
        proof {
            assert(mv.take(k + 1).drop_last() =~= mv.take(k as int));
            assert(mv.take(k + 1).last() == surface_or_empty(ls@[k as int]@));
        }
        let piece: Vec<char> = match code_surface(string_of(ls[k].as_slice()).as_str()) {
            Some(t) => chars_of(t.as_str()),
            None => Vec::new(),
        };
        assert(piece@ == surface_or_empty(ls@[k as int]@));
        if k > 0 {
            out.push('\n');
        }
        append_chars(&mut out, piece.as_slice());
        proof {
            if k == 0 {
                assert(out@ =~= piece@);
            } else {
                assert(out@ =~= join_lines(mv.take(k as int)) + seq!['\n'] + piece@);
            }
        }
        k = k + 1;
    }
    assert(mv.take(k as int) =~= mv);
    out
}

/// `code` with the byte ranges `ps` blanked, or its line-by-line surface when that would
/// split a character (see [`blanked_text`]).
fn blank_text(code: &[char], ps: &Vec<(usize, usize)>) -> (r: Vec<char>)
    requires
        byte_len(code@) <= usize::MAX,
    ensures
        r@ == blanked_text(code@, pairs(ps@)),
{
    if blank_is_uniform(code, ps) {
        blank_out(code, ps)
    } else {
        line_surface_of(code)
    }
}

/// Adds the English-bearing spans of `n` to `out` (see [`english_spans`]).
fn collect_english(n: &crate::pattern::Syn, out: &mut Vec<(usize, usize)>)
    ensures
        pairs(final(out)@) == pairs(old(out)@) + english_spans(*n),
    decreases n,
{
    let k = chars_of(n.kind.as_str());
    if crate::text::contains(k.as_slice(), chars_of("string").as_slice()) || crate::text::contains(
        k.as_slice(),
        chars_of("comment").as_slice(),
    ) || crate::text::contains(k.as_slice(), chars_of("heredoc").as_slice()) || crate::text::contains(
        k.as_slice(),
        chars_of("char").as_slice(),
    ) {
        let ghost before = out@;
        out.push((n.start, n.end));
        assert(pairs(out@) =~= pairs(before) + seq![(n.start as int, n.end as int)]);
        return;
    }
    let ghost o0 = pairs(out@);
    let mut i: usize = 0;
    assert(n.children@.take(0) =~= Seq::<crate::pattern::Syn>::empty());
    while i < n.children.len()
        invariant
            i <= n.children@.len(),
            pairs(out@) == o0 + english_spans_all(n.children@.take(i as int)),
        decreases n.children@.len() - i,
    {
        proof {
            assert(n.children@.take(i + 1).drop_last() =~= n.children@.take(i as int));
            assert(n.children@.take(i + 1).last() == n.children@[i as int]);
        }
        let ghost before = pairs(out@);
        collect_english(&n.children[i], out);
        assert(o0 + english_spans_all(n.children@.take(i + 1)) =~= before + english_spans(n.children@[i as int]));
        i = i + 1;
    }
    assert(n.children@.take(i as int) =~= n.children@);
}

/// The code surface of a whole file given its parse tree (see [`file_surface`]).
pub fn surface_of(tree: Option<&crate::pattern::Syn>, code: &str) -> (r: String)
    requires
        byte_len(code@) <= usize::MAX,
        tree matches Some(t) ==> crate::pattern::spans_fit(*t, byte_len(code@) as int),
    ensures
        r@ == file_surface(crate::pattern::opt_syn(tree), code@),
{
    let cs = chars_of(code);
    match tree {
        Some(t) => {
            let mut spans: Vec<(usize, usize)> = Vec::new();
            assert(pairs(spans@) =~= Seq::<(int, int)>::empty());
            collect_english(t, &mut spans);
            assert(pairs(spans@) =~= english_spans(*t));
            string_of(blank_text(cs.as_slice(), &spans).as_slice())
        },
        None => string_of(line_surface_of(cs.as_slice()).as_slice()),
    }
}

/// The code surface of a whole file in `lang`: with a bundled grammar, every string,
/// comment, heredoc and character-literal node of its parse is blanked, byte for byte,
/// line feeds kept so line numbers stay put (see [`surface_of`]); without one, or when the
/// parse fails, the line-by-line surface: the surface given the parse of `code` (see
/// [`crate::pattern::parsed`]).
pub fn code_surface_file(lang: &str, code: &str) -> (r: String)
    requires
        byte_len(code@) <= usize::MAX,
    ensures
        !bundled_names().contains(lang@) ==> r@ == line_surface(code@),
        exists|t: Option<crate::pattern::Syn>|
            crate::pattern::is_parse(t, lang@, code@, byte_len(code@) as int) && (t matches Some(x)
                ==> crate::pattern::spans_fit(x, byte_len(code@) as int)) && r@ == #[trigger] file_surface(t, code@),
{
    let len = byte_count(chars_of(code).as_slice());
    let tree = crate::pattern::parse_within(lang, code, len);
    match &tree {
        Some(t) => surface_of(Some(t), code),
        None => surface_of(None, code),
    }
}

/// Clamps each range to the text's byte length `len`.
pub open spec fn clamped(v: Seq<(usize, usize)>, len: int) -> Seq<(int, int)> {
    v.map_values(
        |p: (usize, usize)|
            (if p.0 as int <= len {
                p.0 as int
            } else {
                len
            }, if p.1 as int <= len {
                p.1 as int
            } else {
                len
            }),
    )
}

/// `code` with the byte ranges `spans` (each clamped to the text) blanked, line feeds kept
/// (see [`blanked_text`]): the code surface without a second parse. Falls back to the
/// line-by-line surface where blanking would split a character. A range whose clamped start
/// lies past its clamped end is not a range.
pub fn blank_spans(code: &str, spans: &[(usize, usize)]) -> (r: String)
    requires
        byte_len(code@) <= usize::MAX,
        forall|i: int| 0 <= i < spans@.len() ==> #[trigger] clamped(spans@, byte_len(code@) as int)[i].0 <= clamped(
            spans@,
            byte_len(code@) as int,
        )[i].1,
    ensures
        r@ == blanked_text(code@, clamped(spans@, byte_len(code@) as int)),
{
    let cs = chars_of(code);
    let len = byte_count(cs.as_slice());
    let mut ps: Vec<(usize, usize)> = Vec::new();
    let mut i: usize = 0;
    while i < spans.len()
        invariant
            i <= spans@.len(),
            len == byte_len(code@),
            pairs(ps@) =~= clamped(spans@, len as int).take(i as int),
        decreases spans@.len() - i,
    {
        let (a, b) = spans[i];
        let lo = if a <= len {
            a
        } else {
            len
        };
        let hi = if b <= len {
            b
        } else {
            len
        };
        ps.push((lo, hi));
        assert(clamped(spans@, len as int).take(i + 1) =~= clamped(spans@, len as int).take(i as int).push(
            (lo as int, hi as int),
        ));
        i = i + 1;
    }
    assert(clamped(spans@, len as int).take(i as int) =~= clamped(spans@, len as int));
    string_of(blank_text(cs.as_slice(), &ps).as_slice())
}


/// How many line feeds `s` holds.
pub open spec fn line_feeds(s: Seq<char>) -> nat
    decreases s.len(),
{
    if s.len() == 0 {
        0
    } else {
        line_feeds(s.drop_last()) + if s.last() == '\n' {
            1nat
        } else {
            0nat
        }
    }
}

proof fn lemma_line_feeds_concat(a: Seq<char>, b: Seq<char>)
    ensures
        line_feeds(a + b) == line_feeds(a) + line_feeds(b),
    decreases b.len(),
{
    if b.len() == 0 {
        assert(a + b =~= a);
    } else {
        assert((a + b).drop_last() =~= a + b.drop_last());
        lemma_line_feeds_concat(a, b.drop_last());
    }
}

proof fn lemma_spaces(w: nat)
    ensures
        line_feeds(Seq::new(w, |j: int| ' ')) == 0,
        byte_len(Seq::new(w, |j: int| ' ')) == w,
    decreases w,
{
    if w > 0 {
        lemma_spaces((w - 1) as nat);
        assert(Seq::new(w, |j: int| ' ').drop_last() =~= Seq::new((w - 1) as nat, |j: int| ' '));
        crate::text::lemma_byte_len_push(Seq::new((w - 1) as nat, |j: int| ' '), ' ');
        assert(Seq::new((w - 1) as nat, |j: int| ' ').push(' ') =~= Seq::new(w, |j: int| ' '));
    } else {
        assert(Seq::new(w, |j: int| ' ') =~= Seq::<char>::empty());
    }
}

/// Blanking keeps the text's size and its lines: the blanked text has the byte length of
/// the text and as many line feeds, since a blanked character becomes one space per byte
/// and a line feed is never blanked.
pub proof fn law_blanking_keeps_size_and_lines(cs: Seq<char>, ps: Seq<(int, int)>)
    ensures
        byte_len(blank_chars(cs, ps)) == byte_len(cs),
        line_feeds(blank_chars(cs, ps)) == line_feeds(cs),
    decreases cs.len(),
{
    if cs.len() > 0 {
        let dl = cs.drop_last();
        let c = cs.last();
        law_blanking_keeps_size_and_lines(dl, ps);
        let piece = if c != '\n' && blanked(ps, byte_len(dl) as int) {
            Seq::new(crate::text::utf8_width(c), |j: int| ' ')
        } else {
            seq![c]
        };
        assert(blank_chars(cs, ps) == blank_chars(dl, ps) + piece);
        crate::text::lemma_byte_len_concat(blank_chars(dl, ps), piece);
        lemma_line_feeds_concat(blank_chars(dl, ps), piece);
        crate::text::lemma_byte_len_push(dl, c);
        assert(dl.push(c) =~= cs);
        lemma_line_feeds_concat(dl, seq![c]);
        assert(dl + seq![c] =~= cs);
        assert(seq![c].drop_last() =~= Seq::<char>::empty());
        crate::text::lemma_byte_len_concat(Seq::<char>::empty(), seq![c]);
        crate::text::lemma_byte_len_push(Seq::<char>::empty(), c);
        assert(Seq::<char>::empty().push(c) =~= seq![c]);
        if c != '\n' && blanked(ps, byte_len(dl) as int) {
            lemma_spaces(crate::text::utf8_width(c));
        }
    }
}

} // verus!
