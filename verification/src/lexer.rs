//! The code-aware lexer the mixture of experts reads code through. It is lossy on purpose:
//! every string or character literal becomes `<str>`, every number `<num>`, every comment
//! `<comment>`, so two windows that differ only in a literal read alike. Identifiers,
//! two-character operators and single punctuation characters are kept verbatim, each with
//! the 1-based line it starts on.

use vstd::prelude::*;
use crate::text::{
    ascii_alnum, ascii_alpha, ascii_digit, is_alphabetic, is_alphanumeric, is_ascii_alnum,
    is_ascii_alpha, is_ascii_digit, is_whitespace, slice_chars, unicode_alphabetic,
    unicode_alphanumeric, unicode_white_space,
};

verus! {

/// `<str>`, the class token of a string or character literal.
pub open spec fn str_class() -> Seq<char> {
    seq!['<', 's', 't', 'r', '>']
}

/// `<num>`, the class token of a number.
pub open spec fn num_class() -> Seq<char> {
    seq!['<', 'n', 'u', 'm', '>']
}

/// `<comment>`, the class token of a comment.
pub open spec fn comment_class() -> Seq<char> {
    seq!['<', 'c', 'o', 'm', 'm', 'e', 'n', 't', '>']
}

/// A character that may start an identifier.
pub open spec fn ident_start(c: char) -> bool {
    ascii_alpha(c) || c == '_' || ((c as u32) >= 128 && unicode_alphabetic(c))
}

/// A character that may continue an identifier.
pub open spec fn ident_char(c: char) -> bool {
    ascii_alnum(c) || c == '_' || ((c as u32) >= 128 && unicode_alphanumeric(c))
}

/// A character that continues a number.
pub open spec fn num_char(c: char) -> bool {
    ascii_alnum(c) || c == '_'
}

/// The two-character operators read as one token.
pub open spec fn is_op2(a: char, b: char) -> bool {
    (b == '=' && (a == '=' || a == '!' || a == '<' || a == '>' || a == '+' || a == '-' || a == '*'
        || a == '/')) || (a == '&' && b == '&') || (a == '|' && b == '|') || (a == '-' && b == '>')
        || (a == '=' && b == '>') || (a == ':' && b == ':') || (a == '.' && b == '.') || (a == '<'
        && b == '<') || (a == '>' && b == '>')
}

/// The end of the identifier run that continues at `j`.
pub open spec fn ident_end(s: Seq<char>, j: int) -> int
    decreases s.len() - j,
{
    if j < s.len() && ident_char(s[j]) {
        ident_end(s, j + 1)
    } else {
        j
    }
}

/// The end of the number run that continues at `j`.
pub open spec fn num_end(s: Seq<char>, j: int) -> int
    decreases s.len() - j,
{
    if j < s.len() && num_char(s[j]) {
        num_end(s, j + 1)
    } else {
        j
    }
}

/// The index of the first line break at or after `j`, or the end of `s`.
pub open spec fn line_end(s: Seq<char>, j: int) -> int
    decreases s.len() - j,
{
    if j < s.len() && s[j] != '\n' {
        line_end(s, j + 1)
    } else {
        j
    }
}

/// The index just past the `*/` that closes a block comment whose body starts at `j`, or
/// the end of `s`.
pub open spec fn block_end(s: Seq<char>, j: int) -> int
    decreases s.len() - j,
{
    if j >= s.len() || j < 0 {
        s.len() as int
    } else if j + 1 < s.len() && s[j] == '*' && s[j + 1] == '/' {
        j + 2
    } else {
        block_end(s, j + 1)
    }
}

/// The index just past the `"` that closes a string whose body starts at `j` (a backslash
/// escapes the character after it), or the end of `s`.
pub open spec fn str_end(s: Seq<char>, j: int) -> int
    decreases s.len() - j,
{
    if j >= s.len() || j < 0 {
        s.len() as int
    } else if s[j] == '\\' {
        if j + 2 >= s.len() {
            s.len() as int
        } else {
            str_end(s, j + 2)
        }
    } else if s[j] == '"' {
        j + 1
    } else {
        str_end(s, j + 1)
    }
}

/// The length of the character literal opening at `i` (`'x'` or `'\x'`), or 0 when the
/// quote opens none (a lifetime, a stray quote).
pub open spec fn char_lit_len(s: Seq<char>, i: int) -> int {
    if i + 2 < s.len() && s[i + 1] != '\\' && s[i + 1] != '\'' && s[i + 2] == '\'' {
        3
    } else if i + 3 < s.len() && s[i + 1] == '\\' && s[i + 3] == '\'' {
        4
    } else {
        0
    }
}

/// The number of line breaks in `t`.
pub open spec fn breaks(t: Seq<char>) -> nat
    decreases t.len(),
{
    if t.len() == 0 {
        0
    } else {
        breaks(t.drop_last()) + if t.last() == '\n' {
            1nat
        } else {
            0nat
        }
    }
}

/// `e` when it lies past `i` and within `s`, else `i + 1` (every token moves the scan forward).
pub open spec fn past(s: Seq<char>, e: int, i: int) -> int {
    if e > i && e <= s.len() {
        e
    } else {
        i + 1
    }
}

/// The tokens of `s` from index `i` on, the scan standing on line `line`: each token's text
/// and the line it starts on.
pub open spec fn lex_from(s: Seq<char>, i: int, line: int) -> Seq<(Seq<char>, int)>
    decreases s.len() - i,
{
    if i < 0 || i >= s.len() {
        Seq::empty()
    } else {
        let c = s[i];
        if c == '\n' {
            lex_from(s, i + 1, line + 1)
        } else if unicode_white_space(c) {
            lex_from(s, i + 1, line)
        } else if c == '/' && i + 1 < s.len() && s[i + 1] == '/' {
            let e = past(s, line_end(s, i + 2), i);
            seq![(comment_class(), line)] + lex_from(s, e, line)
        } else if c == '/' && i + 1 < s.len() && s[i + 1] == '*' {
            let e = past(s, block_end(s, i + 2), i);
            seq![(comment_class(), line)] + lex_from(s, e, line + breaks(s.subrange(i, e)))
        } else if c == '"' {
            let e = past(s, str_end(s, i + 1), i);
            seq![(str_class(), line)] + lex_from(s, e, line + breaks(s.subrange(i, e)))
        } else if c == '\'' && char_lit_len(s, i) > 0 {
            seq![(str_class(), line)] + lex_from(s, i + char_lit_len(s, i), line)
        } else if ascii_digit(c) {
            let e = past(s, num_end(s, i + 1), i);
            seq![(num_class(), line)] + lex_from(s, e, line)
        } else if ident_start(c) {
            let e = past(s, ident_end(s, i + 1), i);
            seq![(s.subrange(i, e), line)] + lex_from(s, e, line)
        } else if i + 1 < s.len() && is_op2(c, s[i + 1]) {
            seq![(s.subrange(i, i + 2), line)] + lex_from(s, i + 2, line)
        } else {
            seq![(seq![c], line)] + lex_from(s, i + 1, line)
        }
    }
}

/// The tokens of `s` with their 1-based lines.
pub open spec fn lex(s: Seq<char>) -> Seq<(Seq<char>, int)> {
    lex_from(s, 0, 1)
}

/// The token texts of `s`.
pub open spec fn lex_texts(s: Seq<char>) -> Seq<Seq<char>> {
    lex(s).map_values(|t: (Seq<char>, int)| t.0)
}

proof fn lemma_breaks_split(s: Seq<char>, a: int, b: int)
    requires
        0 <= a < b <= s.len(),
    ensures
        breaks(s.subrange(a, b)) == breaks(s.subrange(a, b - 1)) + if s[b - 1] == '\n' {
            1nat
        } else {
            0nat
        },
{
    assert(s.subrange(a, b).drop_last() =~= s.subrange(a, b - 1));
}

fn class_token(kind: u8) -> (r: Vec<char>)
    ensures
        kind == 0 ==> r@ == str_class(),
        kind == 1 ==> r@ == num_class(),
        kind != 0 && kind != 1 ==> r@ == comment_class(),
{
    if kind == 0 {
        let r = vec!['<', 's', 't', 'r', '>'];
        assert(r@ =~= str_class());
        r
    } else if kind == 1 {
        let r = vec!['<', 'n', 'u', 'm', '>'];
        assert(r@ =~= num_class());
        r
    } else {
        let r = vec!['<', 'c', 'o', 'm', 'm', 'e', 'n', 't', '>'];
        assert(r@ =~= comment_class());
        r
    }
}

fn is_ident_start(c: char) -> (r: bool)
    ensures
        r == ident_start(c),
{
    is_ascii_alpha(c) || c == '_' || ((c as u32) >= 128 && is_alphabetic(c))
}

fn is_ident_char(c: char) -> (r: bool)
    ensures
        r == ident_char(c),
{
    is_ascii_alnum(c) || c == '_' || ((c as u32) >= 128 && is_alphanumeric(c))
}

fn op2(a: char, b: char) -> (r: bool)
    ensures
        r == is_op2(a, b),
{
    (b == '=' && (a == '=' || a == '!' || a == '<' || a == '>' || a == '+' || a == '-' || a == '*'
        || a == '/')) || (a == '&' && b == '&') || (a == '|' && b == '|') || (a == '-' && b == '>')
        || (a == '=' && b == '>') || (a == ':' && b == ':') || (a == '.' && b == '.') || (a == '<'
        && b == '<') || (a == '>' && b == '>')
}

/// Where the run of identifier (`ident` true) or number characters continuing at `j` ends.
fn run_end(s: &[char], j: usize, ident: bool) -> (r: usize)
    requires
        j <= s@.len(),
    ensures
        j <= r <= s@.len(),
        ident ==> r == ident_end(s@, j as int),
        !ident ==> r == num_end(s@, j as int),
    decreases s@.len() - j,
{
    if j < s.len() && ((ident && is_ident_char(s[j])) || (!ident && is_ascii_alnum(s[j]))
        || (!ident && s[j] == '_')) {
        run_end(s, j + 1, ident)
    } else {
        j
    }
}

fn to_line_end(s: &[char], j: usize) -> (r: usize)
    requires
        j <= s@.len(),
    ensures
        j <= r <= s@.len(),
        r == line_end(s@, j as int),
    decreases s@.len() - j,
{
    if j < s.len() && s[j] != '\n' {
        to_line_end(s, j + 1)
    } else {
        j
    }
}

fn to_block_end(s: &[char], j: usize) -> (r: usize)
    requires
        j <= s@.len(),
    ensures
        j <= r <= s@.len(),
        r == block_end(s@, j as int),
    decreases s@.len() - j,
{
    if j >= s.len() {
        s.len()
    } else if j + 1 < s.len() && s[j] == '*' && s[j + 1] == '/' {
        j + 2
    } else {
        to_block_end(s, j + 1)
    }
}

fn to_str_end(s: &[char], j: usize) -> (r: usize)
    requires
        j <= s@.len(),
    ensures
        j <= r <= s@.len(),
        r == str_end(s@, j as int),
    decreases s@.len() - j,
{
    if j >= s.len() {
        s.len()
    } else if s[j] == '\\' {
        if s.len() - j <= 2 {
            s.len()
        } else {
            to_str_end(s, j + 2)
        }
    } else if s[j] == '"' {
        j + 1
    } else {
        to_str_end(s, j + 1)
    }
}

fn lit_len(s: &[char], i: usize) -> (r: usize)
    requires
        i < s@.len(),
    ensures
        r == char_lit_len(s@, i as int),
        i + r <= s@.len(),
{
    let n = s.len();
    if n - i > 2 && s[i + 1] != '\\' && s[i + 1] != '\'' && s[i + 2] == '\'' {
        3
    } else if n - i > 3 && s[i + 1] == '\\' && s[i + 3] == '\'' {
        4
    } else {
        0
    }
}

/// The number of line breaks in `s[a..b]`.
fn count_breaks(s: &[char], a: usize, b: usize) -> (r: usize)
    requires
        a <= b <= s@.len(),
    ensures
        r == breaks(s@.subrange(a as int, b as int)),
        r <= b - a,
{
    let mut k: usize = a;
    let mut c: usize = 0;
    while k < b
        invariant
            a <= k <= b <= s@.len(),
            c == breaks(s@.subrange(a as int, k as int)),
            c <= k - a,
        decreases b - k,
    {
        proof {
            lemma_breaks_split(s@, a as int, k + 1);
        }
        if s[k] == '\n' {
            c = c + 1;
        }
        k = k + 1;
    }
    c
}

/// The tokens of `s`, each with the 1-based line it starts on (see [`lex`]).
pub fn lex_chars(s: &[char]) -> (r: Vec<(Vec<char>, usize)>)
    ensures
        r@.len() == lex(s@).len(),
        forall|k: int|
            0 <= k < r@.len() ==> r@[k].0@ == #[trigger] lex(s@)[k].0 && r@[k].1 == lex(s@)[k].1,
{
    let n = s.len();
    let mut out: Vec<(Vec<char>, usize)> = Vec::new();
    let mut i: usize = 0;
    let mut line: usize = 1;
    let ghost mut done: Seq<(Seq<char>, int)> = Seq::empty();
    while i < n
        invariant
            n == s@.len(),
            i <= n,
            1 <= line <= i + 1,
            done + lex_from(s@, i as int, line as int) == lex(s@),
            out@.len() == done.len(),
            forall|k: int| 0 <= k < out@.len() ==> out@[k].0@ == #[trigger] done[k].0 && out@[k].1 == done[k].1,
        decreases n - i,
    {
        let c = s[i];
        let ghost rest_before = lex_from(s@, i as int, line as int);
        let mut tok: Option<Vec<char>> = None;
        let mut next: usize = i + 1;
        let mut next_line: usize = line;
        if c == '\n' {
            if i + 1 < n {
                next_line = line + 1;
            }
            proof {
                assert(rest_before == lex_from(s@, i + 1, line + 1));
            }
        } else if is_whitespace(c) {
        } else if c == '/' && i + 1 < n && s[i + 1] == '/' {
            next = to_line_end(s, i + 2);
            tok = Some(class_token(2));
        } else if c == '/' && i + 1 < n && s[i + 1] == '*' {
            next = to_block_end(s, i + 2);
            let b = count_breaks(s, i, next);
            if next < n {
                next_line = line + b;
            }
            proof {
                let l2 = line + breaks(s@.subrange(i as int, next as int));
                if next == n {
                    assert(lex_from(s@, next as int, l2) == Seq::<(Seq<char>, int)>::empty());
                    assert(lex_from(s@, next as int, next_line as int) == Seq::<(Seq<char>, int)>::empty());
                }
                assert(lex_from(s@, next as int, l2) == lex_from(s@, next as int, next_line as int));
            }
            tok = Some(class_token(2));
        } else if c == '"' {
            next = to_str_end(s, i + 1);
            let b = count_breaks(s, i, next);
            if next < n {
                next_line = line + b;
            }
            proof {
                let l2 = line + breaks(s@.subrange(i as int, next as int));
                if next == n {
                    assert(lex_from(s@, next as int, l2) == Seq::<(Seq<char>, int)>::empty());
                    assert(lex_from(s@, next as int, next_line as int) == Seq::<(Seq<char>, int)>::empty());
                }
                assert(lex_from(s@, next as int, l2) == lex_from(s@, next as int, next_line as int));
            }
            tok = Some(class_token(0));
        } else if c == '\'' && lit_len(s, i) > 0 {
            next = i + lit_len(s, i);
            tok = Some(class_token(0));
        } else if is_ascii_digit(c) {
            next = run_end(s, i + 1, false);
            tok = Some(class_token(1));
        } else if is_ident_start(c) {
            next = run_end(s, i + 1, true);
            tok = Some(slice_chars(s, i, next));
        } else if i + 1 < n && op2(c, s[i + 1]) {
            next = i + 2;
            tok = Some(slice_chars(s, i, i + 2));
        } else {
            let v = vec![c];
            assert(v@ =~= seq![c]);
            tok = Some(v);
        }
        proof {
            assert(next > i);
            assert(next_line <= next + 1);
            assert(lex_from(s@, n as int, line + 1) == Seq::<(Seq<char>, int)>::empty());
            assert(lex_from(s@, n as int, next_line as int) == Seq::<(Seq<char>, int)>::empty());
        }
        match tok {
            Some(t) => {
                let ghost tv = t@;
                out.push((t, line));
                proof {
                    assert(rest_before == seq![(tv, line as int)] + lex_from(s@, next as int, next_line as int));
                    done = done.push((tv, line as int));
                    assert(done + lex_from(s@, next as int, next_line as int) =~= (done.drop_last()) + rest_before);
                }
            },
            None => {
                proof {
                    assert(rest_before == lex_from(s@, next as int, next_line as int));
                }
            },
        }
        i = next;
        line = next_line;
    }
    proof {
        assert(done + Seq::<(Seq<char>, int)>::empty() =~= done);
    }
    out
}

} // verus!
