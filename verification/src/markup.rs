//! Reading a raw documentation page into units of code and the prose that governs them.
//! No tag is consulted by name: a `<…>` run is one markup token, whitespace separates
//! words, and the register of the text between markup tokens — the share of its words
//! the English lexicon accounts for — decides what is code. Learned tag roles (by element
//! name seed) and a learned title-shape ceiling bound the governing prose.

use vstd::prelude::*;
use crate::hv::{fnv, fnv_hash};
use crate::lang_layer::{strip_code, strip_code_spec};
use crate::text::{
    ascii_alnum, ascii_lower, ascii_lower_seq, byte_len, byte_len_at_least, chars_eq, lemma_byte_len_concat,
    lemma_byte_len_push, utf8_width, width_of, chars_of, ends_with, find, find_from, is_alphabetic,
    is_alphanumeric, is_ascii_alnum, is_whitespace, lemma_find_from, lowercase, slice_chars, split_words,
    starts_with, strip_trailing, string_of, to_ascii_lower, to_lowercase, trim, trim_trailing, trimmed, unicode_alphabetic,
    unicode_alphanumeric, unicode_white_space, views, words, lemma_words_len,
};

verus! {

broadcast use vstd::string::group_string_axioms;

// ── The lexicon and the learned brain ────────────────────────────────────────

/// The English words a reader knows, each written in lower case: the judgment that tells a
/// dictionary word from code typography.
pub struct Lexicon {
    pub words: Vec<String>,
}

/// Whether the lexicon `lex` knows `w`, compared in lower case.
pub open spec fn knows(lex: Seq<Seq<char>>, w: Seq<char>) -> bool {
    lex.contains(lowercase(w))
}

impl Lexicon {
    /// Whether the lexicon knows `w` (see [`knows`]).
    pub fn knows(&self, w: &[char]) -> (r: bool)
        ensures
            r == knows(self.words.deep_view(), w@),
    {
        let low = to_lowercase(w);
        let mut i: usize = 0;
        while i < self.words.len()
            invariant
                i <= self.words@.len(),
                low@ == lowercase(w@),
                forall|k: int| 0 <= k < i ==> self.words.deep_view()[k] != low@,
            decreases self.words@.len() - i,
        {
            let c = chars_of(self.words[i].as_str());
            if chars_eq(c.as_slice(), low.as_slice()) {
                assert(self.words.deep_view()[i as int] == low@);
                return true;
            }
            i = i + 1;
        }
        proof {
            if self.words.deep_view().contains(lowercase(w@)) {
                let k = choose|k: int| 0 <= k < self.words.deep_view().len() && self.words.deep_view()[k] == lowercase(w@);
                assert(self.words.deep_view()[k] != low@);
            }
        }
        false
    }
}

/// The learned reading calibration: the prose/code English-density split per mille, the
/// title-shape word ceiling, the learned tag roles (element name seed, `+1` a code carrier,
/// `-1` a section heading; sorted by seed), the pages read, and the fingerprint of the
/// reading it was calibrated from.
pub struct Markup {
    pub split_pm: u32,
    pub title_ceiling: u32,
    pub tag_roles: Vec<(u64, i8)>,
    pub pages_read: u64,
    pub source_fp: u64,
}

/// Whether the roles are sorted by seed, no seed twice.
pub open spec fn roles_sorted(roles: Seq<(u64, i8)>) -> bool {
    forall|i: int, j: int| 0 <= i < j < roles.len() ==> roles[i].0 < roles[j].0
}

/// The index of the first role of `seed`, or -1.
pub open spec fn role_index(roles: Seq<(u64, i8)>, seed: u64) -> int
    decreases roles.len(),
{
    if roles.len() == 0 {
        -1
    } else if role_index(roles.drop_last(), seed) >= 0 {
        role_index(roles.drop_last(), seed)
    } else if roles.last().0 == seed {
        roles.len() - 1
    } else {
        -1
    }
}

proof fn lemma_role_index(roles: Seq<(u64, i8)>, seed: u64)
    ensures
        -1 <= role_index(roles, seed) < roles.len(),
        role_index(roles, seed) >= 0 ==> roles[role_index(roles, seed)].0 == seed,
        role_index(roles, seed) < 0 ==> forall|j: int| 0 <= j < roles.len() ==> roles[j].0 != seed,
    decreases roles.len(),
{
    if roles.len() > 0 {
        lemma_role_index(roles.drop_last(), seed);
        assert forall|j: int| 0 <= j < roles.len() - 1 implies roles.drop_last()[j] == roles[j] by {}
    }
}

proof fn lemma_role_index_push(t: Seq<(u64, i8)>, e: (u64, i8), seed: u64)
    ensures
        role_index(t.push(e), seed) == (if role_index(t, seed) >= 0 {
            role_index(t, seed)
        } else if e.0 == seed {
            t.len() as int
        } else {
            -1
        }),
{
    assert(t.push(e).drop_last() =~= t);
}

/// The roles `roles` sorted by seed, keeping the first role given for each seed: what a
/// stored brain's roles become before the reader looks them up.
pub fn sorted_roles(roles: &Vec<(u64, i8)>) -> (r: Vec<(u64, i8)>)
    ensures
        roles_sorted(r@),
        forall|p: (u64, i8)| r@.contains(p) <==> role_index(roles@, p.0) >= 0 && roles@[role_index(roles@, p.0)] == p,
{
    let mut out: Vec<(u64, i8)> = Vec::new();
    let mut k: usize = 0;
    while k < roles.len()
        invariant
            k <= roles@.len(),
            roles_sorted(out@),
            forall|p: (u64, i8)| out@.contains(p) <==> role_index(roles@.take(k as int), p.0) >= 0 && roles@.take(
                k as int,
            )[role_index(roles@.take(k as int), p.0)] == p,
        decreases roles@.len() - k,
    {
        let e = roles[k];
        let ghost t = roles@.take(k as int);
        proof {
            assert(roles@.take(k + 1) =~= t.push(e));
            lemma_role_index(t, e.0);
        }
        let mut pos: usize = 0;
        while pos < out.len() && out[pos].0 < e.0
            invariant
                pos <= out@.len(),
                forall|x: int| 0 <= x < pos ==> out@[x].0 < e.0,
            decreases out@.len() - pos,
        {
            pos = pos + 1;
        }
        let seen = pos < out.len() && out[pos].0 == e.0;
        proof {
            if role_index(t, e.0) >= 0 {
                let q = t[role_index(t, e.0)];
                assert(out@.contains(q));
                let x = choose|x: int| 0 <= x < out@.len() && out@[x] == q;
                if x < pos {
                    assert(out@[x].0 < e.0);
                } else if pos < out@.len() && x > pos {
                    assert(out@[pos as int].0 < out@[x].0);
                }
                assert(seen);
            }
            if seen {
                assert(out@.contains(out@[pos as int]));
            }
        }
        if !seen {
            let ghost old_out = out@;
            proof {
                if pos < out@.len() {
                    assert(out@[pos as int].0 > e.0);
                }
            }
            out.insert(pos, e);
            proof {
                assert(out@ == old_out.insert(pos as int, e));
                assert forall|a: int, b: int| 0 <= a < b < out@.len() implies out@[a].0 < out@[b].0 by {
                    if b < pos {
                        assert(out@[a] == old_out[a] && out@[b] == old_out[b]);
                    } else if b == pos {
                        assert(out@[a] == old_out[a]);
                    } else if a < pos {
                        assert(out@[a] == old_out[a] && out@[b] == old_out[b - 1]);
                        assert(old_out[pos as int].0 > e.0);
                        assert(old_out[pos as int].0 <= old_out[b - 1].0);
                    } else if a == pos {
                        assert(out@[b] == old_out[b - 1]);
                        assert(old_out[pos as int].0 > e.0);
                        assert(old_out[pos as int].0 <= old_out[b - 1].0);
                    } else {
                        assert(out@[a] == old_out[a - 1] && out@[b] == old_out[b - 1]);
                    }
                }
                assert forall|p: (u64, i8)| out@.contains(p) <==> role_index(t.push(e), p.0) >= 0 && t.push(e)[role_index(
                    t.push(e),
                    p.0,
                )] == p by {
                    lemma_role_index_push(t, e, p.0);
                    lemma_role_index(t, p.0);
                    if out@.contains(p) {
                        let x = choose|x: int| 0 <= x < out@.len() && out@[x] == p;
                        if x < pos {
                            assert(old_out[x] == p);
                            assert(old_out.contains(p));
                        } else if x > pos {
                            assert(old_out[x - 1] == p);
                            assert(old_out.contains(p));
                        }
                    }
                    if role_index(t.push(e), p.0) >= 0 && t.push(e)[role_index(t.push(e), p.0)] == p {
                        if role_index(t, p.0) >= 0 {
                            assert(t.push(e)[role_index(t, p.0)] == t[role_index(t, p.0)]);
                            assert(old_out.contains(p));
                            let x = choose|x: int| 0 <= x < old_out.len() && old_out[x] == p;
                            if x < pos {
                                assert(out@[x] == p);
                            } else {
                                assert(out@[x + 1] == p);
                            }
                        } else {
                            assert(p == e);
                            assert(out@[pos as int] == p);
                        }
                    }
                }
            }
        } else {
            proof {
                assert forall|p: (u64, i8)| out@.contains(p) <==> role_index(t.push(e), p.0) >= 0 && t.push(e)[role_index(
                    t.push(e),
                    p.0,
                )] == p by {
                    lemma_role_index_push(t, e, p.0);
                    lemma_role_index(t, p.0);
                    if role_index(t, p.0) >= 0 {
                        assert(t.push(e)[role_index(t, p.0)] == t[role_index(t, p.0)]);
                    } else if p.0 == e.0 {
                        assert(role_index(t, e.0) >= 0);
                    }
                }
            }
        }
        k = k + 1;
    }
    assert(roles@.take(k as int) =~= roles@);
    out
}

/// The learned role of the element whose name hashes to `seed`: `Some(true)` a code
/// carrier, `Some(false)` a section heading, `None` no decisive role.
pub open spec fn role_of(roles: Seq<(u64, i8)>, seed: u64) -> Option<bool> {
    let i = role_index(roles, seed);
    if i >= 0 {
        Some(roles[i].1 > 0)
    } else {
        None
    }
}

/// The role of a gap given the elements containing it, innermost last: the innermost
/// element with a learned role decides.
pub open spec fn stack_role(roles: Seq<(u64, i8)>, stack: Seq<(u32, u64)>) -> Option<bool>
    decreases stack.len(),
{
    if stack.len() == 0 {
        None
    } else {
        match role_of(roles, stack.last().1) {
            Some(b) => Some(b),
            None => stack_role(roles, stack.drop_last()),
        }
    }
}

impl Markup {
    /// Whether this brain can read pages: it was calibrated (both the split and the
    /// ceiling are set).
    pub fn is_ready(&self) -> (r: bool)
        ensures
            r == (self.split_pm > 0 && self.title_ceiling > 0),
    {
        self.split_pm > 0 && self.title_ceiling > 0
    }

    /// The learned role of the element whose name hashes to `seed` (see [`role_of`]), by
    /// binary search over the sorted roles.
    pub fn tag_role(&self, seed: u64) -> (r: Option<bool>)
        requires
            roles_sorted(self.tag_roles@),
        ensures
            r == role_of(self.tag_roles@, seed),
    {
        proof {
            lemma_role_index(self.tag_roles@, seed);
        }
        let mut lo: usize = 0;
        let mut hi: usize = self.tag_roles.len();
        while lo < hi
            invariant
                hi <= self.tag_roles@.len(),
                lo <= hi,
                roles_sorted(self.tag_roles@),
                forall|j: int| 0 <= j < lo ==> self.tag_roles@[j].0 < seed,
                forall|j: int| hi <= j < self.tag_roles@.len() ==> self.tag_roles@[j].0 > seed,
            decreases hi - lo,
        {
            let mid = lo + (hi - lo) / 2;
            let k = self.tag_roles[mid].0;
            if k == seed {
                proof {
                    lemma_role_index(self.tag_roles@, seed);
                    let i = role_index(self.tag_roles@, seed);
                    assert(i >= 0);
                    if i < mid {
                        assert(self.tag_roles@[i].0 < self.tag_roles@[mid as int].0);
                    } else if i > mid {
                        assert(self.tag_roles@[mid as int].0 < self.tag_roles@[i].0);
                    }
                    assert(i == mid);
                    assert(role_of(self.tag_roles@, seed) == Some(self.tag_roles@[mid as int].1 > 0));
                }
                return Some(self.tag_roles[mid].1 > 0);
            } else if k < seed {
                lo = mid + 1;
            } else {
                hi = mid;
            }
        }
        proof {
            lemma_role_index(self.tag_roles@, seed);
        }
        None
    }

    /// The role of a gap contained by the elements `stack`, innermost last (see
    /// [`stack_role`]).
    pub fn stack_role(&self, stack: &Vec<(u32, u64)>) -> (r: Option<bool>)
        requires
            roles_sorted(self.tag_roles@),
        ensures
            r == stack_role(self.tag_roles@, stack@),
    {
        let mut i: usize = stack.len();
        assert(stack@.take(i as int) =~= stack@);
        while i > 0
            invariant
                i <= stack@.len(),
                roles_sorted(self.tag_roles@),
                stack_role(self.tag_roles@, stack@) == stack_role(self.tag_roles@, stack@.take(i as int)),
            decreases i,
        {
            proof {
                assert(stack@.take(i as int).drop_last() =~= stack@.take(i - 1));
            }
            match self.tag_role(stack[i - 1].1) {
                Some(b) => {
                    return Some(b);
                },
                None => {},
            }
            i = i - 1;
        }
        None
    }
}

/// Whether two containment stacks nest: one is a prefix of the other.
pub open spec fn stacks_nest(a: Seq<(u32, u64)>, b: Seq<(u32, u64)>) -> bool {
    if a.len() <= b.len() {
        b.take(a.len() as int) == a
    } else {
        a.take(b.len() as int) == b
    }
}

/// Whether `short` is a prefix of `long`.
fn is_prefix(short: &Vec<(u32, u64)>, long: &Vec<(u32, u64)>) -> (r: bool)
    requires
        short@.len() <= long@.len(),
    ensures
        r == (long@.take(short@.len() as int) == short@),
{
    let mut i: usize = 0;
    while i < short.len()
        invariant
            short@.len() <= long@.len(),
            i <= short@.len(),
            forall|k: int| 0 <= k < i ==> short@[k] == long@[k],
        decreases short@.len() - i,
    {
        if short[i].0 != long[i].0 || short[i].1 != long[i].1 {
            assert(long@.take(short@.len() as int)[i as int] != short@[i as int]);
            return false;
        }
        i = i + 1;
    }
    assert(long@.take(short@.len() as int) =~= short@);
    true
}

/// Whether two containment stacks nest (see [`stacks_nest`]).
pub fn stacks_nest_exec(a: &Vec<(u32, u64)>, b: &Vec<(u32, u64)>) -> (r: bool)
    ensures
        r == stacks_nest(a@, b@),
{
    if a.len() <= b.len() {
        is_prefix(a, b)
    } else {
        is_prefix(b, a)
    }
}

// ── The word stream ──────────────────────────────────────────────────────────

/// One text gap between markup tokens, as plain values: its character range, its word
/// and English-word counts, whether it holds sentence punctuation, a prose sentence
/// terminal, or code typography, and the elements containing it (instance, name seed),
/// outermost first.
pub struct GapV {
    pub start: int,
    pub end: int,
    pub words: nat,
    pub english: nat,
    pub punctuated: bool,
    pub terminal: bool,
    pub symbolic: bool,
    pub stack: Seq<(u32, u64)>,
}

/// `s` without leading characters that are not alphanumeric.
pub open spec fn trim_nonalnum_start(s: Seq<char>) -> Seq<char>
    decreases s.len(),
{
    if s.len() > 0 && !unicode_alphanumeric(s[0]) {
        trim_nonalnum_start(s.drop_first())
    } else {
        s
    }
}

/// `s` without trailing characters that are not alphanumeric.
pub open spec fn trim_nonalnum_end(s: Seq<char>) -> Seq<char>
    decreases s.len(),
{
    if s.len() > 0 && !unicode_alphanumeric(s.last()) {
        trim_nonalnum_end(s.drop_last())
    } else {
        s
    }
}

/// `s` with non-alphanumeric characters trimmed from both ends.
pub open spec fn trim_nonalnum(s: Seq<char>) -> Seq<char> {
    trim_nonalnum_end(trim_nonalnum_start(s))
}

/// Whether the whitespace word `w` is an English word: its alphanumerically trimmed
/// surface is nonempty, all alphabetic, and known to the lexicon.
pub open spec fn english_word(lex: Seq<Seq<char>>, w: Seq<char>) -> bool {
    let t = trim_nonalnum(w);
    t.len() > 0 && all_alphabetic(t) && knows(lex, t)
}

/// Whether every character of `t` is alphabetic.
pub open spec fn all_alphabetic(t: Seq<char>) -> bool {
    forall|i: int| 0 <= i < t.len() ==> unicode_alphabetic(#[trigger] t[i])
}

/// How many of the words `ws` are English.
pub open spec fn english_count(lex: Seq<Seq<char>>, ws: Seq<Seq<char>>) -> nat
    decreases ws.len(),
{
    if ws.len() == 0 {
        0
    } else {
        english_count(lex, ws.drop_last()) + if english_word(lex, ws.last()) { 1nat } else { 0nat }
    }
}

/// A sentence punctuation mark.
pub open spec fn sentence_mark(c: char) -> bool {
    c == '.' || c == ';' || c == '!' || c == '?'
}

/// A prose sentence terminal mark.
pub open spec fn terminal_mark(c: char) -> bool {
    c == '.' || c == '!' || c == '?'
}

/// Whether the character at `i` of `t` closes a sentence by `mark`: it is such a mark and
/// the text ends or whitespace follows.
pub open spec fn closes_at(t: Seq<char>, i: int, terminal: bool) -> bool {
    &&& 0 <= i < t.len()
    &&& if terminal { terminal_mark(t[i]) } else { sentence_mark(t[i]) }
    &&& (i + 1 >= t.len() || unicode_white_space(t[i + 1]))
}

/// The gap of text `h[start..end]` inside the elements `stack`.
pub open spec fn gap_of(lex: Seq<Seq<char>>, h: Seq<char>, start: int, end: int, stack: Seq<(u32, u64)>) -> GapV {
    let t = h.subrange(start, end);
    GapV {
        start,
        end,
        words: words(t).len(),
        english: english_count(lex, words(t)),
        punctuated: exists|i: int| closes_at(t, i, false),
        terminal: exists|i: int| closes_at(t, i, true),
        symbolic: exists|i: int| 0 <= i < t.len() && !unicode_white_space(#[trigger] t[i]) && !unicode_alphanumeric(t[i]),
        stack,
    }
}


/// The text `t` of a gap: its word and English-word counts and its three typography flags.
struct Gap {
    start: usize,
    end: usize,
    words: u32,
    english: u32,
    punctuated: bool,
    terminal: bool,
    symbolic: bool,
    stack: Vec<(u32, u64)>,
}

spec fn gap_view(g: Gap) -> GapV {
    GapV {
        start: g.start as int,
        end: g.end as int,
        words: g.words as nat,
        english: g.english as nat,
        punctuated: g.punctuated,
        terminal: g.terminal,
        symbolic: g.symbolic,
        stack: g.stack@,
    }
}

spec fn gap_views(v: Seq<Gap>) -> Seq<GapV> {
    v.map_values(|g: Gap| gap_view(g))
}

/// A copy of a containment stack.
fn copy_stack(v: &Vec<(u32, u64)>) -> (r: Vec<(u32, u64)>)
    ensures
        r@ == v@,
{
    let mut out: Vec<(u32, u64)> = Vec::new();
    let mut i: usize = 0;
    while i < v.len()
        invariant
            i <= v@.len(),
            out@ == v@.take(i as int),
        decreases v@.len() - i,
    {
        out.push(v[i]);
        i = i + 1;
        assert(out@ =~= v@.take(i as int));
    }
    assert(v@.take(i as int) =~= v@);
    out
}

/// `s` with non-alphanumeric characters trimmed from both ends (see [`trim_nonalnum`]).
fn trimmed_nonalnum(s: &[char]) -> (r: Vec<char>)
    ensures
        r@ == trim_nonalnum(s@),
{
    let mut i: usize = 0;
    assert(s@.skip(0) =~= s@);
    while i < s.len() && !is_alphanumeric(s[i])
        invariant
            i <= s@.len(),
            trim_nonalnum_start(s@) == trim_nonalnum_start(s@.skip(i as int)),
        decreases s@.len() - i,
    {
        assert(s@.skip(i as int).drop_first() =~= s@.skip(i + 1));
        i = i + 1;
    }
    let t = slice_chars(s, i, s.len());
    assert(t@ =~= s@.skip(i as int));
    let mut j: usize = t.len();
    assert(t@.take(j as int) =~= t@);
    while j > 0 && !is_alphanumeric(t[j - 1])
        invariant
            j <= t@.len(),
            trim_nonalnum_end(t@) == trim_nonalnum_end(t@.take(j as int)),
        decreases j,
    {
        assert(t@.take(j as int).drop_last() =~= t@.take(j - 1));
        j = j - 1;
    }
    slice_chars(t.as_slice(), 0, j)
}

/// Whether `w` is an English word (see [`english_word`]).
fn is_english_word(lex: &Lexicon, w: &[char]) -> (r: bool)
    ensures
        r == english_word(lex.words.deep_view(), w@),
{
    let t = trimmed_nonalnum(w);
    if t.len() == 0 {
        return false;
    }
    let mut i: usize = 0;
    while i < t.len()
        invariant
            i <= t@.len(),
            t@ == trim_nonalnum(w@),
            forall|k: int| 0 <= k < i ==> unicode_alphabetic(#[trigger] t@[k]),
        decreases t@.len() - i,
    {
        if !is_alphabetic(t[i]) {
            assert(!unicode_alphabetic(t@[i as int]));
            assert(!all_alphabetic(t@));
            return false;
        }
        i = i + 1;
    }
    lex.knows(t.as_slice())
}

/// Whether every gap of `gs` has counts that fit the reader's arithmetic: at most
/// `u32::MAX` words, and an English count whose per-mille product fits a `u32`.
pub open spec fn gaps_fit(gs: Seq<GapV>) -> bool {
    forall|k: int| 0 <= k < gs.len() ==> (#[trigger] gs[k]).words <= u32::MAX && gs[k].english * 1000 <= u32::MAX
}

/// The gap of the text `h[start..end]` inside `stack` (see [`gap_of`]).
fn gap_at(lex: &Lexicon, h: &[char], start: usize, end: usize, stack: &Vec<(u32, u64)>) -> (g: Gap)
    requires
        start <= end <= h@.len(),
        gap_of(lex.words.deep_view(), h@, start as int, end as int, stack@).words <= u32::MAX,
    ensures
        gap_view(g) == gap_of(lex.words.deep_view(), h@, start as int, end as int, stack@),
{
    let ghost lx = lex.words.deep_view();
    let t = slice_chars(h, start, end);
    let ws = split_words(t.as_slice());
    let mut english: u32 = 0;
    let mut i: usize = 0;
    while i < ws.len()
        invariant
            i <= ws@.len(),
            views(ws@) == words(t@),
            lx == lex.words.deep_view(),
            ws@.len() <= u32::MAX,
            english == english_count(lx, views(ws@).take(i as int)),
            english <= i,
        decreases ws@.len() - i,
    {
        proof {
            assert(views(ws@).take(i + 1).drop_last() =~= views(ws@).take(i as int));
            assert(views(ws@).take(i + 1).last() == ws@[i as int]@);
        }
        if is_english_word(lex, ws[i].as_slice()) {
            english = english + 1;
        }
        i = i + 1;
    }
    assert(views(ws@).take(i as int) =~= views(ws@));
    let mut punctuated = false;
    let mut terminal = false;
    let mut symbolic = false;
    let n = t.len();
    let mut k: usize = 0;
    while k < n
        invariant
            n == t@.len(),
            k <= n,
            punctuated == exists|q: int| 0 <= q < k && closes_at(t@, q, false),
            terminal == exists|q: int| 0 <= q < k && closes_at(t@, q, true),
            symbolic == exists|q: int| 0 <= q < k && !unicode_white_space(#[trigger] t@[q]) && !unicode_alphanumeric(t@[q]),
        decreases n - k,
    {
        let c = t[k];
        let ws_c = is_whitespace(c);
        let follows = k + 1 >= n || is_whitespace(t[k + 1]);
        if !ws_c && !is_alphanumeric(c) {
            symbolic = true;
        }
        if (c == '.' || c == ';' || c == '!' || c == '?') && follows {
            punctuated = true;
            assert(closes_at(t@, k as int, false));
        }
        if (c == '.' || c == '!' || c == '?') && follows {
            terminal = true;
            assert(closes_at(t@, k as int, true));
        }
        proof {
            assert forall|q: int| 0 <= q < k + 1 && closes_at(t@, q, false) implies punctuated by {
                if q == k {
                } else {
                    assert(exists|q2: int| 0 <= q2 < k && closes_at(t@, q2, false));
                }
            }
            assert forall|q: int| 0 <= q < k + 1 && closes_at(t@, q, true) implies terminal by {
                if q == k {
                } else {
                    assert(exists|q2: int| 0 <= q2 < k && closes_at(t@, q2, true));
                }
            }
        }
        k = k + 1;
    }
    proof {
        assert forall|q: int| closes_at(t@, q, false) implies 0 <= q < n by {}
        assert forall|q: int| closes_at(t@, q, true) implies 0 <= q < n by {}
    }
    let g = Gap {
        start,
        end,
        words: ws.len() as u32,
        english,
        punctuated,
        terminal,
        symbolic,
        stack: copy_stack(stack),
    };
    g
}

// ── Markup tokens and containment ────────────────────────────────────────────

/// `s` without its leading `c` characters.
pub open spec fn skip_leading(s: Seq<char>, c: char) -> Seq<char>
    decreases s.len(),
{
    if s.len() > 0 && s[0] == c {
        skip_leading(s.drop_first(), c)
    } else {
        s
    }
}

/// The leading run of ASCII alphanumerics and `-` of `s`, in ASCII lower case.
pub open spec fn name_run(s: Seq<char>) -> Seq<char>
    decreases s.len(),
{
    if s.len() > 0 && (ascii_alnum(s[0]) || s[0] == '-') {
        seq![ascii_lower(s[0])] + name_run(s.drop_first())
    } else {
        Seq::empty()
    }
}

/// The element name of a markup token: the name run after its leading `<`s, then `/`s.
pub open spec fn element_name(tag: Seq<char>) -> Seq<char> {
    name_run(skip_leading(skip_leading(tag, '<'), '/'))
}

/// The seed of a markup token's element name: 0 for a token without a name, else the
/// FNV-1a hash of the name.
pub open spec fn element_seed(tag: Seq<char>) -> u64 {
    if element_name(tag).len() == 0 {
        0
    } else {
        fnv(element_name(tag))
    }
}

/// The element seed of a markup token (see [`element_seed`]).
pub fn element_seed_of(tag: &[char]) -> (r: u64)
    ensures
        r == element_seed(tag@),
{
    let n = tag.len();
    let mut i: usize = 0;
    assert(tag@.skip(0) =~= tag@);
    while i < n && tag[i] == '<'
        invariant
            n == tag@.len(),
            i <= n,
            skip_leading(tag@, '<') == skip_leading(tag@.skip(i as int), '<'),
        decreases n - i,
    {
        assert(tag@.skip(i as int).drop_first() =~= tag@.skip(i + 1));
        i = i + 1;
    }
    assert(skip_leading(tag@, '<') == tag@.skip(i as int));
    let mut j: usize = i;
    while j < n && tag[j] == '/'
        invariant
            n == tag@.len(),
            i <= j <= n,
            skip_leading(tag@.skip(i as int), '/') == skip_leading(tag@.skip(j as int), '/'),
        decreases n - j,
    {
        assert(tag@.skip(j as int).drop_first() =~= tag@.skip(j + 1));
        j = j + 1;
    }
    assert(skip_leading(tag@.skip(i as int), '/') == tag@.skip(j as int));
    let mut name: Vec<char> = Vec::new();
    let mut k: usize = j;
    while k < n && (is_ascii_alnum(tag[k]) || tag[k] == '-')
        invariant
            n == tag@.len(),
            j <= k <= n,
            name@ + name_run(tag@.skip(k as int)) == name_run(tag@.skip(j as int)),
        decreases n - k,
    {
        let ghost before = name@;
        name.push(to_ascii_lower(tag[k]));
        proof {
            assert(tag@.skip(k as int).drop_first() =~= tag@.skip(k + 1));
            assert(name@ + name_run(tag@.skip(k + 1)) =~= before + name_run(tag@.skip(k as int)));
        }
        k = k + 1;
    }
    assert(name@ + Seq::<char>::empty() =~= name@);
    if name.len() == 0 {
        0
    } else {
        fnv_hash(name.as_slice())
    }
}

/// A comment opener.
pub open spec fn comment_open() -> Seq<char> {
    seq!['<', '!', '-', '-']
}

/// A comment closer.
pub open spec fn comment_close() -> Seq<char> {
    seq!['-', '-', '>']
}

/// Where the markup token opening at `at` ends: a comment at its `-->`, any other token
/// at its `>`, or the end of `h` when it is not closed.
pub open spec fn token_end(h: Seq<char>, at: int) -> int {
    if starts_with(h.skip(at), comment_open()) {
        let i = find_from(h, comment_close(), at);
        if i >= 0 {
            i + 3
        } else {
            h.len() as int
        }
    } else {
        let i = find_from(h, seq!['>'], at);
        if i >= 0 {
            i + 1
        } else {
            h.len() as int
        }
    }
}

/// Where the text opening at `at` ends: at the next `<`, or the end of `h`.
pub open spec fn text_end(h: Seq<char>, at: int) -> int {
    let i = find_from(h, seq!['<'], at);
    if i >= 0 {
        i
    } else {
        h.len() as int
    }
}

/// The deepest open elements a page's containment stack keeps.
pub const STACK_CEILING: usize = 64;

/// The index of the last entry of `stack` with name seed `seed`, or -1.
pub open spec fn last_seed_index(stack: Seq<(u32, u64)>, seed: u64) -> int
    decreases stack.len(),
{
    if stack.len() == 0 {
        -1
    } else if stack.last().1 == seed {
        stack.len() - 1
    } else {
        last_seed_index(stack.drop_last(), seed)
    }
}

/// The containment stack and instance counter after the markup token `tag`: a closing
/// token closes the nearest open element of its name and everything inside it; a
/// self-closing token changes nothing; an opening token replaces an open sibling of the
/// same name on top and opens a new instance while the stack is below its ceiling.
pub open spec fn after_token(stack: Seq<(u32, u64)>, next: nat, tag: Seq<char>) -> (Seq<(u32, u64)>, nat) {
    let seed = element_seed(tag);
    if seed == 0 {
        (stack, next)
    } else if starts_with(tag, seq!['<', '/']) {
        let i = last_seed_index(stack, seed);
        if i >= 0 {
            (stack.take(i), next)
        } else {
            (stack, next)
        }
    } else if ends_with(strip_trailing(tag, '>'), seq!['/']) {
        (stack, next)
    } else {
        let s1 = if stack.len() > 0 && stack.last().1 == seed {
            stack.drop_last()
        } else {
            stack
        };
        if s1.len() < STACK_CEILING {
            (s1.push((next as u32, seed)), next + 1)
        } else {
            (s1, next)
        }
    }
}

/// A scanned page as plain values: its word gaps, its markup tokens' ranges, and the
/// element instances opened.
pub struct ScanV {
    pub gaps: Seq<GapV>,
    pub tags: Seq<(int, int)>,
    pub next: nat,
}

/// The scan of `h` from index `at` on inside `stack`, with `next` the next element
/// instance: markup tokens update the containment, and each text run between them is a
/// gap, kept when it holds a word.
pub open spec fn scan_from(lex: Seq<Seq<char>>, h: Seq<char>, at: int, stack: Seq<(u32, u64)>, next: nat) -> ScanV
    decreases h.len() - at,
{
    if at < 0 || at >= h.len() {
        ScanV { gaps: Seq::empty(), tags: Seq::empty(), next }
    } else if h[at] == '<' {
        let close = token_end(h, at);
        if close <= at || close > h.len() {
            ScanV { gaps: Seq::empty(), tags: Seq::empty(), next }
        } else {
            let st = after_token(stack, next, h.subrange(at, close));
            let rest = scan_from(lex, h, close, st.0, st.1);
            ScanV { gaps: rest.gaps, tags: seq![(at, close)] + rest.tags, next: rest.next }
        }
    } else {
        let end = text_end(h, at);
        if end <= at || end > h.len() {
            ScanV { gaps: Seq::empty(), tags: Seq::empty(), next }
        } else {
            let g = gap_of(lex, h, at, end, stack);
            let rest = scan_from(lex, h, end, stack, next);
            ScanV {
                gaps: if g.words > 0 { seq![g] + rest.gaps } else { rest.gaps },
                tags: rest.tags,
                next: rest.next,
            }
        }
    }
}

/// The scan of a whole page body.
pub open spec fn scan_of(lex: Seq<Seq<char>>, h: Seq<char>) -> ScanV {
    scan_from(lex, h, 0, Seq::empty(), 0)
}

/// Whether a page's scan fits the reader's arithmetic: its element instances number at
/// most `u32::MAX`, and its gaps fit (see [`gaps_fit`]).
pub open spec fn scan_fits(lex: Seq<Seq<char>>, h: Seq<char>) -> bool {
    scan_of(lex, h).next <= u32::MAX && gaps_fit(scan_of(lex, h).gaps)
}

proof fn lemma_scan_next(lex: Seq<Seq<char>>, h: Seq<char>, at: int, stack: Seq<(u32, u64)>, next: nat)
    ensures
        scan_from(lex, h, at, stack, next).next >= next,
    decreases h.len() - at,
{
    if 0 <= at < h.len() {
        if h[at] == '<' {
            let close = token_end(h, at);
            if at < close <= h.len() {
                let st = after_token(stack, next, h.subrange(at, close));
                lemma_scan_next(lex, h, close, st.0, st.1);
            }
        } else {
            let end = text_end(h, at);
            if at < end <= h.len() {
                lemma_scan_next(lex, h, end, stack, next);
            }
        }
    }
}

/// The markup token opening at `at` ends here (see [`token_end`]).
fn token_end_exec(h: &[char], at: usize) -> (r: usize)
    requires
        at < h@.len(),
    ensures
        r as int == token_end(h@, at as int),
        at < r <= h@.len(),
{
    let open: Vec<char> = vec!['<', '!', '-', '-'];
    let close: Vec<char> = vec!['-', '-', '>'];
    let gt: Vec<char> = vec!['>'];
    proof {
        assert(open@ =~= comment_open());
        assert(close@ =~= comment_close());
        assert(gt@ =~= seq!['>']);
        lemma_find_from(h@, comment_close(), at as int);
        lemma_find_from(h@, seq!['>'], at as int);
    }
    let rest = slice_chars(h, at, h.len());
    let is_comment = crate::text::has_prefix(rest.as_slice(), open.as_slice());
    assert(rest@ =~= h@.skip(at as int));
    if is_comment {
        match find(h, close.as_slice(), at) {
            Some(i) => i + 3,
            None => h.len(),
        }
    } else {
        match find(h, gt.as_slice(), at) {
            Some(i) => i + 1,
            None => h.len(),
        }
    }
}


/// The index of the last entry of `stack` with seed `seed` (see [`last_seed_index`]).
fn last_seed_index_exec(stack: &Vec<(u32, u64)>, seed: u64) -> (r: Option<usize>)
    ensures
        match r {
            Some(i) => i as int == last_seed_index(stack@, seed) && i < stack@.len(),
            None => last_seed_index(stack@, seed) == -1,
        },
{
    let mut i: usize = stack.len();
    assert(stack@.take(i as int) =~= stack@);
    while i > 0
        invariant
            i <= stack@.len(),
            last_seed_index(stack@, seed) == last_seed_index(stack@.take(i as int), seed),
        decreases i,
    {
        if stack[i - 1].1 == seed {
            return Some(i - 1);
        }
        assert(stack@.take(i as int).drop_last() =~= stack@.take(i - 1));
        i = i - 1;
    }
    None
}

/// Updates the containment stack and instance counter for the markup token `tag` (see
/// [`after_token`]).
fn apply_token(stack: &mut Vec<(u32, u64)>, next: &mut u32, tag: &[char])
    requires
        after_token(old(stack)@, *old(next) as nat, tag@).1 <= u32::MAX,
    ensures
        (final(stack)@, *final(next) as nat) == after_token(old(stack)@, *old(next) as nat, tag@),
{
    let seed = element_seed_of(tag);
    if seed == 0 {
        return;
    }
    let close: Vec<char> = vec!['<', '/'];
    let slash: Vec<char> = vec!['/'];
    proof {
        assert(close@ =~= seq!['<', '/']);
        assert(slash@ =~= seq!['/']);
    }
    if crate::text::has_prefix(tag, close.as_slice()) {
        match last_seed_index_exec(stack, seed) {
            Some(i) => {
                stack.truncate(i);
            },
            None => {},
        }
        return;
    }
    let body = trim_trailing(tag, '>');
    if crate::text::has_suffix(body.as_slice(), slash.as_slice()) {
        return;
    }
    if stack.len() > 0 && stack[stack.len() - 1].1 == seed {
        stack.pop();
    }
    if stack.len() < STACK_CEILING {
        stack.push((*next, seed));
        *next = *next + 1;
    }
}

/// Whether the markup token `tag` opens a new element instance inside `stack` (see
/// [`after_token`]).
fn opens_instance(stack: &Vec<(u32, u64)>, tag: &[char]) -> (r: bool)
    ensures
        forall|next: nat| #[trigger] after_token(stack@, next, tag@).1 == if r { next + 1 } else { next },
{
    let seed = element_seed_of(tag);
    if seed == 0 {
        return false;
    }
    let close: Vec<char> = vec!['<', '/'];
    let slash: Vec<char> = vec!['/'];
    proof {
        assert(close@ =~= seq!['<', '/']);
        assert(slash@ =~= seq!['/']);
    }
    if crate::text::has_prefix(tag, close.as_slice()) {
        return false;
    }
    let body = trim_trailing(tag, '>');
    if crate::text::has_suffix(body.as_slice(), slash.as_slice()) {
        return false;
    }
    let depth = if stack.len() > 0 && stack[stack.len() - 1].1 == seed {
        stack.len() - 1
    } else {
        stack.len()
    };
    proof {
        let s1 = if stack@.len() > 0 && stack@.last().1 == seed {
            stack@.drop_last()
        } else {
            stack@
        };
        assert(s1.len() == depth);
    }
    depth < STACK_CEILING
}

/// Whether a page's scan fits the reader's arithmetic (see [`scan_fits`]): the scan run
/// with its counts checked.
fn scan_fits_exec(lex: &Lexicon, h: &[char]) -> (r: bool)
    ensures
        r == scan_fits(lex.words.deep_view(), h@),
{
    let ghost lx = lex.words.deep_view();
    let ghost total = scan_of(lx, h@);
    let n = h.len();
    let mut stack: Vec<(u32, u64)> = Vec::new();
    let mut next: u32 = 0;
    let mut at: usize = 0;
    let ghost mut done: Seq<GapV> = Seq::empty();
    proof {
        assert(stack@ =~= Seq::<(u32, u64)>::empty());
        assert(done + total.gaps =~= total.gaps);
    }
    while at < n
        invariant
            n == h@.len(),
            at <= n,
            lx == lex.words.deep_view(),
            total == scan_of(lx, h@),
            done + scan_from(lx, h@, at as int, stack@, next as nat).gaps == total.gaps,
            gaps_fit(done),
            scan_from(lx, h@, at as int, stack@, next as nat).next == total.next,
        decreases n - at,
    {
        let ghost rest = scan_from(lx, h@, at as int, stack@, next as nat);
        if h[at] == '<' {
            let close = token_end_exec(h, at);
            let tag = slice_chars(h, at, close);
            let ghost st = after_token(stack@, next as nat, tag@);
            let opens = opens_instance(&stack, tag.as_slice());
            proof {
                assert(st.1 == if opens { (next + 1) as nat } else { next as nat });
            }
            if opens && next == 4294967295 {
                proof {
                    lemma_scan_next(lx, h@, close as int, st.0, st.1);
                    assert(!scan_fits(lx, h@));
                }
                return false;
            }
            apply_token(&mut stack, &mut next, tag.as_slice());
            at = close;
        } else {
            let lt: Vec<char> = vec!['<'];
            proof {
                assert(lt@ =~= seq!['<']);
                lemma_find_from(h@, seq!['<'], at as int);
            }
            let end = match find(h, lt.as_slice(), at) {
                Some(i) => i,
                None => n,
            };
            let ghost g = gap_of(lx, h@, at as int, end as int, stack@);
            proof {
                if end == at {
                    assert(h@.subrange(at as int, at + 1)[0] == h@[at as int]);
                }
                lemma_english_count_le(lx, words(h@.subrange(at as int, end as int)));
                if g.words > 0 {
                    assert(rest.gaps[0] == g);
                    assert(total.gaps[done.len() as int] == rest.gaps[0]);
                }
            }
            let t = slice_chars(h, at, end);
            let wc = split_words(t.as_slice()).len();
            if wc > 4294967295 {
                proof {
                    assert(!gaps_fit(total.gaps));
                }
                return false;
            }
            let gx = gap_at(lex, h, at, end, &stack);
            if gx.english > 4294967 {
                proof {
                    assert(!gaps_fit(total.gaps));
                }
                return false;
            }
            proof {
                if g.words > 0 {
                    assert(done.push(g) + scan_from(lx, h@, end as int, stack@, next as nat).gaps =~= done + rest.gaps);
                    done = done.push(g);
                }
            }
            at = end;
        }
    }
    proof {
        assert(done + Seq::<GapV>::empty() =~= done);
    }
    true
}

/// A page scanned into its word gaps and its markup tokens' ranges (see [`scan_of`]).
fn scan(lex: &Lexicon, h: &[char]) -> (r: (Vec<Gap>, Vec<(usize, usize)>))
    requires
        scan_fits(lex.words.deep_view(), h@),
    ensures
        gap_views(r.0@) == scan_of(lex.words.deep_view(), h@).gaps,
        r.1@.map_values(|t: (usize, usize)| (t.0 as int, t.1 as int)) == scan_of(lex.words.deep_view(), h@).tags,
{
    let ghost lx = lex.words.deep_view();
    let ghost total = scan_of(lx, h@);
    let n = h.len();
    let mut gaps: Vec<Gap> = Vec::new();
    let mut tags: Vec<(usize, usize)> = Vec::new();
    let mut stack: Vec<(u32, u64)> = Vec::new();
    let mut next: u32 = 0;
    let mut at: usize = 0;
    proof {
        assert(stack@ =~= Seq::<(u32, u64)>::empty());
        assert(gap_views(gaps@) + total.gaps =~= total.gaps);
        assert(tags@.map_values(|t: (usize, usize)| (t.0 as int, t.1 as int)) + total.tags =~= total.tags);
    }
    while at < n
        invariant
            n == h@.len(),
            at <= n,
            lx == lex.words.deep_view(),
            total == scan_of(lx, h@),
            scan_fits(lx, h@),
            gap_views(gaps@) + scan_from(lx, h@, at as int, stack@, next as nat).gaps == total.gaps,
            tags@.map_values(|t: (usize, usize)| (t.0 as int, t.1 as int)) + scan_from(lx, h@, at as int, stack@, next as nat).tags
                == total.tags,
            scan_from(lx, h@, at as int, stack@, next as nat).next == total.next,
        decreases n - at,
    {
        let ghost rest = scan_from(lx, h@, at as int, stack@, next as nat);
        let ghost gv = gap_views(gaps@);
        let ghost tv = tags@.map_values(|t: (usize, usize)| (t.0 as int, t.1 as int));
        if h[at] == '<' {
            let close = token_end_exec(h, at);
            let tag = slice_chars(h, at, close);
            let ghost st = after_token(stack@, next as nat, tag@);
            proof {
                lemma_scan_next(lx, h@, close as int, st.0, st.1);
            }
            apply_token(&mut stack, &mut next, tag.as_slice());
            tags.push((at, close));
            proof {
                assert(tags@.map_values(|t: (usize, usize)| (t.0 as int, t.1 as int)) =~= tv.push((at as int, close as int)));
                assert(tv.push((at as int, close as int)) + scan_from(lx, h@, close as int, stack@, next as nat).tags
                    =~= tv + rest.tags);
            }
            at = close;
        } else {
            let lt: Vec<char> = vec!['<'];
            proof {
                assert(lt@ =~= seq!['<']);
                lemma_find_from(h@, seq!['<'], at as int);
            }
            let end = match find(h, lt.as_slice(), at) {
                Some(i) => i,
                None => n,
            };
            proof {
                if end == at {
                    assert(h@.subrange(at as int, at + 1)[0] == h@[at as int]);
                }
                let g = gap_of(lx, h@, at as int, end as int, stack@);
                if g.words > 0 {
                    assert(rest.gaps[0] == g);
                    assert(total.gaps[gv.len() as int] == rest.gaps[0]);
                }
            }
            let g = gap_at(lex, h, at, end, &stack);
            if g.words > 0 {
                gaps.push(g);
                proof {
                    assert(gap_views(gaps@) =~= gv.push(gap_view(g)));
                    assert(gv.push(gap_view(g)) + scan_from(lx, h@, end as int, stack@, next as nat).gaps =~= gv + rest.gaps);
                }
            }
            at = end;
        }
    }
    proof {
        assert(gap_views(gaps@) + Seq::<GapV>::empty() =~= gap_views(gaps@));
        assert(tags@.map_values(|t: (usize, usize)| (t.0 as int, t.1 as int)) + Seq::<(int, int)>::empty()
            =~= tags@.map_values(|t: (usize, usize)| (t.0 as int, t.1 as int)));
    }
    (gaps, tags)
}


// ── Reading a page ───────────────────────────────────────────────────────────

/// A page and its scan as read by a calibrated brain: the split and ceiling, the learned
/// roles, the gaps.
pub struct ReadV {
    pub split: u32,
    pub ceiling: u32,
    pub roles: Seq<(u64, i8)>,
    pub gaps: Seq<GapV>,
}

/// A gap's English density, per mille.
pub open spec fn density(g: GapV) -> nat {
    g.english * 1000 / if g.words == 0 { 1nat } else { g.words }
}

/// The learned role of gap `k`.
pub open spec fn role_at(r: ReadV, k: int) -> Option<bool> {
    stack_role(r.roles, r.gaps[k].stack)
}

/// Whether gap `k` reads as code: its role decides where it has one; otherwise it reads
/// below the split and carries a symbol or two or more words.
pub open spec fn codey(r: ReadV, k: int) -> bool {
    match role_at(r, k) {
        Some(c) => c,
        None => density(r.gaps[k]) < r.split && (r.gaps[k].symbolic || r.gaps[k].words >= 2),
    }
}

/// A shred fragment has at most this many words.
pub const SHRED_WORDS: u32 = 2;

/// Whether gap `k` is a shred fragment: at most [`SHRED_WORDS`] words, no terminal, and
/// not a heading by role.
pub open spec fn shred(r: ReadV, k: int) -> bool {
    r.gaps[k].words <= SHRED_WORDS && !r.gaps[k].terminal && role_at(r, k) != Some(false)
}

/// Whether gap `k` belongs to an open prose sentence: the previous gap is unterminated
/// prose that flows into it, or it is unterminated and flows into the next.
pub open spec fn open_flow(r: ReadV, k: int) -> bool {
    let g = r.gaps;
    (k > 0 && !codey(r, k - 1) && !g[k - 1].terminal && stacks_nest(g[k - 1].stack, g[k].stack)) || (
    !g[k].terminal && k + 1 < g.len() && stacks_nest(g[k].stack, g[k + 1].stack))
}

/// Whether gap `k` is title-shaped: a heading by role, or, without a role, short,
/// unpunctuated, symbol-free and not inside an open sentence.
pub open spec fn titleish(r: ReadV, k: int) -> bool {
    match role_at(r, k) {
        Some(c) => !c,
        None => r.gaps[k].words <= r.ceiling && !r.gaps[k].punctuated && !r.gaps[k].symbolic && !open_flow(r, k),
    }
}

/// Whether gap `k` can belong to a code run: it is code or a shred fragment.
pub open spec fn member(r: ReadV, k: int) -> bool {
    codey(r, k) || shred(r, k)
}

/// Whether every gap from `a` to `b` (inclusive, either order) can belong to a code run.
pub open spec fn members_between(r: ReadV, a: int, b: int) -> bool {
    forall|u: int| (if a <= b { a <= u <= b } else { b <= u <= a }) ==> #[trigger] member(r, u)
}

/// Whether gap `k` lies in a code run: a run of members holding a code gap.
pub open spec fn in_code(r: ReadV, k: int) -> bool {
    0 <= k < r.gaps.len() && exists|t: int| 0 <= t < r.gaps.len() && #[trigger] codey(r, t) && members_between(r, k, t)
}

/// Whether gap `k` bounds the governing prose: title-shaped and outside code.
pub open spec fn boundary(r: ReadV, k: int) -> bool {
    titleish(r, k) && !in_code(r, k)
}

/// The last index of a code run that starts at `i`.
pub open spec fn code_run_end(r: ReadV, i: int) -> int
    decreases r.gaps.len() - i,
{
    if i + 1 < r.gaps.len() && in_code(r, i + 1) {
        code_run_end(r, i + 1)
    } else {
        i
    }
}

/// The index of the last boundary gap before `i`, or -1.
pub open spec fn last_boundary(r: ReadV, i: int) -> int
    decreases i,
{
    if i <= 0 {
        -1
    } else if boundary(r, i - 1) {
        i - 1
    } else {
        last_boundary(r, i - 1)
    }
}

/// The words of gaps `i..j` (exclusive end).
pub open spec fn span_words(gs: Seq<GapV>, i: int, j: int) -> nat
    decreases j - i,
{
    if j <= i {
        0
    } else {
        span_words(gs, i, j - 1) + gs[j - 1].words
    }
}

/// How much governing prose counts, in characters.
pub const GOVERNING_CTX: usize = 320;

/// The closing [`GOVERNING_CTX`] characters of trimmed prose, snapped forward to a word
/// boundary only when the cap cut.
pub open spec fn governing_tail(prose: Seq<char>) -> Seq<char> {
    let p = trim(prose);
    if p.len() <= GOVERNING_CTX {
        p
    } else {
        let ts = p.len() - GOVERNING_CTX;
        let w = first_ws_from(p, ts);
        if w >= 0 {
            trim(p.skip(w))
        } else {
            trim(p.skip(ts))
        }
    }
}

/// The index of the first whitespace character of `s` at or after `from`, or -1.
pub open spec fn first_ws_from(s: Seq<char>, from: int) -> int
    decreases s.len() - from,
{
    if from < 0 || from >= s.len() {
        -1
    } else if unicode_white_space(s[from]) {
        from
    } else {
        first_ws_from(s, from + 1)
    }
}

/// A character of a declared language label.
pub open spec fn label_char(c: char) -> bool {
    ascii_alnum(c) || c == '+' || c == '#' || c == '_' || c == '-'
}

/// The leading run of label characters of `s`.
pub open spec fn label_run(s: Seq<char>) -> Seq<char>
    decreases s.len(),
{
    if s.len() > 0 && label_char(s[0]) {
        seq![s[0]] + label_run(s.drop_first())
    } else {
        Seq::empty()
    }
}

/// The `language-` class mark.
pub open spec fn language_mark() -> Seq<char> {
    seq!['l', 'a', 'n', 'g', 'u', 'a', 'g', 'e', '-']
}

/// The `brush:` class mark.
pub open spec fn brush_mark() -> Seq<char> {
    seq!['b', 'r', 'u', 's', 'h', ':']
}

/// `s` without its leading spaces.
pub open spec fn skip_spaces(s: Seq<char>) -> Seq<char> {
    skip_leading(s, ' ')
}

/// The language an author declares in a lowercased markup token: the label after its first
/// `language-` mark, else after its first `brush:` mark and any spaces, else empty.
pub open spec fn lang_label(t: Seq<char>) -> Seq<char> {
    let a = find_from(t, language_mark(), 0);
    let b = find_from(t, brush_mark(), 0);
    if a >= 0 {
        label_run(t.skip(a + 9))
    } else if b >= 0 {
        label_run(skip_spaces(t.skip(b + 6)))
    } else {
        Seq::empty()
    }
}

proof fn lemma_skip_spaces_run(s: Seq<char>, n: int)
    requires
        0 <= n <= s.len(),
        forall|i: int| 0 <= i < n ==> s[i] == ' ',
        n == s.len() || s[n] != ' ',
    ensures
        skip_spaces(s) == s.skip(n),
    decreases n,
{
    if n > 0 {
        assert(s.drop_first().skip(n - 1) =~= s.skip(n));
        lemma_skip_spaces_run(s.drop_first(), n - 1);
    } else {
        assert(s.skip(0) =~= s);
    }
}

proof fn lemma_label_run_prefix(s: Seq<char>, m: int)
    requires
        0 <= m <= s.len(),
        forall|i: int| 0 <= i < m ==> label_char(#[trigger] s[i]),
        m == s.len() || !label_char(s[m]),
    ensures
        label_run(s) == s.take(m),
    decreases m,
{
    if m > 0 {
        lemma_label_run_prefix(s.drop_first(), m - 1);
        assert(seq![s[0]] + s.drop_first().take(m - 1) =~= s.take(m));
    } else {
        assert(s.take(0) =~= Seq::<char>::empty());
    }
}

/// The language a lowercased markup token declares: after its first `language-` mark, the
/// maximal run of label characters that follows; with no `language-` mark, after its first
/// `brush:` mark and the spaces that follow it, the maximal run of label characters.
pub proof fn law_declared_language_is_the_label_after_its_mark(t: Seq<char>, n: int, m: int)
    ensures
        ({
            let a = find_from(t, language_mark(), 0);
            a >= 0 && 0 <= m && a + 9 + m <= t.len() && (forall|i: int| a + 9 <= i < a + 9 + m ==> label_char(#[trigger] t[i]))
                && (a + 9 + m == t.len() || !label_char(t[a + 9 + m])) ==> lang_label(t) == t.subrange(a + 9, a + 9 + m)
        }),
        ({
            let b = find_from(t, brush_mark(), 0);
            let s = b + 6 + n;
            find_from(t, language_mark(), 0) < 0 && b >= 0 && 0 <= n && 0 <= m && s + m <= t.len() && (forall|i: int|
                b + 6 <= i < s ==> #[trigger] t[i] == ' ') && (s == t.len() || t[s] != ' ') && (forall|i: int|
                s <= i < s + m ==> label_char(#[trigger] t[i])) && (s + m == t.len() || !label_char(t[s + m]))
                ==> lang_label(t) == t.subrange(s, s + m)
        }),
{
    let a = find_from(t, language_mark(), 0);
    lemma_find_from(t, language_mark(), 0);
    if a >= 0 && 0 <= m && a + 9 + m <= t.len() && (forall|i: int| a + 9 <= i < a + 9 + m ==> label_char(#[trigger] t[i]))
        && (a + 9 + m == t.len() || !label_char(t[a + 9 + m])) {
        let u = t.skip(a + 9);
        assert forall|i: int| 0 <= i < m implies label_char(#[trigger] u[i]) by {
            assert(u[i] == t[a + 9 + i]);
        }
        lemma_label_run_prefix(u, m);
        assert(u.take(m) =~= t.subrange(a + 9, a + 9 + m));
    }
    let b = find_from(t, brush_mark(), 0);
    lemma_find_from(t, brush_mark(), 0);
    let s = b + 6 + n;
    if a < 0 && b >= 0 && 0 <= n && 0 <= m && s + m <= t.len() && (forall|i: int| b + 6 <= i < s ==> #[trigger] t[i] == ' ')
        && (s == t.len() || t[s] != ' ') && (forall|i: int| s <= i < s + m ==> label_char(#[trigger] t[i])) && (s + m
        == t.len() || !label_char(t[s + m])) {
        let v = t.skip(b + 6);
        assert forall|i: int| 0 <= i < n implies v[i] == ' ' by {
            assert(v[i] == t[b + 6 + i]);
        }
        lemma_skip_spaces_run(v, n);
        assert(v.skip(n) =~= t.skip(s));
        let u = t.skip(s);
        assert forall|i: int| 0 <= i < m implies label_char(#[trigger] u[i]) by {
            assert(u[i] == t[s + i]);
        }
        lemma_label_run_prefix(u, m);
        assert(u.take(m) =~= t.subrange(s, s + m));
    }
}

/// The number of markup tokens opening before index `start`: the index of the first token
/// opening at or after it.
pub open spec fn tokens_before(tags: Seq<(int, int)>, start: int) -> int
    decreases tags.len(),
{
    if tags.len() == 0 {
        0
    } else if tokens_before(tags.drop_last(), start) < tags.len() - 1 {
        tokens_before(tags.drop_last(), start)
    } else if tags.last().0 < start {
        tags.len() as int
    } else {
        tags.len() - 1
    }
}

/// The declared language of the nearest author mark among the (at most four) markup
/// tokens immediately before index `start`, nearest first; empty when none declares one.
pub open spec fn hint_from(h: Seq<char>, tags: Seq<(int, int)>, k: int, stop: int) -> Seq<char>
    decreases k - stop,
{
    if k <= stop || k <= 0 || k > tags.len() {
        Seq::empty()
    } else {
        let t = tags[k - 1];
        let label = lang_label(ascii_lower_seq(h.subrange(t.0, t.1)));
        if label.len() > 0 {
            label
        } else {
            hint_from(h, tags, k - 1, stop)
        }
    }
}

/// The declared language of the code span starting at `start` (see [`hint_from`]).
pub open spec fn hint_before(h: Seq<char>, tags: Seq<(int, int)>, start: int) -> Seq<char> {
    let before = tokens_before(tags, start);
    hint_from(h, tags, before, before - 4)
}

/// The language markup token `i` of `h` declares (see [`lang_label`]).
pub open spec fn token_label(h: Seq<char>, tags: Seq<(int, int)>, i: int) -> Seq<char> {
    lang_label(ascii_lower_seq(h.subrange(tags[i].0, tags[i].1)))
}

proof fn lemma_tokens_before_bound(tags: Seq<(int, int)>, start: int)
    ensures
        0 <= tokens_before(tags, start) <= tags.len(),
    decreases tags.len(),
{
    if tags.len() > 0 {
        lemma_tokens_before_bound(tags.drop_last(), start);
    }
}

proof fn lemma_hint_from(h: Seq<char>, tags: Seq<(int, int)>, k: int, stop: int, j: int)
    requires
        k <= tags.len(),
        j < k,
        forall|i: int| j < i < k && i >= 0 ==> token_label(h, tags, i).len() == 0,
    ensures
        j >= 0 && j >= stop && token_label(h, tags, j).len() > 0 ==> hint_from(h, tags, k, stop) == token_label(h, tags, j),
        (j < 0 || j < stop) ==> hint_from(h, tags, k, stop).len() == 0,
    decreases k - stop,
{
    if !(k <= stop || k <= 0) {
        if k - 1 > j {
            assert(token_label(h, tags, k - 1).len() == 0);
            lemma_hint_from(h, tags, k - 1, stop, j);
        }
    }
}

/// The declared language of a code span is that of the nearest of the (at most four)
/// markup tokens right before it that declares one, and empty when none of them does.
pub proof fn law_hint_is_the_nearest_declared_language(h: Seq<char>, tags: Seq<(int, int)>, start: int, j: int)
    ensures
        ({
            let k = tokens_before(tags, start);
            k - 4 <= j < k && 0 <= j && token_label(h, tags, j).len() > 0 && (forall|i: int|
                j < i < k ==> (#[trigger] token_label(h, tags, i)).len() == 0) ==> hint_before(h, tags, start) == token_label(h, tags, j)
        }),
        ({
            let k = tokens_before(tags, start);
            (forall|i: int| k - 4 <= i < k && 0 <= i ==> (#[trigger] token_label(h, tags, i)).len() == 0) ==> hint_before(h, tags, start).len()
                == 0
        }),
{
    let k = tokens_before(tags, start);
    lemma_tokens_before_bound(tags, start);
    if k - 4 <= j < k && 0 <= j && token_label(h, tags, j).len() > 0 && (forall|i: int|
        j < i < k ==> (#[trigger] token_label(h, tags, i)).len() == 0) {
        lemma_hint_from(h, tags, k, k - 4, j);
    }
    if forall|i: int| k - 4 <= i < k && 0 <= i ==> (#[trigger] token_label(h, tags, i)).len() == 0 {
        let j2 = if k - 5 < -1 { -1 } else { k - 5 };
        lemma_hint_from(h, tags, k, k - 4, j2);
    }
}

/// One read unit as plain values: the code span's byte offset, its governing prose, the
/// code as served, and the declared language.
pub struct UnitV {
    pub at: nat,
    pub prose: Seq<char>,
    pub code: Seq<char>,
    pub hint: Seq<char>,
}

/// The unit of the code run `i..=j` of a page, or `None` when its code is too short or
/// implausible.
pub open spec fn unit_of(h: Seq<char>, tags: Seq<(int, int)>, r: ReadV, i: int, j: int) -> Option<UnitV> {
    let gs = r.gaps;
    let start = gs[i].start;
    let code = strip_code_spec(h.subrange(start, gs[j].end));
    let plausible = span_words(gs, i, j + 1) >= 2 || exists|q: int|
        0 <= q < code.len() && !unicode_alphanumeric(#[trigger] code[q]) && !unicode_white_space(code[q]);
    if byte_len(trim(code)) >= 3 && plausible {
        let lb = last_boundary(r, i);
        let prose_from = if lb >= 0 { gs[lb].end } else { 0 };
        Some(UnitV {
            at: byte_len(h.take(start)),
            prose: governing_tail(strip_code_spec(h.subrange(prose_from, start))),
            code,
            hint: hint_before(h, tags, start),
        })
    } else {
        None
    }
}

/// The units of the code runs of a page from gap `i` on, in order.
pub open spec fn units_from(h: Seq<char>, tags: Seq<(int, int)>, r: ReadV, i: int) -> Seq<UnitV>
    decreases r.gaps.len() - i,
{
    if i < 0 || i >= r.gaps.len() {
        Seq::empty()
    } else if !in_code(r, i) {
        units_from(h, tags, r, i + 1)
    } else {
        let j = code_run_end(r, i);
        if j < i || j >= r.gaps.len() {
            Seq::empty()
        } else {
            match unit_of(h, tags, r, i, j) {
                Some(u) => seq![u] + units_from(h, tags, r, j + 1),
                None => units_from(h, tags, r, j + 1),
            }
        }
    }
}

/// The units a calibrated brain reads off page body `h`: one per maximal run of code
/// gaps, governed by the prose since the last boundary before it; none from a brain that
/// is not calibrated.
pub open spec fn read_page_spec(lex: Seq<Seq<char>>, h: Seq<char>, split: u32, ceiling: u32, roles: Seq<(u64, i8)>) -> Seq<UnitV> {
    if split == 0 || ceiling == 0 {
        Seq::empty()
    } else {
        let sv = scan_of(lex, h);
        units_from(h, sv.tags, ReadV { split, ceiling, roles, gaps: sv.gaps }, 0)
    }
}


/// The reading of gaps `gs` by brain `m`.
pub open spec fn read_of(m: &Markup, gs: Seq<GapV>) -> ReadV {
    ReadV { split: m.split_pm, ceiling: m.title_ceiling, roles: m.tag_roles@, gaps: gs }
}

/// The per-gap code and shred judgments (see [`codey`] and [`shred`]).
fn judge_gaps(m: &Markup, gaps: &Vec<Gap>) -> (r: (Vec<bool>, Vec<bool>))
    requires
        roles_sorted(m.tag_roles@),
        gaps_fit(gap_views(gaps@)),
    ensures
        r.0@.len() == gaps@.len(),
        r.1@.len() == gaps@.len(),
        forall|k: int| 0 <= k < gaps@.len() ==> r.0@[k] == codey(read_of(m, gap_views(gaps@)), k),
        forall|k: int| 0 <= k < gaps@.len() ==> r.1@[k] == shred(read_of(m, gap_views(gaps@)), k),
{
    let ghost rd = read_of(m, gap_views(gaps@));
    let mut cs: Vec<bool> = Vec::new();
    let mut ss: Vec<bool> = Vec::new();
    let mut i: usize = 0;
    while i < gaps.len()
        invariant
            i <= gaps@.len(),
            rd == read_of(m, gap_views(gaps@)),
            roles_sorted(m.tag_roles@),
            gaps_fit(gap_views(gaps@)),
            cs@.len() == i,
            ss@.len() == i,
            forall|k: int| 0 <= k < i ==> cs@[k] == codey(rd, k),
            forall|k: int| 0 <= k < i ==> ss@[k] == shred(rd, k),
        decreases gaps@.len() - i,
    {
        let g = &gaps[i];
        proof {
            assert(gap_views(gaps@)[i as int] == gap_view(*g));
        }
        let role = m.stack_role(&g.stack);
        let c = match role {
            Some(c) => c,
            None => {
                let w = if g.words == 0 { 1 } else { g.words };
                let d = g.english * 1000 / w;
                d < m.split_pm && (g.symbolic || g.words >= 2)
            },
        };
        let sh = g.words <= SHRED_WORDS && !g.terminal && role != Some(false);
        cs.push(c);
        ss.push(sh);
        i = i + 1;
    }
    (cs, ss)
}

/// The per-gap title-shape judgments (see [`titleish`]).
fn title_gaps(m: &Markup, gaps: &Vec<Gap>, cs: &Vec<bool>) -> (r: Vec<bool>)
    requires
        roles_sorted(m.tag_roles@),
        cs@.len() == gaps@.len(),
        forall|k: int| 0 <= k < gaps@.len() ==> cs@[k] == codey(read_of(m, gap_views(gaps@)), k),
    ensures
        r@.len() == gaps@.len(),
        forall|k: int| 0 <= k < gaps@.len() ==> r@[k] == titleish(read_of(m, gap_views(gaps@)), k),
{
    let ghost rd = read_of(m, gap_views(gaps@));
    let n = gaps.len();
    let mut ts: Vec<bool> = Vec::new();
    let mut k: usize = 0;
    while k < n
        invariant
            n == gaps@.len(),
            k <= n,
            rd == read_of(m, gap_views(gaps@)),
            roles_sorted(m.tag_roles@),
            cs@.len() == n,
            forall|q: int| 0 <= q < n ==> cs@[q] == codey(rd, q),
            ts@.len() == k,
            forall|q: int| 0 <= q < k ==> ts@[q] == titleish(rd, q),
        decreases n - k,
    {
        let g = &gaps[k];
        proof {
            assert(gap_views(gaps@)[k as int] == gap_view(*g));
            if k > 0 {
                assert(gap_views(gaps@)[k - 1] == gap_view(gaps@[k - 1]));
            }
            if k + 1 < n {
                assert(gap_views(gaps@)[k + 1] == gap_view(gaps@[k + 1]));
            }
        }
        let from_prev = k > 0 && !cs[k - 1] && !gaps[k - 1].terminal && stacks_nest_exec(&gaps[k - 1].stack, &g.stack);
        let into_next = !g.terminal && k + 1 < n && stacks_nest_exec(&g.stack, &gaps[k + 1].stack);
        let flow = from_prev || into_next;
        assert(flow == open_flow(rd, k as int));
        let t = match m.stack_role(&g.stack) {
            Some(c) => !c,
            None => g.words <= m.title_ceiling && !g.punctuated && !g.symbolic && !flow,
        };
        ts.push(t);
        k = k + 1;
    }
    ts
}

/// A gap that cannot belong to a code run lies in none.
proof fn lemma_not_member(r: ReadV, k: int)
    requires
        0 <= k < r.gaps.len(),
        !member(r, k),
    ensures
        !in_code(r, k),
{
    if in_code(r, k) {
        let t = choose|t: int| 0 <= t < r.gaps.len() && #[trigger] codey(r, t) && members_between(r, k, t);
        assert(member(r, k));
    }
}

/// Inside a maximal run of members, a gap lies in code exactly when the run holds a code
/// gap.
proof fn lemma_run_in_code(r: ReadV, i: int, j: int, k: int)
    requires
        0 <= i <= k <= j < r.gaps.len(),
        i == 0 || !member(r, i - 1),
        j == r.gaps.len() - 1 || !member(r, j + 1),
        forall|u: int| i <= u <= j ==> #[trigger] member(r, u),
    ensures
        in_code(r, k) == exists|t: int| i <= t <= j && #[trigger] codey(r, t),
{
    if in_code(r, k) {
        let t = choose|t: int| 0 <= t < r.gaps.len() && #[trigger] codey(r, t) && members_between(r, k, t);
        if t < i {
            assert(member(r, i - 1));
        } else if t > j {
            assert(member(r, j + 1));
        }
        assert(i <= t <= j && codey(r, t));
    }
    if exists|t: int| i <= t <= j && #[trigger] codey(r, t) {
        let t = choose|t: int| i <= t <= j && #[trigger] codey(r, t);
        assert(members_between(r, k, t));
        assert(in_code(r, k));
    }
}

/// The per-gap in-code judgments (see [`in_code`]): each maximal run of members is code
/// exactly when it holds a code gap.
fn code_gaps(m: &Markup, gaps: &Vec<Gap>, cs: &Vec<bool>, ss: &Vec<bool>) -> (r: Vec<bool>)
    requires
        cs@.len() == gaps@.len(),
        ss@.len() == gaps@.len(),
        forall|k: int| 0 <= k < gaps@.len() ==> cs@[k] == codey(read_of(m, gap_views(gaps@)), k),
        forall|k: int| 0 <= k < gaps@.len() ==> ss@[k] == shred(read_of(m, gap_views(gaps@)), k),
    ensures
        r@.len() == gaps@.len(),
        forall|k: int| 0 <= k < gaps@.len() ==> r@[k] == in_code(read_of(m, gap_views(gaps@)), k),
{
    let ghost rd = read_of(m, gap_views(gaps@));
    let n = gaps.len();
    let mut ic: Vec<bool> = Vec::new();
    let mut i: usize = 0;
    while i < n
        invariant
            n == gaps@.len(),
            n == rd.gaps.len(),
            i <= n,
            rd == read_of(m, gap_views(gaps@)),
            cs@.len() == n,
            ss@.len() == n,
            forall|q: int| 0 <= q < n ==> cs@[q] == codey(rd, q),
            forall|q: int| 0 <= q < n ==> ss@[q] == shred(rd, q),
            ic@.len() == i,
            forall|q: int| 0 <= q < i ==> ic@[q] == in_code(rd, q),
            i == 0 || i == n || !member(rd, i - 1) || !member(rd, i as int),
        decreases n - i,
    {
        if !(cs[i] || ss[i]) {
            proof {
                lemma_not_member(rd, i as int);
            }
            ic.push(false);
            i = i + 1;
            continue;
        }
        let mut j: usize = i;
        while j + 1 < n && (cs[j + 1] || ss[j + 1])
            invariant
                n == rd.gaps.len(),
                i <= j < n,
                cs@.len() == n,
                ss@.len() == n,
                forall|q: int| 0 <= q < n ==> cs@[q] == codey(rd, q),
                forall|q: int| 0 <= q < n ==> ss@[q] == shred(rd, q),
                forall|u: int| i <= u <= j ==> #[trigger] member(rd, u),
            decreases n - j,
        {
            j = j + 1;
        }
        let mut any = false;
        let mut t: usize = i;
        while t <= j
            invariant
                i <= t <= j + 1,
                j < n,
                cs@.len() == n,
                forall|q: int| 0 <= q < n ==> cs@[q] == codey(rd, q),
                any == exists|q: int| i <= q < t && #[trigger] codey(rd, q),
            decreases j + 1 - t,
        {
            if cs[t] {
                any = true;
                assert(codey(rd, t as int));
            }
            proof {
                assert forall|q: int| i <= q < t + 1 && #[trigger] codey(rd, q) implies any by {
                    if q < t {
                        assert(exists|q2: int| i <= q2 < t && #[trigger] codey(rd, q2));
                    }
                }
            }
            t = t + 1;
        }
        let mut k: usize = i;
        while k <= j
            invariant
                n == rd.gaps.len(),
                i <= k <= j + 1,
                j < n,
                ic@.len() == k,
                forall|q: int| 0 <= q < k ==> ic@[q] == in_code(rd, q),
                i == 0 || !member(rd, i - 1),
                j == n - 1 || !member(rd, j + 1),
                forall|u: int| i <= u <= j ==> #[trigger] member(rd, u),
                any == exists|q: int| i <= q <= j && #[trigger] codey(rd, q),
            decreases j + 1 - k,
        {
            proof {
                lemma_run_in_code(rd, i as int, j as int, k as int);
            }
            ic.push(any);
            k = k + 1;
        }
        i = j + 1;
    }
    ic
}

/// The per-gap boundary judgments (see [`boundary`]).
fn boundary_gaps(ts: &Vec<bool>, ic: &Vec<bool>, Ghost(rd): Ghost<ReadV>) -> (r: Vec<bool>)
    requires
        ts@.len() == rd.gaps.len(),
        ic@.len() == rd.gaps.len(),
        forall|k: int| 0 <= k < rd.gaps.len() ==> ts@[k] == titleish(rd, k),
        forall|k: int| 0 <= k < rd.gaps.len() ==> ic@[k] == in_code(rd, k),
    ensures
        r@.len() == rd.gaps.len(),
        forall|k: int| 0 <= k < rd.gaps.len() ==> r@[k] == boundary(rd, k),
{
    let mut bs: Vec<bool> = Vec::new();
    let mut k: usize = 0;
    while k < ts.len()
        invariant
            k <= ts@.len(),
            ts@.len() == rd.gaps.len(),
            ic@.len() == rd.gaps.len(),
            forall|q: int| 0 <= q < rd.gaps.len() ==> ts@[q] == titleish(rd, q),
            forall|q: int| 0 <= q < rd.gaps.len() ==> ic@[q] == in_code(rd, q),
            bs@.len() == k,
            forall|q: int| 0 <= q < k ==> bs@[q] == boundary(rd, q),
        decreases ts@.len() - k,
    {
        bs.push(ts[k] && !ic[k]);
        k = k + 1;
    }
    bs
}


// ── Unit pieces ──────────────────────────────────────────────────────────────

/// Whether the gaps lie inside `lo..hi`, each nonempty and in order.
pub open spec fn gaps_within(gs: Seq<GapV>, lo: int, hi: int) -> bool {
    &&& forall|k: int| 0 <= k < gs.len() ==> lo <= (#[trigger] gs[k]).start < gs[k].end <= hi
    &&& forall|k: int, l: int| 0 <= k < l < gs.len() ==> (#[trigger] gs[k]).end <= (#[trigger] gs[l]).start
}

/// Whether the markup tokens lie inside `lo..hi`, each nonempty and in order.
pub open spec fn tags_within(ts: Seq<(int, int)>, lo: int, hi: int) -> bool {
    &&& forall|k: int| 0 <= k < ts.len() ==> lo <= (#[trigger] ts[k]).0 < ts[k].1 <= hi
    &&& forall|k: int, l: int| 0 <= k < l < ts.len() ==> (#[trigger] ts[k]).1 <= (#[trigger] ts[l]).0
}

proof fn lemma_scan_within(lex: Seq<Seq<char>>, h: Seq<char>, at: int, stack: Seq<(u32, u64)>, next: nat)
    requires
        0 <= at,
    ensures
        gaps_within(scan_from(lex, h, at, stack, next).gaps, at, h.len() as int),
        tags_within(scan_from(lex, h, at, stack, next).tags, at, h.len() as int),
    decreases h.len() - at,
{
    let sv = scan_from(lex, h, at, stack, next);
    if at < h.len() {
        if h[at] == '<' {
            let close = token_end(h, at);
            if at < close <= h.len() {
                let st = after_token(stack, next, h.subrange(at, close));
                lemma_scan_within(lex, h, close, st.0, st.1);
                let rest = scan_from(lex, h, close, st.0, st.1);
                assert(sv.tags == seq![(at, close)] + rest.tags);
                assert forall|k: int, l: int| 0 <= k < l < sv.tags.len() implies (#[trigger] sv.tags[k]).1 <= (
                #[trigger] sv.tags[l]).0 by {
                    if k == 0 {
                        assert(sv.tags[l] == rest.tags[l - 1]);
                    } else {
                        assert(sv.tags[k] == rest.tags[k - 1]);
                        assert(sv.tags[l] == rest.tags[l - 1]);
                    }
                }
                assert forall|k: int| 0 <= k < sv.tags.len() implies at <= (#[trigger] sv.tags[k]).0 < sv.tags[k].1
                    <= h.len() by {
                    if k > 0 {
                        assert(sv.tags[k] == rest.tags[k - 1]);
                    }
                }
            }
        } else {
            let end = text_end(h, at);
            if at < end <= h.len() {
                lemma_scan_within(lex, h, end, stack, next);
                let rest = scan_from(lex, h, end, stack, next);
                let g = gap_of(lex, h, at, end, stack);
                if g.words > 0 {
                    assert(sv.gaps == seq![g] + rest.gaps);
                    assert forall|k: int, l: int| 0 <= k < l < sv.gaps.len() implies (#[trigger] sv.gaps[k]).end <= (
                    #[trigger] sv.gaps[l]).start by {
                        if k == 0 {
                            assert(sv.gaps[l] == rest.gaps[l - 1]);
                        } else {
                            assert(sv.gaps[k] == rest.gaps[k - 1]);
                            assert(sv.gaps[l] == rest.gaps[l - 1]);
                        }
                    }
                    assert forall|k: int| 0 <= k < sv.gaps.len() implies at <= (#[trigger] sv.gaps[k]).start
                        < sv.gaps[k].end <= h.len() by {
                        if k > 0 {
                            assert(sv.gaps[k] == rest.gaps[k - 1]);
                        }
                    }
                }
            }
        }
    }
}

/// The governing tail of prose (see [`governing_tail`]).
fn governing_tail_exec(prose: &[char]) -> (r: Vec<char>)
    ensures
        r@ == governing_tail(prose@),
{
    let p = trimmed(prose);
    let n = p.len();
    if n <= GOVERNING_CTX {
        return p;
    }
    let ts = n - GOVERNING_CTX;
    let mut w: usize = ts;
    while w < n && !is_whitespace(p[w])
        invariant
            n == p@.len(),
            ts <= w <= n,
            first_ws_from(p@, ts as int) == first_ws_from(p@, w as int),
        decreases n - w,
    {
        w = w + 1;
    }
    if w < n {
        let tail = slice_chars(p.as_slice(), w, n);
        assert(tail@ =~= p@.skip(w as int));
        trimmed(tail.as_slice())
    } else {
        let tail = slice_chars(p.as_slice(), ts, n);
        assert(tail@ =~= p@.skip(ts as int));
        trimmed(tail.as_slice())
    }
}

/// The leading label run of `s` from index `from` (see [`label_run`]).
fn label_run_exec(s: &[char], from: usize) -> (r: Vec<char>)
    requires
        from <= s@.len(),
    ensures
        r@ == label_run(s@.skip(from as int)),
{
    let n = s.len();
    let mut out: Vec<char> = Vec::new();
    let mut k: usize = from;
    while k < n && (is_ascii_alnum(s[k]) || s[k] == '+' || s[k] == '#' || s[k] == '_' || s[k] == '-')
        invariant
            n == s@.len(),
            from <= k <= n,
            out@ + label_run(s@.skip(k as int)) == label_run(s@.skip(from as int)),
        decreases n - k,
    {
        let ghost before = out@;
        out.push(s[k]);
        proof {
            assert(s@.skip(k as int).drop_first() =~= s@.skip(k + 1));
            assert(out@ + label_run(s@.skip(k + 1)) =~= before + label_run(s@.skip(k as int)));
        }
        k = k + 1;
    }
    assert(out@ + Seq::<char>::empty() =~= out@);
    out
}

/// The language a lowercased markup token declares (see [`lang_label`]).
fn lang_label_exec(t: &[char]) -> (r: Vec<char>)
    ensures
        r@ == lang_label(t@),
{
    let lang: Vec<char> = vec!['l', 'a', 'n', 'g', 'u', 'a', 'g', 'e', '-'];
    let brush: Vec<char> = vec!['b', 'r', 'u', 's', 'h', ':'];
    proof {
        assert(lang@ =~= language_mark());
        assert(brush@ =~= brush_mark());
        lemma_find_from(t@, language_mark(), 0);
        lemma_find_from(t@, brush_mark(), 0);
    }
    match find(t, lang.as_slice(), 0) {
        Some(a) => {
            assert(language_mark().len() == 9);
            let n = t.len();
            assert(a + 9 <= n);
            return label_run_exec(t, a + 9);
        },
        None => {},
    }
    match find(t, brush.as_slice(), 0) {
        Some(b) => {
            assert(brush_mark().len() == 6);
            let n = t.len();
            assert(b + 6 <= n);
            let mut k: usize = b + 6;
            assert(t@.skip(k as int) =~= t@.skip(b + 6));
            while k < t.len() && t[k] == ' '
                invariant
                    b + 6 <= k <= t@.len(),
                    skip_spaces(t@.skip(b + 6)) == skip_spaces(t@.skip(k as int)),
                decreases t@.len() - k,
            {
                assert(t@.skip(k as int).drop_first() =~= t@.skip(k + 1));
                k = k + 1;
            }
            label_run_exec(t, k)
        },
        None => Vec::new(),
    }
}

proof fn lemma_tokens_before(tags: Seq<(int, int)>, start: int)
    ensures
        0 <= tokens_before(tags, start) <= tags.len(),
        forall|k: int| 0 <= k < tokens_before(tags, start) ==> (#[trigger] tags[k]).0 < start,
        tokens_before(tags, start) < tags.len() ==> tags[tokens_before(tags, start)].0 >= start,
    decreases tags.len(),
{
    if tags.len() > 0 {
        lemma_tokens_before(tags.drop_last(), start);
        assert forall|k: int| 0 <= k < tags.len() - 1 implies tags.drop_last()[k] == tags[k] by {}
    }
}

/// The declared language of the code span starting at `start` (see [`hint_before`]).
fn hint_before_exec(h: &[char], tags: &Vec<(usize, usize)>, start: usize) -> (r: Vec<char>)
    requires
        tags_within(tags@.map_values(|t: (usize, usize)| (t.0 as int, t.1 as int)), 0, h@.len() as int),
    ensures
        r@ == hint_before(h@, tags@.map_values(|t: (usize, usize)| (t.0 as int, t.1 as int)), start as int),
{
    let ghost tv = tags@.map_values(|t: (usize, usize)| (t.0 as int, t.1 as int));
    proof {
        lemma_tokens_before(tv, start as int);
    }
    let mut before: usize = 0;
    while before < tags.len() && tags[before].0 < start
        invariant
            before <= tags@.len(),
            tv == tags@.map_values(|t: (usize, usize)| (t.0 as int, t.1 as int)),
            forall|k: int| 0 <= k < before ==> (#[trigger] tv[k]).0 < start,
            before <= tokens_before(tv, start as int),
            0 <= tokens_before(tv, start as int) <= tv.len(),
            forall|k: int| 0 <= k < tokens_before(tv, start as int) ==> (#[trigger] tv[k]).0 < start,
            tokens_before(tv, start as int) < tv.len() ==> tv[tokens_before(tv, start as int)].0 >= start,
        decreases tags@.len() - before,
    {
        assert(tv[before as int] == (tags@[before as int].0 as int, tags@[before as int].1 as int));
        before = before + 1;
    }
    proof {
        if before < tags@.len() {
            assert(tv[before as int].0 >= start);
        }
    }
    assert(before as int == tokens_before(tv, start as int));
    let mut k: usize = before;
    let mut left: usize = 4;
    while k > 0 && left > 0
        invariant
            k <= before,
            before as int == tokens_before(tv, start as int),
            before <= tags@.len(),
            left as int == k as int - (before as int - 4),
            left <= 4,
            tv == tags@.map_values(|t: (usize, usize)| (t.0 as int, t.1 as int)),
            tags_within(tv, 0, h@.len() as int),
            hint_before(h@, tv, start as int) == hint_from(h@, tv, k as int, before - 4),
        decreases k,
    {
        let (open, close) = tags[k - 1];
        proof {
            assert(tv[k - 1] == (open as int, close as int));
        }
        let raw = slice_chars(h, open, close);
        let mut low: Vec<char> = Vec::new();
        let mut q: usize = 0;
        while q < raw.len()
            invariant
                q <= raw@.len(),
                low@ == ascii_lower_seq(raw@).take(q as int),
            decreases raw@.len() - q,
        {
            low.push(to_ascii_lower(raw[q]));
            q = q + 1;
            assert(low@ =~= ascii_lower_seq(raw@).take(q as int));
        }
        assert(ascii_lower_seq(raw@).take(q as int) =~= ascii_lower_seq(raw@));
        let label = lang_label_exec(low.as_slice());
        if label.len() > 0 {
            return label;
        }
        k = k - 1;
        left = left - 1;
    }
    Vec::new()
}

/// The byte offset of character index `k` of `h`.
fn byte_offset(h: &[char], k: usize) -> (r: usize)
    requires
        k <= h@.len(),
        byte_len(h@) <= usize::MAX,
    ensures
        r == byte_len(h@.take(k as int)),
{
    let mut total: usize = 0;
    let mut i: usize = 0;
    assert(h@.take(0) =~= Seq::<char>::empty());
    while i < k
        invariant
            i <= k <= h@.len(),
            byte_len(h@) <= usize::MAX,
            total == byte_len(h@.take(i as int)),
        decreases k - i,
    {
        proof {
            lemma_byte_len_push(h@.take(i as int), h@[i as int]);
            assert(h@.take(i as int).push(h@[i as int]) =~= h@.take(i + 1));
            lemma_byte_len_concat(h@.take(i + 1), h@.skip(i + 1));
            assert(h@.take(i + 1) + h@.skip(i + 1) =~= h@);
        }
        total = total + width_of(h[i]);
        i = i + 1;
    }
    total
}


// ── Units ────────────────────────────────────────────────────────────────────

/// One read unit of a page: the code span's byte offset in the body, the prose that
/// governs it, the code as served (markup tokens dropped, entities decoded, lines kept),
/// and the language the author declared for it (empty when none).
pub struct PageUnit {
    pub at: usize,
    pub prose: String,
    pub code: String,
    pub hint: String,
}

/// A unit as plain values.
pub open spec fn unit_view(u: PageUnit) -> UnitV {
    UnitV { at: u.at as nat, prose: u.prose@, code: u.code@, hint: u.hint@ }
}

/// Units as plain values.
pub open spec fn unit_views(v: Seq<PageUnit>) -> Seq<UnitV> {
    v.map_values(|u: PageUnit| unit_view(u))
}

proof fn lemma_span_words_grows(gs: Seq<GapV>, i: int, a: int, b: int)
    requires
        i <= a <= b,
    ensures
        span_words(gs, i, a) <= span_words(gs, i, b),
    decreases b - a,
{
    if a < b {
        lemma_span_words_grows(gs, i, a, b - 1);
    }
}

/// The unit of the code run `i..=j` (see [`unit_of`]).
fn unit_at(
    h: &[char],
    tags: &Vec<(usize, usize)>,
    gaps: &Vec<Gap>,
    bs: &Vec<bool>,
    i: usize,
    j: usize,
    Ghost(rd): Ghost<ReadV>,
) -> (r: Option<PageUnit>)
    requires
        rd.gaps == gap_views(gaps@),
        i <= j < gaps@.len(),
        gaps_within(rd.gaps, 0, h@.len() as int),
        tags_within(tags@.map_values(|t: (usize, usize)| (t.0 as int, t.1 as int)), 0, h@.len() as int),
        bs@.len() == gaps@.len(),
        forall|k: int| 0 <= k < gaps@.len() ==> bs@[k] == boundary(rd, k),
        byte_len(h@) <= usize::MAX,
    ensures
        match r {
            Some(u) => unit_of(h@, tags@.map_values(|t: (usize, usize)| (t.0 as int, t.1 as int)), rd, i as int, j as int)
                == Some(unit_view(u)),
            None => unit_of(h@, tags@.map_values(|t: (usize, usize)| (t.0 as int, t.1 as int)), rd, i as int, j as int)
                is None,
        },
{
    let ghost tv = tags@.map_values(|t: (usize, usize)| (t.0 as int, t.1 as int));
    proof {
        assert(rd.gaps[i as int] == gap_view(gaps@[i as int]));
        assert(rd.gaps[j as int] == gap_view(gaps@[j as int]));
        if i < j {
            assert(rd.gaps[i as int].end <= rd.gaps[j as int].start);
        }
    }
    let start = gaps[i].start;
    let end = gaps[j].end;
    let raw = slice_chars(h, start, end);
    let code = strip_code(raw.as_slice());
    let mut acc: u64 = 0;
    let mut q: usize = i;
    let ng = gaps.len();
    while q <= j && acc < 2
        invariant
            i <= q <= j + 1,
            j < ng,
            ng == gaps@.len(),
            rd.gaps == gap_views(gaps@),
            acc == span_words(rd.gaps, i as int, q as int),
            acc <= 2 + u32::MAX,
        decreases j + 1 - q,
    {
        proof {
            assert(rd.gaps[q as int] == gap_view(gaps@[q as int]));
        }
        acc = acc + gaps[q].words as u64;
        q = q + 1;
    }
    proof {
        lemma_span_words_grows(rd.gaps, i as int, q as int, j + 1);
    }
    let mut sym = false;
    let mut c: usize = 0;
    while c < code.len()
        invariant
            c <= code@.len(),
            sym == exists|x: int| 0 <= x < c && !unicode_alphanumeric(#[trigger] code@[x]) && !unicode_white_space(code@[x]),
        decreases code@.len() - c,
    {
        if !is_alphanumeric(code[c]) && !is_whitespace(code[c]) {
            sym = true;
        }
        proof {
            assert forall|x: int| 0 <= x < c + 1 && !unicode_alphanumeric(#[trigger] code@[x]) && !unicode_white_space(code@[x])
                implies sym by {
                if x < c {
                    assert(exists|x2: int| 0 <= x2 < c && !unicode_alphanumeric(#[trigger] code@[x2]) && !unicode_white_space(code@[x2]));
                }
            }
        }
        c = c + 1;
    }
    let plausible = acc >= 2 || sym;
    let t = trimmed(code.as_slice());
    if !(byte_len_at_least(t.as_slice(), 3) && plausible) {
        return None;
    }
    let mut lb: usize = i;
    while lb > 0 && !bs[lb - 1]
        invariant
            lb <= i,
            i < bs@.len(),
            bs@.len() == rd.gaps.len(),
            forall|k: int| 0 <= k < rd.gaps.len() ==> bs@[k] == boundary(rd, k),
            last_boundary(rd, i as int) == last_boundary(rd, lb as int),
        decreases lb,
    {
        lb = lb - 1;
    }
    let prose_from = if lb > 0 { gaps[lb - 1].end } else { 0 };
    proof {
        if lb > 0 {
            assert(rd.gaps[lb - 1] == gap_view(gaps@[lb - 1]));
            assert(last_boundary(rd, i as int) == lb - 1);
            if lb - 1 < i {
                assert(rd.gaps[lb - 1].end <= rd.gaps[i as int].start);
            }
        } else {
            assert(last_boundary(rd, i as int) == -1);
        }
    }
    let before = slice_chars(h, prose_from, start);
    let prose = governing_tail_exec(strip_code(before.as_slice()).as_slice());
    let hint = hint_before_exec(h, tags, start);
    let at = byte_offset(h, start);
    let u = PageUnit { at, prose: string_of(prose.as_slice()), code: string_of(code.as_slice()), hint: string_of(hint.as_slice()) };
    proof {
        assert(unit_view(u) == unit_of(h@, tv, rd, i as int, j as int).unwrap());
    }
    Some(u)
}

/// The units of every code run, in order (see [`units_from`]).
#[verifier::spinoff_prover]
#[verifier::rlimit(50)]
fn units_of(
    h: &[char],
    tags: &Vec<(usize, usize)>,
    gaps: &Vec<Gap>,
    ic: &Vec<bool>,
    bs: &Vec<bool>,
    Ghost(rd): Ghost<ReadV>,
) -> (r: Vec<PageUnit>)
    requires
        rd.gaps == gap_views(gaps@),
        gaps_within(rd.gaps, 0, h@.len() as int),
        tags_within(tags@.map_values(|t: (usize, usize)| (t.0 as int, t.1 as int)), 0, h@.len() as int),
        ic@.len() == gaps@.len(),
        bs@.len() == gaps@.len(),
        forall|k: int| 0 <= k < gaps@.len() ==> ic@[k] == in_code(rd, k),
        forall|k: int| 0 <= k < gaps@.len() ==> bs@[k] == boundary(rd, k),
        byte_len(h@) <= usize::MAX,
    ensures
        unit_views(r@) == units_from(h@, tags@.map_values(|t: (usize, usize)| (t.0 as int, t.1 as int)), rd, 0),
{
    let ghost tv = tags@.map_values(|t: (usize, usize)| (t.0 as int, t.1 as int));
    let n = gaps.len();
    let mut out: Vec<PageUnit> = Vec::new();
    let mut i: usize = 0;
    assert(unit_views(out@) + units_from(h@, tv, rd, 0) =~= units_from(h@, tv, rd, 0));
    while i < n
        invariant
            n == gaps@.len(),
            n == rd.gaps.len(),
            i <= n,
            rd.gaps == gap_views(gaps@),
            gaps_within(rd.gaps, 0, h@.len() as int),
            tags_within(tv, 0, h@.len() as int),
            tv == tags@.map_values(|t: (usize, usize)| (t.0 as int, t.1 as int)),
            ic@.len() == n,
            bs@.len() == n,
            forall|k: int| 0 <= k < n ==> ic@[k] == in_code(rd, k),
            forall|k: int| 0 <= k < n ==> bs@[k] == boundary(rd, k),
            byte_len(h@) <= usize::MAX,
            unit_views(out@) + units_from(h@, tv, rd, i as int) == units_from(h@, tv, rd, 0),
        decreases n - i,
    {
        if !ic[i] {
            i = i + 1;
            continue;
        }
        let mut j: usize = i;
        while j + 1 < n && ic[j + 1]
            invariant
                n == rd.gaps.len(),
                i <= j < n,
                ic@.len() == n,
                forall|k: int| 0 <= k < n ==> ic@[k] == in_code(rd, k),
                code_run_end(rd, i as int) == code_run_end(rd, j as int),
            decreases n - j,
        {
            j = j + 1;
        }
        let ghost before = unit_views(out@);
        let ghost rest = units_from(h@, tv, rd, j + 1);
        match unit_at(h, tags, gaps, bs, i, j, Ghost(rd)) {
            Some(u) => {
                out.push(u);
                proof {
                    assert(unit_views(out@) =~= before.push(unit_view(u)));
                    assert(unit_views(out@) + rest =~= before + (seq![unit_view(u)] + rest));
                }
            },
            None => {},
        }
        i = j + 1;
    }
    assert(unit_views(out@) + Seq::<UnitV>::empty() =~= unit_views(out@));
    out
}

/// READ one raw page body (script, style and chrome already dropped) into its units: the
/// register of each gap decides what is code, learned roles and title-shaped gaps bound
/// the governing prose, and no tag name is consulted. A brain that is not calibrated reads
/// nothing (see [`read_page_spec`]).
pub fn read_page(body: &str, lex: &Lexicon, markup: &Markup) -> (r: Vec<PageUnit>)
    requires
        markup.split_pm > 0 && markup.title_ceiling > 0 ==> roles_sorted(markup.tag_roles@),
        markup.split_pm > 0 && markup.title_ceiling > 0 ==> scan_fits(lex.words.deep_view(), body@),
        byte_len(body@) <= usize::MAX,
    ensures
        unit_views(r@) == read_page_spec(
            lex.words.deep_view(),
            body@,
            markup.split_pm,
            markup.title_ceiling,
            markup.tag_roles@,
        ),
{
    if !markup.is_ready() {
        return Vec::new();
    }
    let h = chars_of(body);
    let (gaps, tags) = scan(lex, h.as_slice());
    let ghost sv = scan_of(lex.words.deep_view(), body@);
    let ghost rd = read_of(markup, gap_views(gaps@));
    proof {
        lemma_scan_within(lex.words.deep_view(), body@, 0, Seq::empty(), 0);
    }
    let (cs, ss) = judge_gaps(markup, &gaps);
    let ts = title_gaps(markup, &gaps, &cs);
    let ic = code_gaps(markup, &gaps, &cs, &ss);
    let bs = boundary_gaps(&ts, &ic, Ghost(rd));
    let units = units_of(h.as_slice(), &tags, &gaps, &ic, &bs, Ghost(rd));
    assert(rd == ReadV { split: markup.split_pm, ceiling: markup.title_ceiling, roles: markup.tag_roles@, gaps: sv.gaps });
    units
}


// ── Calibration ──────────────────────────────────────────────────────────────

/// The bins of the density histogram (0 to 100, tenths of per mille).
pub const HIST_BINS: usize = 101;

/// The histogram bin of a gap's density.
pub open spec fn density_bin(g: GapV) -> int {
    let b = density(g) / 10;
    if b > 100 {
        100
    } else {
        b as int
    }
}

/// Whether gap `k` continues an open prose sentence: the previous gap is unterminated
/// majority-English prose that flows into it, or it is unterminated and flows into the
/// next.
pub open spec fn gap_open_flow(gs: Seq<GapV>, k: int) -> bool {
    (k > 0 && !gs[k - 1].terminal && gs[k - 1].english * 2 >= gs[k - 1].words && stacks_nest(
        gs[k - 1].stack,
        gs[k].stack,
    )) || (!gs[k].terminal && k + 1 < gs.len() && stacks_nest(gs[k].stack, gs[k + 1].stack))
}

/// Whether gap `k` is a title-shape candidate: unpunctuated, majority-English, and not
/// continuing an open sentence.
pub open spec fn title_candidate(gs: Seq<GapV>, k: int) -> bool {
    !gs[k].punctuated && gs[k].english * 2 >= gs[k].words && !gap_open_flow(gs, k)
}

/// `hist` with the words of the first `upto` gaps of `gs` added to their density bins.
pub open spec fn page_hist(hist: Seq<nat>, gs: Seq<GapV>, upto: int) -> Seq<nat>
    decreases upto,
{
    if upto <= 0 || upto > gs.len() {
        hist
    } else {
        let h = page_hist(hist, gs, upto - 1);
        let b = density_bin(gs[upto - 1]);
        h.update(b, h[b] + gs[upto - 1].words)
    }
}

/// The word counts of the title-shape candidates among the first `upto` gaps of `gs`.
pub open spec fn page_titles(gs: Seq<GapV>, upto: int) -> Seq<nat>
    decreases upto,
{
    if upto <= 0 || upto > gs.len() {
        Seq::empty()
    } else if title_candidate(gs, upto - 1) {
        page_titles(gs, upto - 1).push(gs[upto - 1].words)
    } else {
        page_titles(gs, upto - 1)
    }
}

/// The gaps of every page.
pub open spec fn corpus_gaps(lex: Seq<Seq<char>>, bodies: Seq<Seq<char>>) -> Seq<Seq<GapV>> {
    bodies.map_values(|b: Seq<char>| scan_of(lex, b).gaps)
}

// ── Corpus limits the calibration's arithmetic fits ─────────────────────────

/// The words of all the gaps of `gs`.
pub open spec fn words_total(gs: Seq<GapV>) -> nat
    decreases gs.len(),
{
    if gs.len() == 0 {
        0
    } else {
        words_total(gs.drop_last()) + gs.last().words
    }
}

/// The characters of all the pages of a corpus.
pub open spec fn chars_total(bodies: Seq<Seq<char>>) -> nat
    decreases bodies.len(),
{
    if bodies.len() == 0 {
        0
    } else {
        chars_total(bodies.drop_last()) + bodies.last().len()
    }
}

proof fn lemma_english_count_le(lex: Seq<Seq<char>>, ws: Seq<Seq<char>>)
    ensures
        english_count(lex, ws) <= ws.len(),
    decreases ws.len(),
{
    if ws.len() > 0 {
        lemma_english_count_le(lex, ws.drop_last());
    }
}

proof fn lemma_words_total_prepend(g: GapV, r: Seq<GapV>)
    ensures
        words_total(seq![g] + r) == g.words + words_total(r),
    decreases r.len(),
{
    let s = seq![g] + r;
    if r.len() > 0 {
        assert(s.drop_last() =~= seq![g] + r.drop_last());
        assert(s.last() == r.last());
        lemma_words_total_prepend(g, r.drop_last());
    } else {
        assert(s.drop_last() =~= Seq::<GapV>::empty());
        assert(s.last() == g);
        assert(words_total(Seq::<GapV>::empty()) == 0);
    }
}

/// A scan from `at` opens at most one instance per character left and keeps gaps whose
/// words, in all, number at most the characters left, each with no more English words than
/// words.
proof fn lemma_scan_bounds(lex: Seq<Seq<char>>, h: Seq<char>, at: int, stack: Seq<(u32, u64)>, next: nat)
    requires
        0 <= at <= h.len(),
    ensures
        scan_from(lex, h, at, stack, next).next <= next + (h.len() - at),
        words_total(scan_from(lex, h, at, stack, next).gaps) <= h.len() - at,
        forall|k: int| 0 <= k < scan_from(lex, h, at, stack, next).gaps.len() ==> {
            &&& (#[trigger] scan_from(lex, h, at, stack, next).gaps[k]).words <= h.len() - at
            &&& scan_from(lex, h, at, stack, next).gaps[k].english <= scan_from(lex, h, at, stack, next).gaps[k].words
        },
    decreases h.len() - at,
{
    let r = scan_from(lex, h, at, stack, next);
    if at < h.len() {
        if h[at] == '<' {
            let close = token_end(h, at);
            if at < close <= h.len() {
                let st = after_token(stack, next, h.subrange(at, close));
                assert(st.1 <= next + 1);
                lemma_scan_bounds(lex, h, close, st.0, st.1);
            }
        } else {
            let end = text_end(h, at);
            if at < end <= h.len() {
                let g = gap_of(lex, h, at, end, stack);
                let t = h.subrange(at, end);
                lemma_words_len(t);
                lemma_english_count_le(lex, words(t));
                lemma_scan_bounds(lex, h, end, stack, next);
                let rest = scan_from(lex, h, end, stack, next);
                if g.words > 0 {
                    lemma_words_total_prepend(g, rest.gaps);
                    assert forall|k: int| 0 <= k < r.gaps.len() implies (#[trigger] r.gaps[k]).words <= h.len() - at
                        && r.gaps[k].english <= r.gaps[k].words by {
                        if k > 0 {
                            assert(r.gaps[k] == rest.gaps[k - 1]);
                        }
                    }
                }
            }
        }
    }
}

proof fn lemma_page_hist_bound(hist: Seq<nat>, gs: Seq<GapV>, upto: int, x: int)
    requires
        0 <= upto <= gs.len(),
        hist.len() == HIST_BINS,
        0 <= x < hist.len(),
    ensures
        page_hist(hist, gs, upto).len() == hist.len(),
        page_hist(hist, gs, upto)[x] <= hist[x] + words_total(gs.take(upto)),
    decreases upto,
{
    if upto > 0 {
        lemma_page_hist_bound(hist, gs, upto - 1, x);
        assert(gs.take(upto).drop_last() =~= gs.take(upto - 1));
        assert(gs.take(upto).last() == gs[upto - 1]);
        let b = density_bin(gs[upto - 1]);
        assert(0 <= b < HIST_BINS);
    } else {
        assert(gs.take(0) =~= Seq::<GapV>::empty());
        assert(page_hist(hist, gs, upto) == hist);
    }
}

proof fn lemma_corpus_hist_bound(gss: Seq<Seq<GapV>>, x: int, lens: Seq<nat>)
    requires
        0 <= x < HIST_BINS,
        lens.len() == gss.len(),
        forall|p: int| 0 <= p < gss.len() ==> words_total(#[trigger] gss[p]) <= lens[p],
    ensures
        corpus_hist(gss).len() == HIST_BINS,
        corpus_hist(gss)[x] <= nat_total(lens),
    decreases gss.len(),
{
    if gss.len() > 0 {
        let gs = gss.last();
        lemma_corpus_hist_bound(gss.drop_last(), x, lens.drop_last());
        lemma_page_hist_bound(corpus_hist(gss.drop_last()), gs, gs.len() as int, x);
        assert(gs.take(gs.len() as int) =~= gs);
        assert(words_total(gss[gss.len() - 1]) <= lens[lens.len() - 1]);
    }
}

/// The sum of a sequence of naturals.
pub open spec fn nat_total(s: Seq<nat>) -> nat
    decreases s.len(),
{
    if s.len() == 0 {
        0
    } else {
        nat_total(s.drop_last()) + s.last()
    }
}

/// Where a corpus holds at most `u64::MAX` characters in all, every density bin of its
/// histogram fits a `u64`.
proof fn lemma_corpus_hist_fits(lex: Seq<Seq<char>>, bodies: Seq<Seq<char>>)
    requires
        chars_total(bodies) <= u64::MAX,
    ensures
        forall|x: int| 0 <= x < HIST_BINS ==> #[trigger] corpus_hist(corpus_gaps(lex, bodies))[x] <= u64::MAX,
{
    let lens = bodies.map_values(|b: Seq<char>| b.len());
    let gss = corpus_gaps(lex, bodies);
    assert forall|p: int| 0 <= p < gss.len() implies words_total(#[trigger] gss[p]) <= lens[p] by {
        lemma_scan_bounds(lex, bodies[p], 0, Seq::empty(), 0);
    }
    lemma_chars_total_lens(bodies);
    assert forall|x: int| 0 <= x < HIST_BINS implies #[trigger] corpus_hist(gss)[x] <= u64::MAX by {
        lemma_corpus_hist_bound(gss, x, lens);
    }
}

proof fn lemma_chars_total_prefix(bodies: Seq<Seq<char>>, k: int)
    requires
        0 <= k <= bodies.len(),
    ensures
        chars_total(bodies.take(k)) <= chars_total(bodies),
    decreases bodies.len(),
{
    if k < bodies.len() {
        assert(bodies.drop_last().take(k) =~= bodies.take(k));
        lemma_chars_total_prefix(bodies.drop_last(), k);
    } else {
        assert(bodies.take(k) =~= bodies);
    }
}

proof fn lemma_chars_total_lens(bodies: Seq<Seq<char>>)
    ensures
        nat_total(bodies.map_values(|b: Seq<char>| b.len())) == chars_total(bodies),
    decreases bodies.len(),
{
    if bodies.len() > 0 {
        assert(bodies.map_values(|b: Seq<char>| b.len()).drop_last() =~= bodies.drop_last().map_values(
            |b: Seq<char>| b.len(),
        ));
        lemma_chars_total_lens(bodies.drop_last());
    }
}

/// The density histogram of a corpus: every gap's words in its density bin.
pub open spec fn corpus_hist(gss: Seq<Seq<GapV>>) -> Seq<nat>
    decreases gss.len(),
{
    if gss.len() == 0 {
        Seq::new(HIST_BINS as nat, |i: int| 0nat)
    } else {
        page_hist(corpus_hist(gss.drop_last()), gss.last(), gss.last().len() as int)
    }
}

/// The title-shape candidates' word counts of a corpus, page by page.
pub open spec fn corpus_titles(gss: Seq<Seq<GapV>>) -> Seq<nat>
    decreases gss.len(),
{
    if gss.len() == 0 {
        Seq::empty()
    } else {
        corpus_titles(gss.drop_last()) + page_titles(gss.last(), gss.last().len() as int)
    }
}

proof fn lemma_page_hist(hist: Seq<nat>, gs: Seq<GapV>, a: int, b: int)
    requires
        hist.len() == HIST_BINS,
        0 <= a <= b <= gs.len(),
    ensures
        page_hist(hist, gs, b).len() == HIST_BINS,
        forall|x: int| 0 <= x < HIST_BINS ==> #[trigger] page_hist(hist, gs, a)[x] <= page_hist(hist, gs, b)[x],
        forall|x: int| 0 <= x < HIST_BINS ==> hist[x] <= #[trigger] page_hist(hist, gs, b)[x],
    decreases b,
{
    if b > 0 {
        if a < b {
            lemma_page_hist(hist, gs, a, b - 1);
        }
        lemma_page_hist(hist, gs, 0, b - 1);
        assert(page_hist(hist, gs, 0) == hist);
    } else {
        assert(page_hist(hist, gs, 0) == hist);
    }
}

proof fn lemma_corpus_hist(gss: Seq<Seq<GapV>>, i: int)
    requires
        0 <= i <= gss.len(),
    ensures
        corpus_hist(gss.take(i)).len() == HIST_BINS,
        corpus_hist(gss).len() == HIST_BINS,
        forall|x: int| 0 <= x < HIST_BINS ==> #[trigger] corpus_hist(gss.take(i))[x] <= corpus_hist(gss)[x],
    decreases gss.len(),
{
    if gss.len() == 0 {
        assert(gss.take(i) =~= gss);
    } else if i == gss.len() {
        assert(gss.take(i) =~= gss);
        lemma_corpus_hist(gss.drop_last(), 0);
        lemma_page_hist(corpus_hist(gss.drop_last()), gss.last(), 0, gss.last().len() as int);
    } else {
        lemma_corpus_hist(gss.drop_last(), i);
        assert(gss.drop_last().take(i) =~= gss.take(i));
        lemma_page_hist(corpus_hist(gss.drop_last()), gss.last(), 0, gss.last().len() as int);
    }
}

/// Whether gap `k` continues an open sentence (see [`gap_open_flow`]).
fn gap_open_flow_exec(gaps: &Vec<Gap>, k: usize) -> (r: bool)
    requires
        k < gaps@.len(),
    ensures
        r == gap_open_flow(gap_views(gaps@), k as int),
{
    proof {
        assert(gap_views(gaps@)[k as int] == gap_view(gaps@[k as int]));
        if k > 0 {
            assert(gap_views(gaps@)[k - 1] == gap_view(gaps@[k - 1]));
        }
        if k + 1 < gaps@.len() {
            assert(gap_views(gaps@)[k + 1] == gap_view(gaps@[k + 1]));
        }
    }
    let n = gaps.len();
    let g = &gaps[k];
    let from_prev = k > 0 && !gaps[k - 1].terminal && gaps[k - 1].english as u64 * 2 >= gaps[k - 1].words as u64
        && stacks_nest_exec(&gaps[k - 1].stack, &g.stack);
    let into_next = !g.terminal && k + 1 < n && stacks_nest_exec(&g.stack, &gaps[k + 1].stack);
    from_prev || into_next
}

/// The density histogram and title-shape counts of a corpus of page bodies (script and
/// style already dropped): pass one of calibrating a brain (see [`corpus_hist`] and
/// [`corpus_titles`]).
pub fn calibration_tallies(bodies: &[String], lex: &Lexicon) -> (r: (Vec<u64>, Vec<u32>))
    requires
        forall|i: int| 0 <= i < bodies@.len() ==> scan_fits(lex.words.deep_view(), #[trigger] bodies@[i]@),
        forall|x: int| 0 <= x < HIST_BINS ==> #[trigger] corpus_hist(corpus_gaps(lex.words.deep_view(), bodies.deep_view()))[x]
            <= u64::MAX,
    ensures
        r.0@.map_values(|v: u64| v as nat) == corpus_hist(corpus_gaps(lex.words.deep_view(), bodies.deep_view())),
        r.1@.map_values(|v: u32| v as nat) == corpus_titles(corpus_gaps(lex.words.deep_view(), bodies.deep_view())),
{
    let ghost lx = lex.words.deep_view();
    let ghost gss = corpus_gaps(lx, bodies.deep_view());
    let mut hist: Vec<u64> = Vec::new();
    let mut b: usize = 0;
    while b < HIST_BINS
        invariant
            b <= HIST_BINS,
            hist@.len() == b,
            forall|x: int| 0 <= x < b ==> hist@[x] == 0,
        decreases HIST_BINS - b,
    {
        hist.push(0);
        b = b + 1;
    }
    assert(hist@.map_values(|v: u64| v as nat) =~= corpus_hist(gss.take(0)));
    let mut titles: Vec<u32> = Vec::new();
    assert(titles@.map_values(|v: u32| v as nat) =~= corpus_titles(gss.take(0)));
    let mut i: usize = 0;
    while i < bodies.len()
        invariant
            i <= bodies@.len(),
            lx == lex.words.deep_view(),
            gss == corpus_gaps(lx, bodies.deep_view()),
            gss.len() == bodies@.len(),
            forall|q: int| 0 <= q < bodies@.len() ==> scan_fits(lx, #[trigger] bodies@[q]@),
            forall|x: int| 0 <= x < HIST_BINS ==> #[trigger] corpus_hist(gss)[x] <= u64::MAX,
            hist@.map_values(|v: u64| v as nat) == corpus_hist(gss.take(i as int)),
            titles@.map_values(|v: u32| v as nat) == corpus_titles(gss.take(i as int)),
        decreases bodies@.len() - i,
    {
        let h = chars_of(bodies[i].as_str());
        proof {
            assert(h@ == bodies.deep_view()[i as int]);
            assert(scan_fits(lx, bodies@[i as int]@));
        }
        let (gaps, _tags) = scan(lex, h.as_slice());
        let ghost gs = gap_views(gaps@);
        let ghost base = corpus_hist(gss.take(i as int));
        let ghost tbase = corpus_titles(gss.take(i as int));
        proof {
            assert(gs == gss[i as int]);
            assert(gss.take(i + 1).drop_last() =~= gss.take(i as int));
            assert(gss.take(i + 1).last() == gs);
            lemma_corpus_hist(gss, i + 1);
            lemma_corpus_hist(gss, i as int);
            lemma_page_hist(base, gs, 0, gs.len() as int);
            assert(page_hist(base, gs, 0) =~= base);
            assert(page_titles(gs, 0) =~= Seq::<nat>::empty());
            assert(tbase + page_titles(gs, 0) =~= tbase);
        }
        let mut k: usize = 0;
        while k < gaps.len()
            invariant
                k <= gaps@.len(),
                gs == gap_views(gaps@),
                gaps_fit(gs),
                base.len() == HIST_BINS,
                hist@.len() == HIST_BINS,
                forall|x: int| 0 <= x < HIST_BINS ==> #[trigger] page_hist(base, gs, gs.len() as int)[x] <= u64::MAX,
                hist@.map_values(|v: u64| v as nat) == page_hist(base, gs, k as int),
                titles@.map_values(|v: u32| v as nat) == tbase + page_titles(gs, k as int),
            decreases gaps@.len() - k,
        {
            let g = &gaps[k];
            proof {
                assert(gs[k as int] == gap_view(*g));
                lemma_page_hist(base, gs, k + 1, gs.len() as int);
                lemma_page_hist(base, gs, k as int, k + 1);
            }
            let w: u32 = if g.words == 0 { 1 } else { g.words };
            let d = g.english * 1000 / w;
            let bin: usize = if d / 10 > 100 { 100 } else { (d / 10) as usize };
            let ghost before = hist@;
            let cur = hist[bin];
            proof {
                let b2 = density_bin(gs[k as int]);
                assert(bin as int == b2);
                assert(page_hist(base, gs, k + 1)[b2] == page_hist(base, gs, k as int)[b2] + gs[k as int].words);
                assert(before.map_values(|v: u64| v as nat)[b2] == before[b2] as nat);
            }
            hist.set(bin, cur + g.words as u64);
            proof {
                assert(hist@.map_values(|v: u64| v as nat) =~= page_hist(base, gs, k + 1));
            }
            if !g.punctuated && g.english as u64 * 2 >= g.words as u64 && !gap_open_flow_exec(&gaps, k) {
                let ghost tb = titles@;
                titles.push(g.words);
                proof {
                    assert(titles@.map_values(|v: u32| v as nat) =~= tb.map_values(|v: u32| v as nat).push(g.words as nat));
                }
            }
            proof {
                assert(titles@.map_values(|v: u32| v as nat) =~= tbase + page_titles(gs, k + 1));
            }
            k = k + 1;
        }
        proof {
            assert(corpus_hist(gss.take(i + 1)) == page_hist(base, gs, gs.len() as int));
            assert(corpus_titles(gss.take(i + 1)) == tbase + page_titles(gs, gs.len() as int));
        }
        i = i + 1;
    }
    assert(gss.take(i as int) =~= gss);
    (hist, titles)
}


/// The fewest title-shape candidates a corpus needs before its ceiling is trusted.
pub const TITLE_SUPPORT: usize = 50;

/// How many of `s` are at most `v`.
pub open spec fn count_le(s: Seq<u32>, v: int) -> nat
    decreases s.len(),
{
    if s.len() == 0 {
        0
    } else {
        count_le(s.drop_last(), v) + if s.last() <= v { 1nat } else { 0nat }
    }
}

/// The smallest `v` from `from` up to 23 with more than `idx` of `s` at most `v`, else 24.
pub open spec fn rank_from(s: Seq<u32>, idx: int, from: int) -> int
    decreases 24 - from,
{
    if from >= 24 {
        24
    } else if count_le(s, from) > idx {
        from
    } else {
        rank_from(s, idx, from + 1)
    }
}

/// The title-shape ceiling of a corpus's candidate word counts: their 90th percentile
/// (the value at index `len * 9 / 10` in sorted order), clamped to `2..=24` — the smallest
/// `v` from 2 on with more than that index of counts at most `v`, at most 24; `None` below
/// [`TITLE_SUPPORT`] candidates.
pub open spec fn title_ceiling_of(counts: Seq<u32>) -> Option<u32> {
    if counts.len() < TITLE_SUPPORT {
        None
    } else {
        Some(rank_from(counts, (counts.len() * 9 / 10) as int, 2) as u32)
    }
}

/// How many of `s` are at most `v` (see [`count_le`]).
fn count_at_most(s: &Vec<u32>, v: u32) -> (r: usize)
    ensures
        r == count_le(s@, v as int),
{
    let mut c: usize = 0;
    let mut i: usize = 0;
    while i < s.len()
        invariant
            i <= s@.len(),
            c == count_le(s@.take(i as int), v as int),
            c <= i,
        decreases s@.len() - i,
    {
        proof {
            assert(s@.take(i + 1).drop_last() =~= s@.take(i as int));
        }
        if s[i] <= v {
            c = c + 1;
        }
        i = i + 1;
    }
    assert(s@.take(i as int) =~= s@);
    c
}

/// The title-shape ceiling of the candidate counts (see [`title_ceiling_of`]).
pub fn title_ceiling(counts: &Vec<u32>) -> (r: Option<u32>)
    ensures
        r == title_ceiling_of(counts@),
{
    if counts.len() < TITLE_SUPPORT {
        return None;
    }
    let idx = counts.len() / 10 * 9 + counts.len() % 10 * 9 / 10;
    assert(idx == counts@.len() * 9 / 10) by (nonlinear_arith)
        requires
            idx == counts@.len() / 10 * 9 + counts@.len() % 10 * 9 / 10,
    {
    }
    let mut v: u32 = 2;
    while v < 24
        invariant
            2 <= v <= 24,
            counts@.len() >= TITLE_SUPPORT,
            idx == counts@.len() * 9 / 10,
            rank_from(counts@, idx as int, 2) == rank_from(counts@, idx as int, v as int),
        decreases 24 - v,
    {
        if count_at_most(counts, v) > idx {
            return Some(v);
        }
        v = v + 1;
    }
    Some(24)
}


// ── Learning tag roles ───────────────────────────────────────────────────────

/// An element instance's contained text as plain values: its id and name seed, the words
/// and English words of every gap it contains, whether any of them is punctuated or
/// symbolic, and the first gap it contains with its depth in that gap's stack.
pub struct InstV {
    pub id: u32,
    pub seed: u64,
    pub words: nat,
    pub english: nat,
    pub punctuated: bool,
    pub symbolic: bool,
    pub first: int,
    pub depth: int,
}

/// The index of the first instance of `t` with id `id`, or -1.
pub open spec fn inst_index(t: Seq<InstV>, id: u32) -> int
    decreases t.len(),
{
    if t.len() == 0 {
        -1
    } else if inst_index(t.drop_last(), id) >= 0 {
        inst_index(t.drop_last(), id)
    } else if t.last().id == id {
        t.len() - 1
    } else {
        -1
    }
}

/// The instances `t` with gap `k` (`g`) counted into the instance at depth `d` of its stack.
pub open spec fn inst_add(t: Seq<InstV>, g: GapV, k: int, d: int) -> Seq<InstV> {
    let id = g.stack[d].0;
    let i = inst_index(t, id);
    if i >= 0 {
        t.update(
            i,
            InstV {
                id: t[i].id,
                seed: t[i].seed,
                words: t[i].words + g.words,
                english: t[i].english + g.english,
                punctuated: t[i].punctuated || g.punctuated,
                symbolic: t[i].symbolic || g.symbolic,
                first: t[i].first,
                depth: t[i].depth,
            },
        )
    } else {
        t.push(
            InstV {
                id,
                seed: g.stack[d].1,
                words: g.words,
                english: g.english,
                punctuated: g.punctuated,
                symbolic: g.symbolic,
                first: k,
                depth: d,
            },
        )
    }
}

/// The instances `t` with gap `k` counted into its `d` outermost containing instances.
pub open spec fn inst_gap(t: Seq<InstV>, g: GapV, k: int, d: int) -> Seq<InstV>
    decreases d,
{
    if d <= 0 || d > g.stack.len() {
        t
    } else {
        inst_add(inst_gap(t, g, k, d - 1), g, k, d - 1)
    }
}

/// Every element instance of the first `upto` gaps of a page, in order of first
/// containment, with its contained text.
pub open spec fn inst_table(gs: Seq<GapV>, upto: int) -> Seq<InstV>
    decreases upto,
{
    if upto <= 0 || upto > gs.len() {
        Seq::empty()
    } else {
        inst_gap(inst_table(gs, upto - 1), gs[upto - 1], upto - 1, gs[upto - 1].stack.len() as int)
    }
}

/// Whether an instance's contained text reads as code.
pub open spec fn inst_code(v: InstV, split: u32) -> bool {
    v.english * 1000 / (if v.words == 0 { 1nat } else { v.words }) < split && (v.symbolic || v.words >= 2)
}

/// Whether the instance whose first contained gap is `first` (at `depth` in its stack) sits
/// mid-sentence: the gap before it is unterminated majority-English prose whose
/// containment nests with the instance's parent stack.
pub open spec fn instance_mid_sentence(gs: Seq<GapV>, first: int, depth: int) -> bool {
    first > 0 && !gs[first - 1].terminal && gs[first - 1].english * 2 >= gs[first - 1].words && stacks_nest(
        gs[first - 1].stack,
        gs[first].stack.take(depth),
    )
}

/// Whether an instance's contained text is heading-shaped: short, unpunctuated,
/// majority-English, and not mid-sentence.
pub open spec fn inst_heading(gs: Seq<GapV>, v: InstV, ceiling: u32) -> bool {
    v.words <= ceiling && !v.punctuated && v.english * 2 >= v.words && !instance_mid_sentence(gs, v.first, v.depth)
}

/// A tag-role tally entry: (name seed, instances, code-register instances, heading-shaped
/// instances).
pub type TallyV = (u64, nat, nat, nat);

/// The index of the entry of `t` for `seed`, or -1.
pub open spec fn tally_index(t: Seq<TallyV>, seed: u64) -> int
    decreases t.len(),
{
    if t.len() == 0 {
        -1
    } else if tally_index(t.drop_last(), seed) >= 0 {
        tally_index(t.drop_last(), seed)
    } else if t.last().0 == seed {
        t.len() - 1
    } else {
        -1
    }
}

/// The tally `t` with one more instance of `seed` counted.
pub open spec fn tally_add(t: Seq<TallyV>, seed: u64, code: bool, heading: bool) -> Seq<TallyV> {
    let i = tally_index(t, seed);
    let c: nat = if code { 1 } else { 0 };
    let h: nat = if heading { 1 } else { 0 };
    if i >= 0 {
        t.update(i, (seed, t[i].1 + 1, t[i].2 + c, t[i].3 + h))
    } else {
        t.push((seed, 1, c, h))
    }
}

/// The tally `t` with the first `upto` instances of a page counted.
pub open spec fn page_tally(t: Seq<TallyV>, gs: Seq<GapV>, insts: Seq<InstV>, split: u32, ceiling: u32, upto: int) -> Seq<TallyV>
    decreases upto,
{
    if upto <= 0 || upto > insts.len() {
        t
    } else {
        let v = insts[upto - 1];
        tally_add(page_tally(t, gs, insts, split, ceiling, upto - 1), v.seed, inst_code(v, split), inst_heading(gs, v, ceiling))
    }
}

/// The tag-role tally of a corpus: every element instance of every page counted under its
/// name seed.
pub open spec fn corpus_tally(gss: Seq<Seq<GapV>>, split: u32, ceiling: u32) -> Seq<TallyV>
    decreases gss.len(),
{
    if gss.len() == 0 {
        Seq::empty()
    } else {
        let gs = gss.last();
        let insts = inst_table(gs, gs.len() as int);
        page_tally(corpus_tally(gss.drop_last(), split, ceiling), gs, insts, split, ceiling, insts.len() as int)
    }
}

/// A tag needs at least this many instances before its role is trusted.
pub const TAG_ROLE_SUPPORT: u32 = 8;

/// The role a tally entry earns: a code carrier (`1`) when three quarters of its instances
/// read as code, else a heading (`-1`) when three quarters are heading-shaped, given
/// enough support.
pub open spec fn role_for(e: TallyV) -> Option<i8> {
    if e.1 < TAG_ROLE_SUPPORT {
        None
    } else if e.2 * 4 >= e.1 * 3 {
        Some(1i8)
    } else if e.3 * 4 >= e.1 * 3 {
        Some(-1i8)
    } else {
        None
    }
}

/// Whether `p` is a role learned from tally `t`.
pub open spec fn learned_role(t: Seq<TallyV>, p: (u64, i8)) -> bool {
    exists|i: int| 0 <= i < t.len() && (#[trigger] t[i]).0 == p.0 && role_for(t[i]) == Some(p.1)
}

/// Whether a corpus's tallies fit the reader's arithmetic: every instance's words fit a
/// `u32` and its English per-mille product too, every tally count fits a `u32`, and so do
/// the role comparisons of every supported entry.
pub open spec fn roles_fit(gss: Seq<Seq<GapV>>, split: u32, ceiling: u32) -> bool {
    &&& insts_fit(gss)
    &&& tally_fits(corpus_tally(gss, split, ceiling))
}

/// Whether every element instance of every page has at most `u32::MAX` words and an
/// English count whose per-mille product fits a `u32`.
pub open spec fn insts_fit(gss: Seq<Seq<GapV>>) -> bool {
    forall|p: int, i: int| 0 <= p < gss.len() && 0 <= i < inst_table(gss[p], gss[p].len() as int).len()
        ==> (#[trigger] inst_table(gss[p], gss[p].len() as int)[i]).words <= u32::MAX
        && inst_table(gss[p], gss[p].len() as int)[i].english * 1000 <= u32::MAX
}

/// Whether a tally's counts fit the role rule's `u32` arithmetic.
pub open spec fn tally_fits(t: Seq<TallyV>) -> bool {
    forall|i: int| 0 <= i < t.len() ==> {
        let e = #[trigger] t[i];
        &&& e.1 <= u32::MAX
        &&& e.1 >= TAG_ROLE_SUPPORT ==> e.2 * 4 <= u32::MAX && e.1 * 3 <= u32::MAX && (e.2 * 4 < e.1 * 3 ==> e.3 * 4
            <= u32::MAX)
    }
}


/// `x`, saturated at `u64::MAX`.
pub open spec fn sat(x: nat) -> nat {
    if x > u64::MAX {
        u64::MAX as nat
    } else {
        x
    }
}

/// An instance with its counts saturated.
pub open spec fn sat_inst(v: InstV) -> InstV {
    InstV { words: sat(v.words), english: sat(v.english), ..v }
}

/// A tally entry with its counts saturated.
pub open spec fn sat_entry(e: TallyV) -> TallyV {
    (e.0, sat(e.1), sat(e.2), sat(e.3))
}

proof fn lemma_inst_index_sat(t: Seq<InstV>, id: u32)
    ensures
        inst_index(t.map_values(|v: InstV| sat_inst(v)), id) == inst_index(t, id),
        -1 <= inst_index(t, id) < t.len(),
        inst_index(t, id) >= 0 ==> t[inst_index(t, id)].id == id,
        inst_index(t, id) < 0 ==> forall|j: int| 0 <= j < t.len() ==> t[j].id != id,
        forall|j: int| 0 <= j < inst_index(t, id) ==> t[j].id != id,
    decreases t.len(),
{
    if t.len() > 0 {
        lemma_inst_index_sat(t.drop_last(), id);
        assert(t.map_values(|v: InstV| sat_inst(v)).drop_last() =~= t.drop_last().map_values(|v: InstV| sat_inst(v)));
        assert forall|j: int| 0 <= j < t.len() - 1 implies t.drop_last()[j] == t[j] by {}
    }
}

proof fn lemma_tally_index_sat(t: Seq<TallyV>, seed: u64)
    ensures
        tally_index(sat_tally(t), seed) == tally_index(t, seed),
        -1 <= tally_index(t, seed) < t.len(),
        tally_index(t, seed) >= 0 ==> t[tally_index(t, seed)].0 == seed,
        tally_index(t, seed) < 0 ==> forall|j: int| 0 <= j < t.len() ==> t[j].0 != seed,
        forall|j: int| 0 <= j < tally_index(t, seed) ==> t[j].0 != seed,
    decreases t.len(),
{
    if t.len() > 0 {
        lemma_tally_index_sat(t.drop_last(), seed);
        assert(sat_tally(t).drop_last() =~= sat_tally(t.drop_last()));
        assert forall|j: int| 0 <= j < t.len() - 1 implies t.drop_last()[j] == t[j] by {}
    }
}

/// An element instance being tallied (counts saturate at `u64::MAX`).
struct Inst {
    id: u32,
    seed: u64,
    words: u64,
    english: u64,
    punctuated: bool,
    symbolic: bool,
    first: usize,
    depth: usize,
}

spec fn inst_view(e: Inst) -> InstV {
    InstV {
        id: e.id,
        seed: e.seed,
        words: e.words as nat,
        english: e.english as nat,
        punctuated: e.punctuated,
        symbolic: e.symbolic,
        first: e.first as int,
        depth: e.depth as int,
    }
}

spec fn inst_views(v: Seq<Inst>) -> Seq<InstV> {
    v.map_values(|e: Inst| inst_view(e))
}

/// The instance table of a page's gaps (see [`inst_table`]), counts saturated.
fn page_instances(gaps: &Vec<Gap>) -> (r: Vec<Inst>)
    ensures
        inst_views(r@) == inst_table(gap_views(gaps@), gaps@.len() as int).map_values(|v: InstV| sat_inst(v)),
{
    let ghost gs = gap_views(gaps@);
    let mut t: Vec<Inst> = Vec::new();
    let mut k: usize = 0;
    assert(inst_views(t@) =~= inst_table(gs, 0).map_values(|v: InstV| sat_inst(v)));
    while k < gaps.len()
        invariant
            k <= gaps@.len(),
            gs == gap_views(gaps@),
            inst_views(t@) == inst_table(gs, k as int).map_values(|v: InstV| sat_inst(v)),
        decreases gaps@.len() - k,
    {
        let g = &gaps[k];
        let ghost gv = gs[k as int];
        proof {
            assert(gv == gap_view(*g));
        }
        let mut d: usize = 0;
        while d < g.stack.len()
            invariant
                k < gaps@.len(),
                gv == gap_view(*g),
                d <= g.stack@.len(),
                inst_views(t@) == inst_gap(inst_table(gs, k as int), gv, k as int, d as int).map_values(|v: InstV| sat_inst(v)),
            decreases g.stack@.len() - d,
        {
            let (id, seed) = g.stack[d];
            let ghost before = inst_gap(inst_table(gs, k as int), gv, k as int, d as int);
            proof {
                lemma_inst_index_sat(before, id);
            }
            let mut i: usize = 0;
            while i < t.len() && t[i].id != id
                invariant
                    i <= t@.len(),
                    inst_views(t@) == before.map_values(|v: InstV| sat_inst(v)),
                    forall|j: int| 0 <= j < i ==> t@[j].id != id,
                decreases t@.len() - i,
            {
                proof {
                    assert(inst_views(t@)[i as int] == inst_view(t@[i as int]));
                }
                i = i + 1;
            }
            proof {
                assert forall|j: int| 0 <= j < before.len() implies inst_views(t@)[j].id == before[j].id by {
                    assert(inst_views(t@)[j] == sat_inst(before[j]));
                }
                assert forall|j: int| 0 <= j < t@.len() implies inst_views(t@)[j] == inst_view(t@[j]) by {}
            }
            if i < t.len() {
                proof {
                    assert(inst_views(t@)[i as int].id == id);
                    assert(before[i as int].id == id);
                    if inst_index(before, id) != i {
                        let q = inst_index(before, id);
                        assert(before[q].id == id);
                        assert(inst_views(t@)[q].id == t@[q].id);
                    }
                    assert(inst_index(before, id) == i);
                }
                let ghost old_t = t@;
                let e = &t[i];
                let ne = Inst {
                    id: e.id,
                    seed: e.seed,
                    words: e.words.saturating_add(g.words as u64),
                    english: e.english.saturating_add(g.english as u64),
                    punctuated: e.punctuated || g.punctuated,
                    symbolic: e.symbolic || g.symbolic,
                    first: e.first,
                    depth: e.depth,
                };
                t.set(i, ne);
                proof {
                    let bi = before[i as int];
                    assert(inst_views(old_t)[i as int] == sat_inst(bi));
                    assert(old_t[i as int].words == sat(bi.words));
                    assert(old_t[i as int].english == sat(bi.english));
                    assert(gv.stack[d as int].0 == id);
                    let nv = InstV {
                        id: bi.id,
                        seed: bi.seed,
                        words: bi.words + gv.words,
                        english: bi.english + gv.english,
                        punctuated: bi.punctuated || gv.punctuated,
                        symbolic: bi.symbolic || gv.symbolic,
                        first: bi.first,
                        depth: bi.depth,
                    };
                    assert(inst_add(before, gv, k as int, d as int) == before.update(i as int, nv));
                    assert(ne.words as nat == sat(bi.words + gv.words));
                    assert(ne.english as nat == sat(bi.english + gv.english));
                    assert(inst_view(ne) == sat_inst(nv));
                    assert(inst_views(t@) =~= inst_add(before, gv, k as int, d as int).map_values(|v: InstV| sat_inst(v)));
                }
            } else {
                proof {
                    assert(inst_index(before, id) < 0) by {
                        if inst_index(before, id) >= 0 {
                            let q = inst_index(before, id);
                            assert(inst_views(t@)[q].id == t@[q].id);
                        }
                    }
                }
                let ghost old_t = t@;
                let ne = Inst {
                    id,
                    seed,
                    words: g.words as u64,
                    english: g.english as u64,
                    punctuated: g.punctuated,
                    symbolic: g.symbolic,
                    first: k,
                    depth: d,
                };
                t.push(ne);
                proof {
                    assert(inst_views(t@) =~= inst_add(before, gv, k as int, d as int).map_values(|v: InstV| sat_inst(v)));
                }
            }
            d = d + 1;
        }
        proof {
            assert(inst_table(gs, k + 1) == inst_gap(inst_table(gs, k as int), gv, k as int, gv.stack.len() as int));
        }
        k = k + 1;
    }
    t
}


proof fn lemma_inst_add_wf(t: Seq<InstV>, gs: Seq<GapV>, k: int, d: int)
    requires
        0 <= k < gs.len(),
        0 <= d < gs[k].stack.len(),
        forall|i: int| 0 <= i < t.len() ==> 0 <= (#[trigger] t[i]).first <= k && 0 <= t[i].depth < gs[t[i].first].stack.len(),
    ensures
        forall|i: int| 0 <= i < inst_add(t, gs[k], k, d).len() ==> 0 <= (#[trigger] inst_add(t, gs[k], k, d)[i]).first <= k
            && 0 <= inst_add(t, gs[k], k, d)[i].depth < gs[inst_add(t, gs[k], k, d)[i].first].stack.len(),
{
    lemma_inst_index_sat(t, gs[k].stack[d].0);
}

proof fn lemma_inst_gap_wf(t: Seq<InstV>, gs: Seq<GapV>, k: int, d: int)
    requires
        0 <= k < gs.len(),
        0 <= d <= gs[k].stack.len(),
        forall|i: int| 0 <= i < t.len() ==> 0 <= (#[trigger] t[i]).first <= k && 0 <= t[i].depth < gs[t[i].first].stack.len(),
    ensures
        forall|i: int| 0 <= i < inst_gap(t, gs[k], k, d).len() ==> 0 <= (#[trigger] inst_gap(t, gs[k], k, d)[i]).first <= k
            && 0 <= inst_gap(t, gs[k], k, d)[i].depth < gs[inst_gap(t, gs[k], k, d)[i].first].stack.len(),
    decreases d,
{
    if d > 0 {
        lemma_inst_gap_wf(t, gs, k, d - 1);
        lemma_inst_add_wf(inst_gap(t, gs[k], k, d - 1), gs, k, d - 1);
    }
}

/// Every instance of a page's table first contains one of its gaps, at a depth within that
/// gap's stack.
proof fn lemma_inst_table_wf(gs: Seq<GapV>, u: int)
    requires
        0 <= u <= gs.len(),
    ensures
        forall|i: int| 0 <= i < inst_table(gs, u).len() ==> 0 <= (#[trigger] inst_table(gs, u)[i]).first < u
            && 0 <= inst_table(gs, u)[i].depth < gs[inst_table(gs, u)[i].first].stack.len(),
    decreases u,
{
    if u > 0 {
        lemma_inst_table_wf(gs, u - 1);
        lemma_inst_gap_wf(inst_table(gs, u - 1), gs, u - 1, gs[u - 1].stack.len() as int);
    }
}

/// Whether an instance sits mid-sentence (see [`instance_mid_sentence`]).
fn instance_mid_sentence_exec(gaps: &Vec<Gap>, first: usize, depth: usize) -> (r: bool)
    requires
        first < gaps@.len(),
        depth <= gaps@[first as int].stack@.len(),
    ensures
        r == instance_mid_sentence(gap_views(gaps@), first as int, depth as int),
{
    if first == 0 {
        return false;
    }
    proof {
        assert(gap_views(gaps@)[first - 1] == gap_view(gaps@[first - 1]));
        assert(gap_views(gaps@)[first as int] == gap_view(gaps@[first as int]));
    }
    let p = &gaps[first - 1];
    if p.terminal || !(p.english as u64 * 2 >= p.words as u64) {
        return false;
    }
    let st = &gaps[first].stack;
    let mut parent: Vec<(u32, u64)> = Vec::new();
    let mut q: usize = 0;
    while q < depth
        invariant
            q <= depth <= st@.len(),
            parent@ == st@.take(q as int),
        decreases depth - q,
    {
        parent.push(st[q]);
        q = q + 1;
        assert(parent@ =~= st@.take(q as int));
    }
    stacks_nest_exec(&p.stack, &parent)
}

/// A tally being counted, as plain values.
spec fn entries_nat(v: Seq<(u64, u64, u64, u64)>) -> Seq<TallyV> {
    v.map_values(|e: (u64, u64, u64, u64)| (e.0, e.1 as nat, e.2 as nat, e.3 as nat))
}

/// A tally with its counts saturated.
pub open spec fn sat_tally(t: Seq<TallyV>) -> Seq<TallyV> {
    t.map_values(|e: TallyV| sat_entry(e))
}

/// Counts one more instance of `seed` into the tally (see [`tally_add`]), counts saturated.
fn tally_add_exec(t: &mut Vec<(u64, u64, u64, u64)>, seed: u64, code: bool, heading: bool, Ghost(spec): Ghost<Seq<TallyV>>)
    requires
        entries_nat(old(t)@) == sat_tally(spec),
    ensures
        entries_nat(final(t)@) == sat_tally(tally_add(spec, seed, code, heading)),
{
    let ghost tv = entries_nat(t@);
    proof {
        lemma_tally_index_sat(spec, seed);
        assert forall|j: int| 0 <= j < spec.len() implies #[trigger] t@[j].0 == spec[j].0 by {
            assert(tv[j] == sat_entry(spec[j]));
        }
    }
    let c: u64 = if code { 1 } else { 0 };
    let h: u64 = if heading { 1 } else { 0 };
    let mut i: usize = 0;
    while i < t.len() && t[i].0 != seed
        invariant
            i <= t@.len(),
            t@.len() == spec.len(),
            forall|j: int| 0 <= j < spec.len() ==> #[trigger] t@[j].0 == spec[j].0,
            forall|j: int| 0 <= j < i ==> t@[j].0 != seed,
        decreases t@.len() - i,
    {
        i = i + 1;
    }
    proof {
        lemma_tally_index_sat(spec, seed);
    }
    if i < t.len() {
        proof {
            let q = tally_index(spec, seed);
            assert(t@[i as int].0 == seed);
            assert(spec[i as int].0 == seed);
            if q < 0 {
                assert(spec[i as int].0 != seed);
            } else if q < i {
                assert(spec[q].0 == seed);
                assert(t@[q].0 == spec[q].0);
                assert(t@[q].0 != seed);
            } else if q > i {
                assert(spec[i as int].0 != seed);
            }
            assert(q == i);
        }
        let e = t[i];
        let ne = (seed, e.1.saturating_add(1), e.2.saturating_add(c), e.3.saturating_add(h));
        let ghost old_t = t@;
        t.set(i, ne);
        proof {
            let se = spec[i as int];
            assert(tv[i as int] == sat_entry(se));
            assert(old_t[i as int] == e);
            assert(e.1 as nat == sat(se.1));
            assert(e.2 as nat == sat(se.2));
            assert(e.3 as nat == sat(se.3));
            let cn: nat = if code { 1 } else { 0 };
            let hn: nat = if heading { 1 } else { 0 };
            let ns = tally_add(spec, seed, code, heading);
            assert(ns == spec.update(i as int, (seed, se.1 + 1, se.2 + cn, se.3 + hn)));
            assert forall|j: int| 0 <= j < t@.len() implies entries_nat(t@)[j] == sat_tally(ns)[j] by {
                if j != i {
                    assert(t@[j] == old_t[j]);
                    assert(tv[j] == sat_entry(spec[j]));
                }
            }
            assert(entries_nat(t@) =~= sat_tally(tally_add(spec, seed, code, heading)));
        }
    } else {
        proof {
            if tally_index(spec, seed) >= 0 {
                let q = tally_index(spec, seed);
                assert(spec[q].0 == seed);
                assert(t@[q].0 == spec[q].0);
                assert(t@[q].0 != seed);
            }
            assert(tally_index(spec, seed) < 0);
        }
        let ghost old_t = t@;
        t.push((seed, 1, c, h));
        proof {
            let ns = tally_add(spec, seed, code, heading);
            let cn: nat = if code { 1 } else { 0 };
            let hn: nat = if heading { 1 } else { 0 };
            assert(ns == spec.push((seed, 1nat, cn, hn)));
            assert forall|j: int| 0 <= j < t@.len() implies entries_nat(t@)[j] == sat_tally(ns)[j] by {
                if j < spec.len() {
                    assert(t@[j] == old_t[j]);
                    assert(tv[j] == sat_entry(spec[j]));
                }
            }
            assert(entries_nat(t@) =~= sat_tally(tally_add(spec, seed, code, heading)));
        }
    }
}


/// Whether one of the first `k` entries of `t` is for `seed`.
pub open spec fn seed_seen(t: Seq<TallyV>, k: int, seed: u64) -> bool {
    exists|j: int| 0 <= j < k && (#[trigger] t[j]).0 == seed
}

/// Whether no seed has two tally entries.
pub open spec fn seeds_distinct(t: Seq<TallyV>) -> bool {
    forall|i: int, j: int| 0 <= i < j < t.len() ==> (#[trigger] t[i]).0 != (#[trigger] t[j]).0
}

proof fn lemma_tally_add_distinct(t: Seq<TallyV>, seed: u64, code: bool, heading: bool)
    requires
        seeds_distinct(t),
    ensures
        seeds_distinct(tally_add(t, seed, code, heading)),
{
    lemma_tally_index_sat(t, seed);
    let r = tally_add(t, seed, code, heading);
    if tally_index(t, seed) < 0 {
        assert forall|i: int, j: int| 0 <= i < j < r.len() implies (#[trigger] r[i]).0 != (#[trigger] r[j]).0 by {
            if j == t.len() {
                assert(r[i] == t[i]);
            } else {
                assert(r[i] == t[i]);
                assert(r[j] == t[j]);
            }
        }
    } else {
        let q = tally_index(t, seed);
        assert forall|i: int, j: int| 0 <= i < j < r.len() implies (#[trigger] r[i]).0 != (#[trigger] r[j]).0 by {
            if i == q {
                assert(r[j] == t[j]);
            } else if j == q {
                assert(r[i] == t[i]);
            } else {
                assert(r[i] == t[i]);
                assert(r[j] == t[j]);
            }
        }
    }
}

proof fn lemma_page_tally_distinct(t: Seq<TallyV>, gs: Seq<GapV>, insts: Seq<InstV>, split: u32, ceiling: u32, upto: int)
    requires
        seeds_distinct(t),
    ensures
        seeds_distinct(page_tally(t, gs, insts, split, ceiling, upto)),
    decreases upto,
{
    if upto > 0 && upto <= insts.len() {
        lemma_page_tally_distinct(t, gs, insts, split, ceiling, upto - 1);
        let v = insts[upto - 1];
        lemma_tally_add_distinct(page_tally(t, gs, insts, split, ceiling, upto - 1), v.seed, inst_code(v, split), inst_heading(gs, v, ceiling));
    }
}

proof fn lemma_corpus_tally_distinct(gss: Seq<Seq<GapV>>, split: u32, ceiling: u32)
    ensures
        seeds_distinct(corpus_tally(gss, split, ceiling)),
    decreases gss.len(),
{
    if gss.len() > 0 {
        lemma_corpus_tally_distinct(gss.drop_last(), split, ceiling);
        let gs = gss.last();
        let insts = inst_table(gs, gs.len() as int);
        lemma_page_tally_distinct(corpus_tally(gss.drop_last(), split, ceiling), gs, insts, split, ceiling, insts.len() as int);
    }
}

/// The tag-role tally of a corpus (see [`corpus_tally`]), counts saturated; `None` when an
/// element instance does not fit (see [`insts_fit`]).
fn corpus_tally_exec(bodies: &[String], lex: &Lexicon, split: u32, ceiling: u32) -> (r: Option<Vec<(u64, u64, u64, u64)>>)
    requires
        forall|i: int| 0 <= i < bodies@.len() ==> scan_fits(lex.words.deep_view(), #[trigger] bodies@[i]@),
    ensures
        r is Some <==> insts_fit(corpus_gaps(lex.words.deep_view(), bodies.deep_view())),
        r matches Some(t) ==> entries_nat(t@) == sat_tally(
            corpus_tally(corpus_gaps(lex.words.deep_view(), bodies.deep_view()), split, ceiling),
        ),
{
    let ghost lx = lex.words.deep_view();
    let ghost gss = corpus_gaps(lx, bodies.deep_view());
    let mut tally: Vec<(u64, u64, u64, u64)> = Vec::new();
    let mut i: usize = 0;
    assert(entries_nat(tally@) =~= sat_tally(corpus_tally(gss.take(0), split, ceiling)));
    while i < bodies.len()
        invariant
            i <= bodies@.len(),
            lx == lex.words.deep_view(),
            gss == corpus_gaps(lx, bodies.deep_view()),
            gss.len() == bodies@.len(),
            forall|q: int| 0 <= q < bodies@.len() ==> scan_fits(lx, #[trigger] bodies@[q]@),
            insts_fit(gss.take(i as int)),
            entries_nat(tally@) == sat_tally(corpus_tally(gss.take(i as int), split, ceiling)),
        decreases bodies@.len() - i,
    {
        let h = chars_of(bodies[i].as_str());
        proof {
            assert(h@ == bodies.deep_view()[i as int]);
            assert(scan_fits(lx, bodies@[i as int]@));
        }
        let (gaps, _tags) = scan(lex, h.as_slice());
        let ghost gs = gap_views(gaps@);
        let ghost table = inst_table(gs, gs.len() as int);
        let ghost base = corpus_tally(gss.take(i as int), split, ceiling);
        proof {
            assert(gs == gss[i as int]);
            assert(gss.take(i + 1).drop_last() =~= gss.take(i as int));
            assert(gss.take(i + 1).last() == gs);
            lemma_inst_table_wf(gs, gs.len() as int);
        }
        let insts = page_instances(&gaps);
        proof {
            assert(inst_views(insts@).len() == insts@.len());
        }
        let mut c: usize = 0;
        while c < insts.len()
            invariant
                c <= insts@.len(),
                table.len() == insts@.len(),
                i < gss.len(),
                gs == gss[i as int],
                table == inst_table(gs, gs.len() as int),
                lx == lex.words.deep_view(),
                gss == corpus_gaps(lx, bodies.deep_view()),
                inst_views(insts@) == table.map_values(|v: InstV| sat_inst(v)),
                forall|t: int| 0 <= t < c ==> (#[trigger] table[t]).words <= u32::MAX && table[t].english * 1000 <= u32::MAX,
            decreases insts@.len() - c,
        {
            proof {
                assert(inst_views(insts@)[c as int] == inst_view(insts@[c as int]));
                assert(inst_view(insts@[c as int]) == sat_inst(table[c as int]));
            }
            if insts[c].words > 4294967295 || insts[c].english > 4294967 {
                proof {
                    assert(gss[i as int] == gs);
                    assert(!(table[c as int].words <= u32::MAX && table[c as int].english * 1000 <= u32::MAX));
                    assert(!insts_fit(gss));
                }
                return None;
            }
            c = c + 1;
        }
        proof {
            assert forall|p: int, t: int| 0 <= p < i + 1 && 0 <= t < inst_table(gss.take(i + 1)[p], gss.take(i + 1)[p].len() as int).len()
                implies (#[trigger] inst_table(gss.take(i + 1)[p], gss.take(i + 1)[p].len() as int)[t]).words <= u32::MAX
                && inst_table(gss.take(i + 1)[p], gss.take(i + 1)[p].len() as int)[t].english * 1000 <= u32::MAX by {
                if p < i {
                    assert(gss.take(i + 1)[p] == gss.take(i as int)[p]);
                    assert(p < gss.take(i as int).len());
                } else {
                    assert(gss.take(i + 1)[p] == gs);
                    assert(inst_table(gss.take(i + 1)[p], gss.take(i + 1)[p].len() as int) == table);
                }
            }
            assert forall|q: int| 0 <= q < table.len() implies sat_inst(#[trigger] table[q]) == table[q] by {
                assert(table[q].words <= u32::MAX);
            }
            assert(inst_views(insts@) =~= table);
        }
        let mut q: usize = 0;
        assert(page_tally(base, gs, table, split, ceiling, 0) == base);
        while q < insts.len()
            invariant
                q <= insts@.len(),
                inst_views(insts@) == table,
                gs == gap_views(gaps@),
                table == inst_table(gs, gs.len() as int),
                forall|t: int| 0 <= t < table.len() ==> 0 <= (#[trigger] table[t]).first < gs.len() && 0 <= table[t].depth
                    < gs[table[t].first].stack.len(),
                forall|t: int| 0 <= t < table.len() ==> (#[trigger] table[t]).words <= u32::MAX && table[t].english * 1000
                    <= u32::MAX,
                entries_nat(tally@) == sat_tally(page_tally(base, gs, table, split, ceiling, q as int)),
            decreases insts@.len() - q,
        {
            let v = &insts[q];
            let ghost sv = table[q as int];
            proof {
                assert(inst_views(insts@)[q as int] == inst_view(*v));
                assert(sv == inst_view(*v));
                assert(gs[sv.first] == gap_view(gaps@[sv.first]));
            }
            let w: u64 = if v.words == 0 { 1 } else { v.words };
            let code = v.english * 1000 / w < split as u64 && (v.symbolic || v.words >= 2);
            let mid = instance_mid_sentence_exec(&gaps, v.first, v.depth);
            let heading = v.words <= ceiling as u64 && !v.punctuated && v.english * 2 >= v.words && !mid;
            proof {
                assert(code == inst_code(sv, split));
                assert(heading == inst_heading(gs, sv, ceiling));
            }
            tally_add_exec(&mut tally, v.seed, code, heading, Ghost(page_tally(base, gs, table, split, ceiling, q as int)));
            q = q + 1;
        }
        proof {
            assert(corpus_tally(gss.take(i + 1), split, ceiling) == page_tally(base, gs, table, split, ceiling, table.len() as int));
        }
        i = i + 1;
    }
    assert(gss.take(i as int) =~= gss);
    Some(tally)
}

/// The tag roles a corpus of page bodies (script and style already dropped) teaches, given
/// the calibrated split and title ceiling: pass two of calibrating a brain. Every element
/// instance is judged over the whole text it contains, and a tag with enough instances
/// earns the role three quarters of them testify to (see [`role_for`]); the roles come
/// sorted by seed.
pub fn learn_tag_roles(bodies: &[String], lex: &Lexicon, split: u32, ceiling: u32) -> (r: Vec<(u64, i8)>)
    requires
        forall|i: int| 0 <= i < bodies@.len() ==> scan_fits(lex.words.deep_view(), #[trigger] bodies@[i]@),
        roles_fit(corpus_gaps(lex.words.deep_view(), bodies.deep_view()), split, ceiling),
    ensures
        roles_sorted(r@),
        forall|p: (u64, i8)| r@.contains(p) <==> learned_role(
            corpus_tally(corpus_gaps(lex.words.deep_view(), bodies.deep_view()), split, ceiling),
            p,
        ),
{
    let ghost lx = lex.words.deep_view();
    let ghost gss = corpus_gaps(lx, bodies.deep_view());
    let tally = match corpus_tally_exec(bodies, lex, split, ceiling) {
        Some(t) => t,
        None => {
            return Vec::new();
        },
    };
    let ghost tspec = corpus_tally(gss, split, ceiling);
    proof {
        lemma_corpus_tally_distinct(gss, split, ceiling);
        assert(entries_nat(tally@).len() == tally@.len());
    }
    let mut out: Vec<(u64, i8)> = Vec::new();
    let mut k: usize = 0;
    while k < tally.len()
        invariant
            k <= tally@.len(),
            entries_nat(tally@) == sat_tally(tspec),
            tspec.len() == tally@.len(),
            seeds_distinct(tspec),
            roles_fit(gss, split, ceiling),
            tspec == corpus_tally(gss, split, ceiling),
            roles_sorted(out@),
            forall|p: (u64, i8)| out@.contains(p) <==> exists|j: int| 0 <= j < k && (#[trigger] tspec[j]).0 == p.0 && role_for(tspec[j]) == Some(p.1),
            forall|x: int| 0 <= x < out@.len() ==> seed_seen(tspec, k as int, (#[trigger] out@[x]).0),
        decreases tally@.len() - k,
    {
        let e = tally[k];
        let ghost se = tspec[k as int];
        proof {
            assert(entries_nat(tally@)[k as int] == sat_entry(se));
            assert(e.1 as nat == sat(se.1));
            assert(se.1 <= u32::MAX);
        }
        let role: Option<i8> = if e.1 < TAG_ROLE_SUPPORT as u64 {
            None
        } else if e.2 * 4 >= e.1 * 3 {
            Some(1i8)
        } else if e.3 * 4 >= e.1 * 3 {
            Some(-1i8)
        } else {
            None
        };
        assert(role == role_for(se));
        match role {
            Some(rv) => {
                let mut pos: usize = 0;
                while pos < out.len() && out[pos].0 < e.0
                    invariant
                        pos <= out@.len(),
                        forall|x: int| 0 <= x < pos ==> out@[x].0 < e.0,
                    decreases out@.len() - pos,
                {
                    pos = pos + 1;
                }
                proof {
                    assert forall|x: int| 0 <= x < out@.len() implies out@[x].0 != e.0 by {
                        assert(seed_seen(tspec, k as int, out@[x].0));
                        let j = choose|j: int| 0 <= j < k && (#[trigger] tspec[j]).0 == out@[x].0;
                        assert(tspec[j].0 != tspec[k as int].0);
                    }
                    if pos < out@.len() {
                        assert(out@[pos as int].0 > e.0);
                    }
                }
                let ghost old_out = out@;
                out.insert(pos, (e.0, rv));
                proof {
                    assert(out@ == old_out.insert(pos as int, (e.0, rv)));
                    assert forall|a: int, b: int| 0 <= a < b < out@.len() implies out@[a].0 < out@[b].0 by {
                        if b < pos {
                            assert(out@[a] == old_out[a] && out@[b] == old_out[b]);
                        } else if b == pos {
                            assert(out@[a] == old_out[a]);
                        } else if a < pos {
                            assert(out@[a] == old_out[a] && out@[b] == old_out[b - 1]);
                            assert(old_out[pos as int].0 > e.0);
                            assert(old_out[pos as int].0 <= old_out[b - 1].0);
                        } else if a == pos {
                            assert(out@[b] == old_out[b - 1]);
                            assert(old_out[pos as int].0 > e.0);
                            assert(old_out[pos as int].0 <= old_out[b - 1].0);
                        } else {
                            assert(out@[a] == old_out[a - 1] && out@[b] == old_out[b - 1]);
                        }
                    }
                    assert forall|p: (u64, i8)| out@.contains(p) <==> exists|j: int| 0 <= j < k + 1 && (#[trigger] tspec[j]).0 == p.0
                        && role_for(tspec[j]) == Some(p.1) by {
                        if out@.contains(p) {
                            let x = choose|x: int| 0 <= x < out@.len() && out@[x] == p;
                            if x == pos {
                                assert(tspec[k as int].0 == p.0 && role_for(tspec[k as int]) == Some(p.1));
                            } else if x < pos {
                                assert(old_out[x] == p);
                                assert(old_out.contains(p));
                            } else {
                                assert(old_out[x - 1] == p);
                                assert(old_out.contains(p));
                            }
                        }
                        if exists|j: int| 0 <= j < k + 1 && (#[trigger] tspec[j]).0 == p.0 && role_for(tspec[j]) == Some(p.1) {
                            let j = choose|j: int| 0 <= j < k + 1 && (#[trigger] tspec[j]).0 == p.0 && role_for(tspec[j]) == Some(p.1);
                            if j == k {
                                assert(out@[pos as int] == p);
                            } else {
                                assert(old_out.contains(p));
                                let x = choose|x: int| 0 <= x < old_out.len() && old_out[x] == p;
                                if x < pos {
                                    assert(out@[x] == p);
                                } else {
                                    assert(out@[x + 1] == p);
                                }
                            }
                        }
                    }
                    assert forall|x: int| 0 <= x < out@.len() implies seed_seen(tspec, k + 1, (#[trigger] out@[x]).0) by {
                        if x == pos {
                            assert(tspec[k as int].0 == out@[x].0);
                        } else if x < pos {
                            assert(out@[x] == old_out[x]);
                            assert(seed_seen(tspec, k as int, old_out[x].0));
                        } else {
                            assert(out@[x] == old_out[x - 1]);
                            assert(seed_seen(tspec, k as int, old_out[x - 1].0));
                        }
                    }
                }
            },
            None => {
                proof {
                    assert forall|p: (u64, i8)| out@.contains(p) <==> exists|j: int| 0 <= j < k + 1 && (#[trigger] tspec[j]).0 == p.0
                        && role_for(tspec[j]) == Some(p.1) by {
                        if exists|j: int| 0 <= j < k + 1 && (#[trigger] tspec[j]).0 == p.0 && role_for(tspec[j]) == Some(p.1) {
                            let j = choose|j: int| 0 <= j < k + 1 && (#[trigger] tspec[j]).0 == p.0 && role_for(tspec[j]) == Some(p.1);
                            assert(j != k);
                        }
                    }
                }
            },
        }
        k = k + 1;
    }
    out
}


/// A brain calibrated from a corpus of page bodies (script and style already dropped):
/// the register split found over the corpus's density histogram (see
/// [`calibration_tallies`]; `None` when the corpus is not bimodal), the title ceiling of its
/// title-shape counts ([`title_ceiling_of`]), and the tag roles the corpus teaches under
/// both ([`learn_tag_roles`]). `None` when either calibration refuses.
pub fn calibrated(bodies: &[String], lex: &Lexicon, source_fp: u64, split: Option<u32>, titles: &Vec<u32>) -> (r: Option<
    Markup,
>)
    requires
        forall|i: int| 0 <= i < bodies@.len() ==> scan_fits(lex.words.deep_view(), #[trigger] bodies@[i]@),
        split is Some && title_ceiling_of(titles@) is Some ==> roles_fit(
            corpus_gaps(lex.words.deep_view(), bodies.deep_view()),
            split.unwrap(),
            title_ceiling_of(titles@).unwrap(),
        ),
    ensures
        r is Some <==> split is Some && title_ceiling_of(titles@) is Some,
        r matches Some(m) ==> {
            &&& m.split_pm == split.unwrap()
            &&& m.title_ceiling == title_ceiling_of(titles@).unwrap()
            &&& m.pages_read == bodies@.len()
            &&& m.source_fp == source_fp
            &&& roles_sorted(m.tag_roles@)
            &&& forall|p: (u64, i8)| m.tag_roles@.contains(p) <==> learned_role(
                corpus_tally(corpus_gaps(lex.words.deep_view(), bodies.deep_view()), m.split_pm, m.title_ceiling),
                p,
            )
        },
{
    let split_pm = match split {
        Some(s) => s,
        None => {
            return None;
        },
    };
    let ceiling = match title_ceiling(titles) {
        Some(c) => c,
        None => {
            return None;
        },
    };
    let tag_roles = learn_tag_roles(bodies, lex, split_pm, ceiling);
    Some(Markup { split_pm, title_ceiling: ceiling, tag_roles, pages_read: bodies.len() as u64, source_fp })
}


/// Whether a corpus's element instances and tag tally fit the role rule's arithmetic (see
/// [`roles_fit`]).
fn roles_fit_exec(bodies: &[String], lex: &Lexicon, split: u32, ceiling: u32) -> (r: bool)
    requires
        forall|i: int| 0 <= i < bodies@.len() ==> scan_fits(lex.words.deep_view(), #[trigger] bodies@[i]@),
    ensures
        r == roles_fit(corpus_gaps(lex.words.deep_view(), bodies.deep_view()), split, ceiling),
{
    let ghost gss = corpus_gaps(lex.words.deep_view(), bodies.deep_view());
    let tally = match corpus_tally_exec(bodies, lex, split, ceiling) {
        Some(t) => t,
        None => {
            return false;
        },
    };
    let ghost tspec = corpus_tally(gss, split, ceiling);
    proof {
        assert(entries_nat(tally@).len() == tally@.len());
    }
    let mut k: usize = 0;
    while k < tally.len()
        invariant
            k <= tally@.len(),
            gss == corpus_gaps(lex.words.deep_view(), bodies.deep_view()),
            tspec == corpus_tally(gss, split, ceiling),
            tspec.len() == tally@.len(),
            entries_nat(tally@) == sat_tally(tspec),
            tally_fits(tspec.take(k as int)),
        decreases tally@.len() - k,
    {
        let e = tally[k];
        let ghost se = tspec[k as int];
        proof {
            assert(entries_nat(tally@)[k as int] == sat_entry(se));
        }
        let mut fits = e.1 <= 4294967295;
        if fits && e.1 >= TAG_ROLE_SUPPORT as u64 {
            fits = e.2 <= 1073741823 && e.1 <= 1431655765;
            if fits && e.2 * 4 < e.1 * 3 {
                fits = e.3 <= 1073741823;
            }
        }
        if !fits {
            proof {
                assert(!tally_fits(tspec));
            }
            return false;
        }
        proof {
            assert forall|j: int| 0 <= j < k + 1 implies {
                let x = #[trigger] tspec.take(k + 1)[j];
                &&& x.1 <= u32::MAX
                &&& x.1 >= TAG_ROLE_SUPPORT ==> x.2 * 4 <= u32::MAX && x.1 * 3 <= u32::MAX && (x.2 * 4 < x.1 * 3 ==> x.3 * 4
                    <= u32::MAX)
            } by {
                if j < k {
                    assert(tspec.take(k + 1)[j] == tspec.take(k as int)[j]);
                } else {
                    assert(tspec.take(k + 1)[j] == se);
                }
            }
        }
        k = k + 1;
    }
    assert(tspec.take(k as int) =~= tspec);
    true
}

/// Whether every page's scan fits the reader's arithmetic (see [`scan_fits`]).
pub open spec fn pages_fit(lex: Seq<Seq<char>>, bodies: Seq<Seq<char>>) -> bool {
    forall|i: int| 0 <= i < bodies.len() ==> scan_fits(lex, #[trigger] bodies[i])
}

/// Whether every page's scan fits the reader's arithmetic (see [`pages_fit`]).
fn pages_fit_exec(bodies: &[String], lex: &Lexicon) -> (r: bool)
    ensures
        r == pages_fit(lex.words.deep_view(), bodies.deep_view()),
        r ==> forall|i: int| 0 <= i < bodies@.len() ==> scan_fits(lex.words.deep_view(), #[trigger] bodies@[i]@),
{
    let mut i: usize = 0;
    while i < bodies.len()
        invariant
            i <= bodies@.len(),
            bodies.deep_view().len() == bodies@.len(),
            forall|j: int| 0 <= j < i ==> scan_fits(lex.words.deep_view(), #[trigger] bodies.deep_view()[j]),
            forall|j: int| 0 <= j < i ==> (#[trigger] bodies@[j])@ == bodies.deep_view()[j],
        decreases bodies@.len() - i,
    {
        let h = chars_of(bodies[i].as_str());
        proof {
            assert(h@ == bodies.deep_view()[i as int]);
        }
        if !scan_fits_exec(lex, h.as_slice()) {
            return false;
        }
        i = i + 1;
    }
    true
}

/// [`calibration_tallies`] for any corpus: `None` where a page's scan does not fit the
/// reader's arithmetic, or the corpus holds more than `u64::MAX` characters in all.
pub fn calibration_tallies_checked(bodies: &[String], lex: &Lexicon) -> (r: Option<(Vec<u64>, Vec<u32>)>)
    ensures
        r is Some <==> pages_fit(lex.words.deep_view(), bodies.deep_view()) && chars_total(bodies.deep_view()) <= u64::MAX,
        r matches Some(t) ==> {
            &&& t.0@.map_values(|v: u64| v as nat) == corpus_hist(corpus_gaps(lex.words.deep_view(), bodies.deep_view()))
            &&& t.1@.map_values(|v: u32| v as nat) == corpus_titles(corpus_gaps(lex.words.deep_view(), bodies.deep_view()))
        },
{
    let ghost d = bodies.deep_view();
    if !pages_fit_exec(bodies, lex) {
        return None;
    }
    let mut total: u64 = 0;
    let mut i: usize = 0;
    while i < bodies.len()
        invariant
            i <= bodies@.len(),
            d == bodies.deep_view(),
            d.len() == bodies@.len(),
            total == chars_total(d.take(i as int)),
        decreases bodies@.len() - i,
    {
        let h = chars_of(bodies[i].as_str());
        proof {
            assert(h@ == d[i as int]);
            assert(d.take(i + 1).drop_last() =~= d.take(i as int));
            assert(d.take(i + 1).last() == d[i as int]);
        }
        if h.len() as u128 > (18446744073709551615u64 - total) as u128 {
            proof {
                lemma_chars_total_prefix(d, i + 1);
            }
            return None;
        }
        total = total + h.len() as u64;
        i = i + 1;
    }
    assert(d.take(i as int) =~= d);
    proof {
        lemma_corpus_hist_fits(lex.words.deep_view(), d);
    }
    Some(calibration_tallies(bodies, lex))
}

/// The title-shape candidates' word counts of a corpus, page by page, as `u32`s (see
/// [`corpus_titles`]).
pub open spec fn corpus_title_counts(gss: Seq<Seq<GapV>>) -> Seq<u32> {
    corpus_titles(gss).map_values(|n: nat| n as u32)
}

proof fn lemma_rank_from_bounds(s: Seq<u32>, idx: int, from: int)
    requires
        from <= 24,
    ensures
        from <= rank_from(s, idx, from) <= 24,
    decreases 24 - from,
{
    if from < 24 && count_le(s, from) <= idx {
        lemma_rank_from_bounds(s, idx, from + 1);
    }
}

/// Builds the brain from a corpus of page bodies (script and style already dropped): the
/// corpus is tallied here, `split` is the density split the caller took from the tallied
/// histogram, and the calibration finishes from both. `None` where a page's scan or the
/// corpus's size does not fit the reader's arithmetic, where there is no split or it is not
/// a multiple of 10 up to 1000, where the corpus shows too few title shapes (always so of
/// an empty corpus), or where its instances or tag tally do not fit the role rule's
/// arithmetic.
pub fn build(bodies: &[String], lex: &Lexicon, source_fp: u64, split: Option<u32>) -> (r: Option<Markup>)
    ensures
        bodies@.len() == 0 ==> r is None,
        r is Some <==> {
            &&& pages_fit(lex.words.deep_view(), bodies.deep_view())
            &&& chars_total(bodies.deep_view()) <= u64::MAX
            &&& split matches Some(s) && s % 10 == 0 && s <= 1000
            &&& title_ceiling_of(corpus_title_counts(corpus_gaps(lex.words.deep_view(), bodies.deep_view()))) is Some
            &&& roles_fit(
                corpus_gaps(lex.words.deep_view(), bodies.deep_view()),
                split.unwrap(),
                title_ceiling_of(corpus_title_counts(corpus_gaps(lex.words.deep_view(), bodies.deep_view()))).unwrap(),
            )
        },
        r matches Some(m) ==> {
            &&& m.split_pm == split.unwrap()
            &&& m.split_pm % 10 == 0 && m.split_pm <= 1000
            &&& m.title_ceiling == title_ceiling_of(corpus_title_counts(corpus_gaps(lex.words.deep_view(), bodies.deep_view()))).unwrap()
            &&& 2 <= m.title_ceiling <= 24
            &&& m.pages_read == bodies@.len()
            &&& m.source_fp == source_fp
            &&& roles_sorted(m.tag_roles@)
            &&& forall|i: int| 0 <= i < m.tag_roles@.len() ==> #[trigger] m.tag_roles@[i].1 == 1 || m.tag_roles@[i].1 == -1
            &&& forall|p: (u64, i8)| m.tag_roles@.contains(p) <==> learned_role(
                corpus_tally(corpus_gaps(lex.words.deep_view(), bodies.deep_view()), m.split_pm, m.title_ceiling),
                p,
            )
        },
{
    let ghost gss = corpus_gaps(lex.words.deep_view(), bodies.deep_view());
    let ghost tc = corpus_title_counts(gss);
    let titles = match calibration_tallies_checked(bodies, lex) {
        Some(t) => t.1,
        None => {
            return None;
        },
    };
    proof {
        assert(titles@.map_values(|v: u32| v as nat) == corpus_titles(gss));
        assert(titles@ =~= tc) by {
            assert forall|k: int| 0 <= k < titles@.len() implies titles@[k] == tc[k] by {
                assert(titles@.map_values(|v: u32| v as nat)[k] == titles@[k] as nat);
            }
        }
        if bodies@.len() == 0 {
            assert(gss =~= Seq::<Seq<GapV>>::empty());
            assert(corpus_titles(gss).len() == 0);
        }
    }
    let s = match split {
        Some(s) => s,
        None => {
            return None;
        },
    };
    if s % 10 != 0 || s > 1000 {
        return None;
    }
    let c = match title_ceiling(&titles) {
        Some(c) => c,
        None => {
            return None;
        },
    };
    proof {
        lemma_rank_from_bounds(titles@, (titles@.len() * 9 / 10) as int, 2);
    }
    proof {
        assert forall|i: int| 0 <= i < bodies@.len() implies scan_fits(lex.words.deep_view(), #[trigger] bodies@[i]@) by {
            assert(bodies@[i]@ == bodies.deep_view()[i]);
        }
    }
    if !roles_fit_exec(bodies, lex, s, c) {
        return None;
    }
    let r = calibrated(bodies, lex, source_fp, split, &titles);
    proof {
        if r is Some {
            let m = r->0;
            assert forall|i: int| 0 <= i < m.tag_roles@.len() implies #[trigger] m.tag_roles@[i].1 == 1 || m.tag_roles@[i].1
                == -1 by {
                let p = m.tag_roles@[i];
                assert(m.tag_roles@.contains(p));
                let t = corpus_tally(gss, m.split_pm, m.title_ceiling);
                let j = choose|j: int| 0 <= j < t.len() && (#[trigger] t[j]).0 == p.0 && role_for(t[j]) == Some(p.1);
            }
        }
    }
    r
}

// ── Page order ───────────────────────────────────────────────────────────────

proof fn lemma_take_bytes_lt(h: Seq<char>, a: int, b: int)
    requires
        0 <= a < b <= h.len(),
    ensures
        byte_len(h.take(a)) < byte_len(h.take(b)),
{
    lemma_byte_len_concat(h.take(a), h.subrange(a, b));
    assert(h.take(a) + h.subrange(a, b) =~= h.take(b));
    assert(h.subrange(a, b).drop_first() =~= h.subrange(a + 1, b));
    assert(byte_len(h.subrange(a, b)) == utf8_width(h.subrange(a, b)[0]) + byte_len(h.subrange(a + 1, b)));
}

proof fn lemma_units_from_order(h: Seq<char>, tags: Seq<(int, int)>, r: ReadV, i: int)
    requires
        gaps_within(r.gaps, 0, h.len() as int),
        0 <= i,
    ensures
        forall|a: int| 0 <= a < units_from(h, tags, r, i).len() ==> i < r.gaps.len() && (#[trigger] units_from(
            h,
            tags,
            r,
            i,
        )[a]).at >= byte_len(h.take(r.gaps[i].start)),
        forall|a: int, b: int| 0 <= a < b < units_from(h, tags, r, i).len() ==> (#[trigger] units_from(h, tags, r, i)[a]).at
            < (#[trigger] units_from(h, tags, r, i)[b]).at,
    decreases r.gaps.len() - i,
{
    let gs = r.gaps;
    let us = units_from(h, tags, r, i);
    if i < gs.len() {
        if !in_code(r, i) {
            lemma_units_from_order(h, tags, r, i + 1);
            let rest = units_from(h, tags, r, i + 1);
            assert(us == rest);
            if i + 1 < gs.len() {
                assert(gs[i].end <= gs[i + 1].start);
                lemma_take_bytes_lt(h, gs[i].start, gs[i + 1].start);
            } else {
                assert(rest.len() == 0);
            }
        } else {
            let j = code_run_end(r, i);
            if i <= j < gs.len() {
                lemma_units_from_order(h, tags, r, j + 1);
                let rest = units_from(h, tags, r, j + 1);
                if j + 1 < gs.len() {
                    if i < j {
                        assert(gs[i].end <= gs[j].start);
                    }
                    assert(gs[j].end <= gs[j + 1].start);
                    lemma_take_bytes_lt(h, gs[i].start, gs[j + 1].start);
                }
                match unit_of(h, tags, r, i, j) {
                    Some(u) => {
                        assert(us == seq![u] + rest);
                        assert forall|a: int, b: int| 0 <= a < b < us.len() implies (#[trigger] us[a]).at < (
                        #[trigger] us[b]).at by {
                            if a == 0 {
                                assert(us[b] == rest[b - 1]);
                            } else {
                                assert(us[a] == rest[a - 1]);
                                assert(us[b] == rest[b - 1]);
                            }
                        }
                        assert forall|a: int| 0 <= a < us.len() implies (#[trigger] us[a]).at >= byte_len(h.take(gs[i].start)) by {
                            if a > 0 {
                                assert(us[a] == rest[a - 1]);
                            }
                        }
                    },
                    None => {
                        assert(us == rest);
                        if j + 1 >= gs.len() {
                            assert(rest.len() == 0);
                        }
                    },
                }
            }
        }
    }
}

/// The units read off a page come in page order: each code span starts after the one
/// before it.
pub proof fn law_units_in_page_order(
    lex: Seq<Seq<char>>,
    h: Seq<char>,
    split: u32,
    ceiling: u32,
    roles: Seq<(u64, i8)>,
)
    ensures
        forall|a: int, b: int| 0 <= a < b < read_page_spec(lex, h, split, ceiling, roles).len() ==> (#[trigger] read_page_spec(
            lex,
            h,
            split,
            ceiling,
            roles,
        )[a]).at < (#[trigger] read_page_spec(lex, h, split, ceiling, roles)[b]).at,
{
    if split != 0 && ceiling != 0 {
        let sv = scan_of(lex, h);
        lemma_scan_within(lex, h, 0, Seq::empty(), 0);
        lemma_units_from_order(h, sv.tags, ReadV { split, ceiling, roles, gaps: sv.gaps }, 0);
    }
}

} // verus!
