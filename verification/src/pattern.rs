//! Lossless rule patterns: a rule's documented `bad`/`good` examples are parsed with the
//! language's bundled grammar, the smallest construct of `bad` the fix does not share is
//! compiled into a generalized sub-tree pattern (operations, keywords and operators exact;
//! variables bound wildcards; literals typed wildcards), and the pattern is matched against
//! code by exact sub-tree containment with consistent variable binding.

use vstd::prelude::*;
use crate::hv::{fnv, fnv_hash};
use crate::text::{
    add_unique, ascii_alnum, byte_len, byte_len_at_least, chars_eq, chars_of, contains, contains_seq, find,
    holds, is_ascii_alnum, lowercase, push_unique, string_of, to_lowercase, trim, trim_class, trimmed,
    trimmed_class, views,
};

verus! {

broadcast use vstd::string::group_string_axioms;

// ── Parse trees ──────────────────────────────────────────────────────────────

/// A tree-sitter grammar.
#[verifier::external_type_specification]
#[verifier::external_body]
pub struct ExLanguage(tree_sitter::Language);

/// tree-sitter-rust's grammar.
#[verifier::external_body]
fn rust_grammar() -> tree_sitter::Language {
    tree_sitter_rust::LANGUAGE.into()
}

/// tree-sitter-python's grammar.
#[verifier::external_body]
fn python_grammar() -> tree_sitter::Language {
    tree_sitter_python::LANGUAGE.into()
}

/// tree-sitter-javascript's grammar.
#[verifier::external_body]
fn javascript_grammar() -> tree_sitter::Language {
    tree_sitter_javascript::LANGUAGE.into()
}

/// tree-sitter-typescript's TypeScript grammar.
#[verifier::external_body]
fn typescript_grammar() -> tree_sitter::Language {
    tree_sitter_typescript::LANGUAGE_TYPESCRIPT.into()
}

/// tree-sitter-typescript's TSX grammar.
#[verifier::external_body]
fn tsx_grammar() -> tree_sitter::Language {
    tree_sitter_typescript::LANGUAGE_TSX.into()
}

/// tree-sitter-go's grammar.
#[verifier::external_body]
fn go_grammar() -> tree_sitter::Language {
    tree_sitter_go::LANGUAGE.into()
}

/// tree-sitter-java's grammar.
#[verifier::external_body]
fn java_grammar() -> tree_sitter::Language {
    tree_sitter_java::LANGUAGE.into()
}

/// tree-sitter-ruby's grammar.
#[verifier::external_body]
fn ruby_grammar() -> tree_sitter::Language {
    tree_sitter_ruby::LANGUAGE.into()
}

/// tree-sitter-c's grammar.
#[verifier::external_body]
fn c_grammar() -> tree_sitter::Language {
    tree_sitter_c::LANGUAGE.into()
}

/// tree-sitter-bash's grammar.
#[verifier::external_body]
fn bash_grammar() -> tree_sitter::Language {
    tree_sitter_bash::LANGUAGE.into()
}

/// A bundled grammar together with the name of its language. Only [`grammar`] makes one,
/// so the grammar is always the one bundled for that name.
pub struct Grammar {
    name: String,
    language: tree_sitter::Language,
}

impl View for Grammar {
    type V = Seq<char>;

    closed spec fn view(&self) -> Seq<char> {
        self.name@
    }
}

/// The bundled grammar of language `lang`, or `None` for a language without one (see
/// [`crate::select::bundled_names`]).
fn grammar(lang: &str) -> (r: Option<Grammar>)
    ensures
        r is Some <==> crate::select::bundled_names().contains(lang@),
        r matches Some(g) ==> g@ == lang@,
{
    let known = crate::select::bundled_language(lang);
    if !known {
        return None;
    }
    let l = chars_of(lang);
    let name = string_of(l.as_slice());
    let pick = |n: &str| -> (b: bool)
        ensures
            b == (l@ == n@),
        { chars_eq(l.as_slice(), chars_of(n).as_slice()) };
    let language = if pick("rust") {
        rust_grammar()
    } else if pick("python") {
        python_grammar()
    } else if pick("javascript") {
        javascript_grammar()
    } else if pick("typescript") {
        typescript_grammar()
    } else if pick("tsx") {
        tsx_grammar()
    } else if pick("go") {
        go_grammar()
    } else if pick("java") {
        java_grammar()
    } else if pick("ruby") {
        ruby_grammar()
    } else if pick("c") {
        c_grammar()
    } else {
        bash_grammar()
    };
    Some(Grammar { name, language })
}

/// One node entered by a walk over a parse tree: its kind, whether it is named, its source
/// text, its 0-based start row, its field name under its parent (empty when none) and its
/// start and end byte offsets.
pub type WalkEntry = (String, bool, String, usize, String, usize, usize);

/// A walk entry as a value (see [`WalkEntry`]).
pub type EntryV = (Seq<char>, bool, Seq<char>, usize, Seq<char>, usize, usize);

/// What tree-sitter gives for `code` under the bundled grammar of language `lang`: the
/// preorder walk of its parse tree, each node entered listed as `Some` of its entry and each
/// node left as `None`; `None` when the parser refuses the grammar or returns no tree.
pub uninterp spec fn parse_walk(lang: Seq<char>, code: Seq<char>) -> Option<
    Seq<Option<(Seq<char>, bool, Seq<char>, usize, Seq<char>, usize, usize)>>,
>;

/// The numeric id the bundled grammar of language `lang` gives the node kind spelled
/// `kind`, named or anonymous as `named` says, or 0 when it has none.
pub uninterp spec fn grammar_kind_id(lang: Seq<char>, kind: Seq<char>, named: bool) -> u16;

/// How many node kinds the bundled grammar of language `lang` has.
pub uninterp spec fn grammar_kind_count(lang: Seq<char>) -> usize;

/// A walk entry as a value.
pub open spec fn entry_view(e: Option<WalkEntry>) -> Option<EntryV> {
    match e {
        Some(x) => Some((x.0@, x.1, x.2@, x.3, x.4@, x.5, x.6)),
        None => None,
    }
}

/// A walk as values.
pub open spec fn walk_view(w: Seq<Option<WalkEntry>>) -> Seq<Option<EntryV>> {
    w.map_values(|e: Option<WalkEntry>| entry_view(e))
}

/// An optional walk as values.
pub open spec fn opt_walk(r: Option<Vec<Option<WalkEntry>>>) -> Option<Seq<Option<EntryV>>> {
    match r {
        Some(v) => Some(walk_view(v@)),
        None => None,
    }
}

/// tree-sitter's `Parser::set_language` with `g`'s grammar, `Parser::parse` of `code`, and
/// the `TreeCursor` preorder walk over the tree (`Node::kind`, `is_named`, `utf8_text`,
/// `start_position`, `start_byte`, `end_byte`, `TreeCursor::field_name`). The parse depends
/// on the grammar and the code alone (no timeout or cancellation is set), so its walk is
/// named [`parse_walk`] of the grammar's language and the code.
#[verifier::external_body]
fn parse_and_walk(g: &Grammar, code: &str) -> (r: Option<Vec<Option<WalkEntry>>>)
    ensures
        opt_walk(r) == parse_walk(g@, code@),
{
    let mut p = tree_sitter::Parser::new();
    p.set_language(&g.language).ok()?;
    let t = p.parse(code, None)?;
    let mut c = t.walk();
    let mut out = vec![];
    loop {
        let n = c.node();
        out.push(Some((n.kind().into(), n.is_named(), n.utf8_text(code.as_bytes()).unwrap_or("").into(), n.start_position().row, c.field_name().unwrap_or("").into(), n.start_byte(), n.end_byte())));
        if c.goto_first_child() { continue; }
        out.push(None);
        while !c.goto_next_sibling() {
            if !c.goto_parent() { return Some(out); }
            out.push(None);
        }
    }
}

/// One node of a parse tree: its kind, whether it is named, its source text, its 0-based
/// start row, its field name under its parent (empty when none), its start and end byte
/// offsets, and its children in source order.
pub struct Syn {
    pub kind: String,
    pub named: bool,
    pub text: String,
    pub row: usize,
    pub field: String,
    pub start: usize,
    pub end: usize,
    pub children: Vec<Syn>,
}

/// A parse tree node as a value (see [`Syn`]).
pub struct SynV {
    pub kind: Seq<char>,
    pub named: bool,
    pub text: Seq<char>,
    pub row: usize,
    pub field: Seq<char>,
    pub start: usize,
    pub end: usize,
    pub children: Seq<SynV>,
}

/// The tree `n` as a value.
pub open spec fn syn_view(n: Syn) -> SynV
    decreases n,
{
    SynV {
        kind: n.kind@,
        named: n.named,
        text: n.text@,
        row: n.row,
        field: n.field@,
        start: n.start,
        end: n.end,
        children: syns_view(n.children@),
    }
}

/// The trees `cs` as values.
pub open spec fn syns_view(cs: Seq<Syn>) -> Seq<SynV>
    decreases cs,
{
    if cs.len() == 0 {
        Seq::empty()
    } else {
        syns_view(cs.drop_last()).push(syn_view(cs.last()))
    }
}

/// The tree that a walk encodes from its entry at `i`, and the index just past the `None`
/// that leaves it: the entry's node (refused when its row is `usize::MAX` or its span is not
/// `start <= end <= limit`) with the trees encoded one after another from `i + 1` up to the
/// leaving `None` as its children. `None` when the walk does not nest.
pub open spec fn decode(w: Seq<Option<EntryV>>, i: int, limit: int) -> Option<(SynV, int)>
    decreases w.len() - i, 0int,
{
    if i < 0 || i >= w.len() {
        None
    } else {
        match w[i] {
            None => None,
            Some(e) => if e.3 == usize::MAX || e.5 > e.6 || e.6 > limit {
                None
            } else {
                match decode_kids(w, i + 1, limit) {
                    Some((cs, j)) => Some(
                        (
                            SynV {
                                kind: e.0,
                                named: e.1,
                                text: e.2,
                                row: e.3,
                                field: e.4,
                                start: e.5,
                                end: e.6,
                                children: cs,
                            },
                            j + 1,
                        ),
                    ),
                    None => None,
                }
            },
        }
    }
}

/// The trees a walk encodes one after another from `j`, and the index of the `None` that
/// ends them; `None` when the walk does not nest.
pub open spec fn decode_kids(w: Seq<Option<EntryV>>, j: int, limit: int) -> Option<(Seq<SynV>, int)>
    decreases w.len() - j, 1int,
{
    if j < 0 || j >= w.len() {
        None
    } else if w[j] is None {
        Some((Seq::empty(), j))
    } else {
        match decode(w, j, limit) {
            Some((c, next)) => if j < next <= w.len() {
                match decode_kids(w, next, limit) {
                    Some((cs, k)) => Some((seq![c] + cs, k)),
                    None => None,
                }
            } else {
                None
            },
            None => None,
        }
    }
}

/// `a` before the trees of `o`, if any.
pub open spec fn prefixed(a: Seq<SynV>, o: Option<(Seq<SynV>, int)>) -> Option<(Seq<SynV>, int)> {
    match o {
        Some((cs, k)) => Some((a + cs, k)),
        None => None,
    }
}

/// A built subtree with the index past it, as values.
pub open spec fn opt_built(r: Option<(Syn, usize)>) -> Option<(SynV, int)> {
    match r {
        Some((t, next)) => Some((syn_view(t), next as int)),
        None => None,
    }
}

/// The tree a whole walk encodes: the tree from its first entry, when it takes up the
/// whole walk.
pub open spec fn walk_tree_of(w: Seq<Option<EntryV>>, limit: int) -> Option<SynV> {
    match decode(w, 0, limit) {
        Some((t, next)) => if next == w.len() {
            Some(t)
        } else {
            None
        },
        None => None,
    }
}

/// An optional tree as a value.
pub open spec fn opt_tree(r: Option<Syn>) -> Option<SynV> {
    match r {
        Some(t) => Some(syn_view(t)),
        None => None,
    }
}

/// The subtree whose entry opens the walk at `walk[i]`, with its children, and the index
/// just past the entry that leaves it; `None` when the walk does not nest.
fn build_from(walk: &Vec<Option<WalkEntry>>, i: usize, limit: usize) -> (r: Option<(Syn, usize)>)
    requires
        i < walk@.len(),
    ensures
        r matches Some(p) ==> i < p.1 <= walk@.len() && rows_fit(p.0) && spans_fit(p.0, limit as int),
        opt_built(r) == decode(walk_view(walk@), i as int, limit as int),
    decreases walk@.len() - i,
{
    let n = walk.len();
    let e = match &walk[i] {
        Some(e) => e,
        None => {
            return None;
        },
    };
    if e.3 == usize::MAX || e.5 > e.6 || e.6 > limit {
        return None;
    }
    let mut children: Vec<Syn> = Vec::new();
    let mut j: usize = i + 1;
    loop
        invariant
            n == walk@.len(),
            i < j <= n,
            rows_fit_all(children@),
            spans_fit_all(children@, limit as int),
            walk@[i as int] == Some(*e),
            !(e.3 == usize::MAX || e.5 > e.6 || e.6 > limit),
            decode_kids(walk_view(walk@), i + 1, limit as int) == prefixed(
                syns_view(children@),
                decode_kids(walk_view(walk@), j as int, limit as int),
            ),
        ensures
            i < j < n,
            rows_fit_all(children@),
            spans_fit_all(children@, limit as int),
            walk@[j as int] is None,
            decode_kids(walk_view(walk@), i + 1, limit as int) == prefixed(
                syns_view(children@),
                decode_kids(walk_view(walk@), j as int, limit as int),
            ),
        decreases n - j,
    {
        if j >= n {
            return None;
        }
        if walk[j].is_none() {
            break;
        }
        match build_from(walk, j, limit) {
            Some((c, next)) => {
                let ghost before = children@;
                children.push(c);
                assert(children@.drop_last() =~= before);
                proof {
                    let x = decode_kids(walk_view(walk@), next as int, limit as int);
                    assert(syns_view(children@) == syns_view(before).push(syn_view(c)));
                    match x {
                        Some((cs, k)) => {
                            assert(syns_view(before) + (seq![syn_view(c)] + cs) =~= syns_view(children@) + cs);
                        },
                        None => {},
                    }
                }
                j = next;
            },
            None => {
                return None;
            },
        }
    }
    assert(syns_view(children@) + Seq::<SynV>::empty() =~= syns_view(children@));
    let node = Syn {
        kind: string_of(chars_of(e.0.as_str()).as_slice()),
        named: e.1,
        text: string_of(chars_of(e.2.as_str()).as_slice()),
        row: e.3,
        field: string_of(chars_of(e.4.as_str()).as_slice()),
        start: e.5,
        end: e.6,
        children,
    };
    Some((node, j + 1))
}

/// The tree tree-sitter gives for `code` in language `lang` (see [`parse_walk`] and
/// [`walk_tree_of`]): `None` when `lang` has no bundled grammar, the parse fails, or its
/// walk does not read as a tree whose rows can be counted from 1 in a `usize` and whose byte
/// spans lie within `limit`.
pub open spec fn parsed(lang: Seq<char>, code: Seq<char>, limit: int) -> Option<SynV> {
    if !crate::select::bundled_names().contains(lang) {
        None
    } else {
        match parse_walk(lang, code) {
            Some(w) => walk_tree_of(w, limit),
            None => None,
        }
    }
}

/// Whether `t` is the parse of `code` in `lang` within `limit` (see [`parsed`]).
pub open spec fn is_parse(t: Option<Syn>, lang: Seq<char>, code: Seq<char>, limit: int) -> bool {
    opt_tree(t) == parsed(lang, code, limit)
}

/// The parse tree of `code` under the bundled grammar of `lang` (see [`parsed`]).
pub fn parse_within(lang: &str, code: &str, limit: usize) -> (r: Option<Syn>)
    ensures
        !crate::select::bundled_names().contains(lang@) ==> r is None,
        r matches Some(t) ==> rows_fit(t) && spans_fit(t, limit as int),
        is_parse(r, lang@, code@, limit as int),
{
    let g = match grammar(lang) {
        Some(g) => g,
        None => {
            return None;
        },
    };
    match parse_and_walk(&g, code) {
        Some(walk) => tree_of_walk(&walk, limit),
        None => None,
    }
}

/// The tree a parse walk encodes (see [`walk_tree_of`]): entries in preorder, each node
/// entered as `Some` of its entry and left as `None`.
pub fn tree_of_walk(walk: &Vec<Option<WalkEntry>>, limit: usize) -> (r: Option<Syn>)
    ensures
        opt_tree(r) == walk_tree_of(walk_view(walk@), limit as int),
        r matches Some(t) ==> rows_fit(t) && spans_fit(t, limit as int),
{
    if walk.len() == 0 {
        return None;
    }
    match build_from(walk, 0, limit) {
        Some((root, next)) => if next == walk.len() {
            Some(root)
        } else {
            None
        },
        None => None,
    }
}

/// The parse tree of `code` under the bundled grammar of `lang` (see [`parse_within`],
/// with no bound on the byte spans but the machine's).
pub fn parse(lang: &str, code: &str) -> (r: Option<Syn>)
    ensures
        !crate::select::bundled_names().contains(lang@) ==> r is None,
        r matches Some(t) ==> rows_fit(t),
        is_parse(r, lang@, code@, usize::MAX as int),
{
    parse_within(lang, code, usize::MAX)
}

/// Whether every node of the tree spans bytes `start..end` with `start <= end <= limit`.
pub open spec fn spans_fit(n: Syn, limit: int) -> bool
    decreases n,
{
    n.start <= n.end <= limit && spans_fit_all(n.children@, limit)
}

/// Whether every tree among `cs` has spans within `limit` (see [`spans_fit`]).
pub open spec fn spans_fit_all(cs: Seq<Syn>, limit: int) -> bool
    decreases cs,
{
    cs.len() == 0 || (spans_fit_all(cs.drop_last(), limit) && spans_fit(cs.last(), limit))
}

// ── Meaningful children and shapes ───────────────────────────────────────────

/// The bracketing punctuation that carries no meaning.
pub open spec fn brackets() -> Seq<char> {
    seq!['(', ')', '{', '}', '[', ']', ',', ';']
}

/// `char::is_ascii_punctuation`.
pub open spec fn ascii_punct(c: char) -> bool {
    ('!' <= c && c <= '/') || (':' <= c && c <= '@') || ('[' <= c && c <= '`') || ('{' <= c && c <= '~')
}

/// Whether an unnamed token is a real operator: its kind is one to three ASCII punctuation
/// characters and not a piece of the bracketing punctuation.
pub open spec fn op_token(n: Syn) -> bool {
    let k = n.kind@;
    &&& !n.named
    &&& 0 < k.len() <= 3
    &&& forall|i: int| 0 <= i < k.len() ==> ascii_punct(#[trigger] k[i])
    &&& !contains_seq(brackets(), k)
}

/// Whether a child carries meaning: a named node or an operator token.
pub open spec fn meaningful(n: Syn) -> bool {
    n.named || op_token(n)
}

/// The indices of the meaningful children among `cs`, in source order.
pub open spec fn kid_indices(cs: Seq<Syn>) -> Seq<int>
    decreases cs.len(),
{
    if cs.len() == 0 {
        Seq::empty()
    } else if meaningful(cs.last()) {
        kid_indices(cs.drop_last()).push(cs.len() - 1)
    } else {
        kid_indices(cs.drop_last())
    }
}

/// The seed of a node kind.
pub open spec fn kind_seed(k: Seq<char>) -> u64 {
    fnv(k)
}

/// `h` rotated left by seven bits.
pub open spec fn rotl7(h: u64) -> u64 {
    (h << 7u64) | (h >> 57u64)
}

/// The multiplier a child's shape is folded in with.
pub const SHAPE_MIX: u64 = 0x9E37_79B9_7F4A_7C15;

/// The shape hash of a subtree: its kind's seed folded over its meaningful children's
/// shapes in order — node kinds and operators, independent of names and literals.
pub open spec fn shape(n: Syn) -> u64
    decreases n,
{
    shape_fold(n.children@, kind_seed(n.kind@))
}

/// `h` with the shapes of the meaningful children among `cs` folded in, in order.
pub open spec fn shape_fold(cs: Seq<Syn>, h: u64) -> u64
    decreases cs,
{
    if cs.len() == 0 {
        h
    } else {
        let h2 = shape_fold(cs.drop_last(), h);
        if meaningful(cs.last()) {
            rotl7(h2) ^ shape(cs.last()).wrapping_mul(SHAPE_MIX)
        } else {
            h2
        }
    }
}

/// A parse tree annotated with the shape hash of every node, children one for one.
pub struct Shaped {
    pub hash: u64,
    pub children: Vec<Shaped>,
}

/// Whether `s` annotates `n` with its shape hashes.
pub open spec fn shaped_ok(s: Shaped, n: Syn) -> bool
    decreases n,
{
    s.hash == shape(n) && shaped_all(s.children@, n.children@)
}

/// Whether each of `ss` annotates the child of `cs` at its index.
pub open spec fn shaped_all(ss: Seq<Shaped>, cs: Seq<Syn>) -> bool
    decreases cs,
{
    if cs.len() == 0 {
        ss.len() == 0
    } else {
        ss.len() == cs.len() && shaped_all(ss.drop_last(), cs.drop_last()) && shaped_ok(ss.last(), cs.last())
    }
}

proof fn lemma_shaped_all(ss: Seq<Shaped>, cs: Seq<Syn>, i: int)
    requires
        shaped_all(ss, cs),
        0 <= i < cs.len(),
    ensures
        ss.len() == cs.len(),
        shaped_ok(ss[i], cs[i]),
    decreases cs.len(),
{
    if i < cs.len() - 1 {
        lemma_shaped_all(ss.drop_last(), cs.drop_last(), i);
    }
}

/// Whether `n`'s kind is an operator token (see [`op_token`]).
fn is_op_token(n: &Syn) -> (r: bool)
    ensures
        r == op_token(*n),
{
    if n.named {
        return false;
    }
    let k = chars_of(n.kind.as_str());
    if k.len() == 0 || k.len() > 3 {
        return false;
    }
    let mut i: usize = 0;
    while i < k.len()
        invariant
            i <= k@.len(),
            k@ == n.kind@,
            !n.named,
            forall|q: int| 0 <= q < i ==> ascii_punct(#[trigger] k@[q]),
        decreases k@.len() - i,
    {
        let c = k[i];
        if !(('!' <= c && c <= '/') || (':' <= c && c <= '@') || ('[' <= c && c <= '`') || ('{' <= c && c <= '~')) {
            assert(!ascii_punct(k@[i as int]));
            return false;
        }
        i = i + 1;
    }
    let br: Vec<char> = vec!['(', ')', '{', '}', '[', ']', ',', ';'];
    assert(br@ =~= brackets());
    find(br.as_slice(), k.as_slice(), 0).is_none()
}

/// Whether a child carries meaning (see [`meaningful`]).
fn is_meaningful(n: &Syn) -> (r: bool)
    ensures
        r == meaningful(*n),
{
    n.named || is_op_token(n)
}

/// The indices of the meaningful children of `n` (see [`kid_indices`]).
fn kids_of(n: &Syn) -> (r: Vec<usize>)
    ensures
        r@.map_values(|i: usize| i as int) == kid_indices(n.children@),
        forall|q: int| 0 <= q < r@.len() ==> r@[q] < n.children@.len(),
{
    let mut out: Vec<usize> = Vec::new();
    let mut i: usize = 0;
    while i < n.children.len()
        invariant
            i <= n.children@.len(),
            out@.map_values(|i: usize| i as int) == kid_indices(n.children@.take(i as int)),
            forall|q: int| 0 <= q < out@.len() ==> out@[q] < i,
        decreases n.children@.len() - i,
    {
        proof {
            assert(n.children@.take(i + 1).drop_last() =~= n.children@.take(i as int));
            assert(n.children@.take(i + 1).last() == n.children@[i as int]);
        }
        if is_meaningful(&n.children[i]) {
            let ghost before = out@;
            out.push(i);
            proof {
                assert(out@.map_values(|i: usize| i as int) =~= before.map_values(|i: usize| i as int).push(i as int));
            }
        }
        i = i + 1;
    }
    assert(n.children@.take(i as int) =~= n.children@);
    out
}

/// The tree annotated with its shape hashes (see [`shape`]).
pub fn shaped(n: &Syn) -> (r: Shaped)
    ensures
        shaped_ok(r, *n),
    decreases n,
{
    let mut h = fnv_hash(chars_of(n.kind.as_str()).as_slice());
    let mut children: Vec<Shaped> = Vec::new();
    let mut i: usize = 0;
    assert(n.children@.take(0) =~= Seq::<Syn>::empty());
    while i < n.children.len()
        invariant
            i <= n.children@.len(),
            h == shape_fold(n.children@.take(i as int), kind_seed(n.kind@)),
            shaped_all(children@, n.children@.take(i as int)),
        decreases n.children@.len() - i,
    {
        let c = shaped(&n.children[i]);
        proof {
            assert(n.children@.take(i + 1).drop_last() =~= n.children@.take(i as int));
            assert(n.children@.take(i + 1).last() == n.children@[i as int]);
        }
        if is_meaningful(&n.children[i]) {
            h = ((h << 7u64) | (h >> 57u64)) ^ c.hash.wrapping_mul(SHAPE_MIX);
        }
        let ghost before = children@;
        children.push(c);
        proof {
            assert(children@.drop_last() =~= before);
            if i > 0 {
                assert(shaped_all(before, n.children@.take(i as int)));
            }
        }
        i = i + 1;
    }
    assert(n.children@.take(i as int) =~= n.children@);
    Shaped { hash: h, children }
}


// ── What the fix keeps ───────────────────────────────────────────────────────

/// The shapes of a subtree's meaningful nodes (the root and every meaningful descendant
/// reached through meaningful children), in preorder.
pub open spec fn shapes_list(n: Syn) -> Seq<u64>
    decreases n,
{
    seq![shape(n)] + shapes_list_all(n.children@)
}

/// The shape lists of the meaningful children among `cs`, concatenated in order.
pub open spec fn shapes_list_all(cs: Seq<Syn>) -> Seq<u64>
    decreases cs,
{
    if cs.len() == 0 {
        Seq::empty()
    } else if meaningful(cs.last()) {
        shapes_list_all(cs.drop_last()) + shapes_list(cs.last())
    } else {
        shapes_list_all(cs.drop_last())
    }
}

/// The kinds of a subtree's meaningful nodes, in preorder.
pub open spec fn kinds_list(n: Syn) -> Seq<Seq<char>>
    decreases n,
{
    seq![n.kind@] + kinds_list_all(n.children@)
}

/// The kind lists of the meaningful children among `cs`, concatenated in order.
pub open spec fn kinds_list_all(cs: Seq<Syn>) -> Seq<Seq<char>>
    decreases cs,
{
    if cs.len() == 0 {
        Seq::empty()
    } else if meaningful(cs.last()) {
        kinds_list_all(cs.drop_last()) + kinds_list(cs.last())
    } else {
        kinds_list_all(cs.drop_last())
    }
}

/// The shapes of the meaningful children among `cs`, in order.
pub open spec fn kid_shapes(cs: Seq<Syn>) -> Seq<u64>
    decreases cs.len(),
{
    if cs.len() == 0 {
        Seq::empty()
    } else if meaningful(cs.last()) {
        kid_shapes(cs.drop_last()).push(shape(cs.last()))
    } else {
        kid_shapes(cs.drop_last())
    }
}

/// Each meaningful node of a subtree with its kind and its meaningful children's shapes,
/// in preorder.
pub open spec fn child_shapes_list(n: Syn) -> Seq<(Seq<char>, Seq<u64>)>
    decreases n,
{
    seq![(n.kind@, kid_shapes(n.children@))] + child_shapes_all(n.children@)
}

/// The child-shape lists of the meaningful children among `cs`, concatenated in order.
pub open spec fn child_shapes_all(cs: Seq<Syn>) -> Seq<(Seq<char>, Seq<u64>)>
    decreases cs,
{
    if cs.len() == 0 {
        Seq::empty()
    } else if meaningful(cs.last()) {
        child_shapes_all(cs.drop_last()) + child_shapes_list(cs.last())
    } else {
        child_shapes_all(cs.drop_last())
    }
}

/// What a rule's fix keeps: the shapes, kinds and child-shape lists of its meaningful
/// nodes. Empty for a rule without a fix.
pub struct FixV {
    pub shapes: Seq<u64>,
    pub kinds: Seq<Seq<char>>,
    pub child_shapes: Seq<(Seq<char>, Seq<u64>)>,
}

/// What the fix tree `g` keeps.
pub open spec fn fix_of(g: Syn) -> FixV {
    FixV { shapes: shapes_list(g), kinds: kinds_list(g), child_shapes: child_shapes_list(g) }
}

/// How many times `x` occurs in `s`.
pub open spec fn count_of(s: Seq<u64>, x: u64) -> nat
    decreases s.len(),
{
    if s.len() == 0 {
        0
    } else {
        count_of(s.drop_last(), x) + if s.last() == x { 1nat } else { 0nat }
    }
}

/// Whether `sub` is contained in `sup` as a multiset.
pub open spec fn submultiset(sub: Seq<u64>, sup: Seq<u64>) -> bool {
    forall|x: u64| count_of(sub, x) <= #[trigger] count_of(sup, x)
}

/// Whether the fix kept the construct `n` and only inserted siblings inside it: `n` has
/// meaningful children, and some node of the fix of the same kind has strictly more
/// meaningful children whose shapes contain `n`'s children's shapes as a multiset.
pub open spec fn fix_only_inserted(n: Syn, fix: FixV) -> bool {
    let want = kid_shapes(n.children@);
    want.len() > 0 && exists|j: int|
        0 <= j < fix.child_shapes.len() && (#[trigger] fix.child_shapes[j]).0 == n.kind@ && fix.child_shapes[j].1.len()
            > want.len() && submultiset(want, fix.child_shapes[j].1)
}

proof fn lemma_count_zero(s: Seq<u64>, x: u64)
    requires
        !s.contains(x),
    ensures
        count_of(s, x) == 0,
    decreases s.len(),
{
    if s.len() > 0 {
        assert(!s.drop_last().contains(x)) by {
            if s.drop_last().contains(x) {
                let k = choose|k: int| 0 <= k < s.drop_last().len() && s.drop_last()[k] == x;
                assert(s[k] == x);
            }
        }
        lemma_count_zero(s.drop_last(), x);
        assert(s.last() != x) by {
            if s.last() == x {
                assert(s[s.len() - 1] == x);
            }
        }
    }
}

/// How many times `x` occurs in `s` (see [`count_of`]).
fn count_in(s: &Vec<u64>, x: u64) -> (r: usize)
    ensures
        r == count_of(s@, x),
{
    let mut c: usize = 0;
    let mut i: usize = 0;
    while i < s.len()
        invariant
            i <= s@.len(),
            c == count_of(s@.take(i as int), x),
            c <= i,
        decreases s@.len() - i,
    {
        proof {
            assert(s@.take(i + 1).drop_last() =~= s@.take(i as int));
        }
        if s[i] == x {
            c = c + 1;
        }
        i = i + 1;
    }
    assert(s@.take(i as int) =~= s@);
    c
}

/// Whether `sub` is contained in `sup` as a multiset (see [`submultiset`]).
fn is_submultiset(sub: &Vec<u64>, sup: &Vec<u64>) -> (r: bool)
    ensures
        r == submultiset(sub@, sup@),
{
    let mut i: usize = 0;
    while i < sub.len()
        invariant
            i <= sub@.len(),
            forall|q: int| 0 <= q < i ==> count_of(sub@, #[trigger] sub@[q]) <= count_of(sup@, sub@[q]),
        decreases sub@.len() - i,
    {
        if count_in(sub, sub[i]) > count_in(sup, sub[i]) {
            return false;
        }
        i = i + 1;
    }
    proof {
        assert forall|x: u64| count_of(sub@, x) <= #[trigger] count_of(sup@, x) by {
            if sub@.contains(x) {
                let q = choose|q: int| 0 <= q < sub@.len() && sub@[q] == x;
                assert(count_of(sub@, sub@[q]) <= count_of(sup@, sub@[q]));
            } else {
                lemma_count_zero(sub@, x);
            }
        }
    }
    true
}


proof fn lemma_kid_shapes(cs: Seq<Syn>)
    ensures
        kid_shapes(cs).len() == kid_indices(cs).len(),
        forall|j: int|
            0 <= j < kid_indices(cs).len() ==> 0 <= #[trigger] kid_indices(cs)[j] < cs.len() && meaningful(
                cs[kid_indices(cs)[j]],
            ) && kid_shapes(cs)[j] == shape(cs[kid_indices(cs)[j]]),
    decreases cs.len(),
{
    if cs.len() > 0 {
        let d = cs.drop_last();
        lemma_kid_shapes(d);
        assert forall|j: int| 0 <= j < kid_indices(d).len() implies cs[#[trigger] kid_indices(d)[j]] == d[kid_indices(d)[j]] by {}
    }
}

/// Whether `x` occurs in `v`.
fn has_u64(v: &Vec<u64>, x: u64) -> (r: bool)
    ensures
        r == v@.contains(x),
{
    let mut i: usize = 0;
    while i < v.len()
        invariant
            i <= v@.len(),
            forall|q: int| 0 <= q < i ==> v@[q] != x,
        decreases v@.len() - i,
    {
        if v[i] == x {
            assert(v@[i as int] == x);
            return true;
        }
        i = i + 1;
    }
    false
}

/// Whether the characters `k` spell `name`.
fn kind_is(k: &[char], name: &str) -> (r: bool)
    ensures
        r == (k@ == name@),
{
    chars_eq(k, chars_of(name).as_slice())
}

/// The shapes of the meaningful children of `n`, read off its annotation `s`.
fn kid_hashes(n: &Syn, s: &Shaped) -> (r: Vec<u64>)
    requires
        shaped_ok(*s, *n),
    ensures
        r@ == kid_shapes(n.children@),
{
    let mut out: Vec<u64> = Vec::new();
    let mut i: usize = 0;
    while i < n.children.len()
        invariant
            i <= n.children@.len(),
            shaped_all(s.children@, n.children@),
            out@ == kid_shapes(n.children@.take(i as int)),
        decreases n.children@.len() - i,
    {
        proof {
            assert(n.children@.take(i + 1).drop_last() =~= n.children@.take(i as int));
            assert(n.children@.take(i + 1).last() == n.children@[i as int]);
            lemma_shaped_all(s.children@, n.children@, i as int);
        }
        if is_meaningful(&n.children[i]) {
            out.push(s.children[i].hash);
        }
        i = i + 1;
    }
    assert(n.children@.take(i as int) =~= n.children@);
    out
}

/// What a rule's fix keeps, as collected from its tree (see [`FixV`]).
pub struct Fix {
    pub shapes: Vec<u64>,
    pub kinds: Vec<Vec<char>>,
    pub child_shapes: Vec<(Vec<char>, Vec<u64>)>,
}

impl View for Fix {
    type V = FixV;

    open spec fn view(&self) -> FixV {
        FixV {
            shapes: self.shapes@,
            kinds: views(self.kinds@),
            child_shapes: self.child_shapes@.map_values(|p: (Vec<char>, Vec<u64>)| (p.0@, p.1@)),
        }
    }
}

/// Adds what the fix subtree `n` keeps to `out`, in preorder.
fn collect_fix(n: &Syn, s: &Shaped, out: &mut Fix)
    requires
        shaped_ok(*s, *n),
    ensures
        final(out)@.shapes == old(out)@.shapes + shapes_list(*n),
        final(out)@.kinds == old(out)@.kinds + kinds_list(*n),
        final(out)@.child_shapes == old(out)@.child_shapes + child_shapes_list(*n),
    decreases n,
{
    let ghost (s0, k0, c0) = (out@.shapes, out@.kinds, out@.child_shapes);
    out.shapes.push(s.hash);
    let kc = chars_of(n.kind.as_str());
    let ghost before = out.kinds@;
    out.kinds.push(kc);
    assert(views(out.kinds@) =~= views(before).push(n.kind@));
    let kc2 = chars_of(n.kind.as_str());
    let hs = kid_hashes(n, s);
    let ghost cbefore = out.child_shapes@;
    out.child_shapes.push((kc2, hs));
    assert(out@.child_shapes =~= c0.push((n.kind@, kid_shapes(n.children@))));
    let mut i: usize = 0;
    assert(n.children@.take(0) =~= Seq::<Syn>::empty());
    while i < n.children.len()
        invariant
            i <= n.children@.len(),
            shaped_all(s.children@, n.children@),
            out@.shapes == s0 + seq![shape(*n)] + shapes_list_all(n.children@.take(i as int)),
            out@.kinds == k0 + seq![n.kind@] + kinds_list_all(n.children@.take(i as int)),
            out@.child_shapes == c0 + seq![(n.kind@, kid_shapes(n.children@))] + child_shapes_all(
                n.children@.take(i as int),
            ),
        decreases n.children@.len() - i,
    {
        proof {
            assert(n.children@.take(i + 1).drop_last() =~= n.children@.take(i as int));
            assert(n.children@.take(i + 1).last() == n.children@[i as int]);
            lemma_shaped_all(s.children@, n.children@, i as int);
        }
        if is_meaningful(&n.children[i]) {
            let ghost (a, b, c) = (out@.shapes, out@.kinds, out@.child_shapes);
            collect_fix(&n.children[i], &s.children[i], out);
            proof {
                let t = n.children@.take(i as int);
                assert(s0 + seq![shape(*n)] + shapes_list_all(n.children@.take(i + 1)) =~= a + shapes_list(
                    n.children@[i as int],
                ));
                assert(k0 + seq![n.kind@] + kinds_list_all(n.children@.take(i + 1)) =~= b + kinds_list(
                    n.children@[i as int],
                ));
                assert(c0 + seq![(n.kind@, kid_shapes(n.children@))] + child_shapes_all(n.children@.take(i + 1))
                    =~= c + child_shapes_list(n.children@[i as int]));
            }
        }
        i = i + 1;
    }
    assert(n.children@.take(i as int) =~= n.children@);
    assert(s0 + seq![shape(*n)] + shapes_list_all(n.children@) =~= s0 + shapes_list(*n));
    assert(k0 + seq![n.kind@] + kinds_list_all(n.children@) =~= k0 + kinds_list(*n));
    assert(c0 + seq![(n.kind@, kid_shapes(n.children@))] + child_shapes_all(n.children@) =~= c0
        + child_shapes_list(*n));
}

/// What the fix tree `g` keeps (see [`fix_of`]).
pub fn fix_tree(g: &Syn) -> (r: Fix)
    ensures
        r@ == fix_of(*g),
{
    let s = shaped(g);
    let mut out = Fix { shapes: Vec::new(), kinds: Vec::new(), child_shapes: Vec::new() };
    assert(views(out.kinds@) =~= Seq::<Seq<char>>::empty());
    assert(out@.child_shapes =~= Seq::<(Seq<char>, Seq<u64>)>::empty());
    collect_fix(g, &s, &mut out);
    assert(out@.shapes =~= shapes_list(*g));
    assert(out@.kinds =~= kinds_list(*g));
    assert(out@.child_shapes =~= child_shapes_list(*g));
    out
}

/// Whether the fix kept the construct `n` and only inserted siblings inside it (see
/// [`fix_only_inserted`]).
fn only_inserted(n: &Syn, s: &Shaped, fix: &Fix) -> (r: bool)
    requires
        shaped_ok(*s, *n),
    ensures
        r == fix_only_inserted(*n, fix@),
{
    let want = kid_hashes(n, s);
    if want.len() == 0 {
        return false;
    }
    let k = chars_of(n.kind.as_str());
    let mut j: usize = 0;
    while j < fix.child_shapes.len()
        invariant
            j <= fix.child_shapes@.len(),
            want@ == kid_shapes(n.children@),
            want@.len() > 0,
            k@ == n.kind@,
            forall|q: int|
                0 <= q < j ==> !((#[trigger] fix@.child_shapes[q]).0 == n.kind@ && fix@.child_shapes[q].1.len()
                    > want@.len() && submultiset(want@, fix@.child_shapes[q].1)),
        decreases fix.child_shapes@.len() - j,
    {
        let have = &fix.child_shapes[j].1;
        assert(fix@.child_shapes[j as int] == (fix.child_shapes@[j as int].0@, fix.child_shapes@[j as int].1@));
        if chars_eq(fix.child_shapes[j].0.as_slice(), k.as_slice()) && have.len() > want.len() && is_submultiset(
            &want,
            have,
        ) {
            assert(fix@.child_shapes[j as int].0 == n.kind@ && fix@.child_shapes[j as int].1.len() > kid_shapes(
                n.children@,
            ).len() && submultiset(kid_shapes(n.children@), fix@.child_shapes[j as int].1));
            return true;
        }
        j = j + 1;
    }
    false
}

// ── Localizing the violation ─────────────────────────────────────────────────

/// A place in a tree: a node, and its parent with the node's index among the parent's
/// children (`None` at the root).
pub type SiteV = (Syn, Option<(Syn, int)>);

/// The place reached from `n` (whose parent is `ctx`) by following the child indices `p`,
/// stopping where an index is out of range.
pub open spec fn site(n: Syn, ctx: Option<(Syn, int)>, p: Seq<int>) -> SiteV
    decreases p.len(),
{
    if p.len() == 0 {
        (n, ctx)
    } else if 0 <= p[0] < n.children@.len() {
        site(n.children@[p[0]], Some((n, p[0])), p.drop_first())
    } else {
        (n, ctx)
    }
}

/// A path of child indices as integers.
pub open spec fn ints(v: Seq<usize>) -> Seq<int> {
    v.map_values(|i: usize| i as int)
}

/// An optional path of child indices as integers.
pub open spec fn opt_path(r: Option<Vec<usize>>) -> Option<Seq<int>> {
    match r {
        Some(v) => Some(ints(v@)),
        None => None,
    }
}

/// A parent reference with an index, as a value.
pub open spec fn ctx_view(c: Option<(&Syn, usize)>) -> Option<(Syn, int)> {
    match c {
        Some((p, i)) => Some((*p, i as int)),
        None => None,
    }
}

/// The place at path `p` under the root `n` (see [`site`]).
fn site_at<'a>(n: &'a Syn, p: &Vec<usize>) -> (r: (&'a Syn, Option<(&'a Syn, usize)>))
    ensures
        (*r.0, ctx_view(r.1)) == site(*n, None, ints(p@)),
{
    let mut cur: &Syn = n;
    let mut ctx: Option<(&Syn, usize)> = None;
    let mut k: usize = 0;
    assert(ints(p@).skip(0) =~= ints(p@));
    while k < p.len()
        invariant
            k <= p@.len(),
            site(*n, None, ints(p@)) == site(*cur, ctx_view(ctx), ints(p@).skip(k as int)),
        decreases p@.len() - k,
    {
        let ghost rest = ints(p@).skip(k as int);
        assert(rest[0] == p@[k as int] as int);
        assert(rest.drop_first() =~= ints(p@).skip(k + 1));
        if p[k] < cur.children.len() {
            ctx = Some((cur, p[k]));
            cur = &cur.children[p[k]];
        } else {
            return (cur, ctx);
        }
        k = k + 1;
    }
    assert(ints(p@).skip(k as int) =~= Seq::<int>::empty());
    (cur, ctx)
}

/// Whether a node of kind `k` is a call, whose callee is the rule's identity.
pub open spec fn atomic_kind(k: Seq<char>) -> bool {
    k == "call"@ || k == "call_expression"@ || k == "macro_invocation"@
}

/// Whether a node kind is a call (see [`atomic_kind`]).
fn is_atomic(k: &[char]) -> (r: bool)
    ensures
        r == atomic_kind(k@),
{
    kind_is(k, "call") || kind_is(k, "call_expression") || kind_is(k, "macro_invocation")
}

/// The path, under `n`, to the smallest construct of `n` that carries the distinction from
/// the fix: `None` when `n`'s shape is one the fix keeps or the fix only inserted siblings
/// into `n`. Otherwise, when exactly one named child of `n` is itself novel, `n`'s kind
/// survives in the fix, `n` is not a call, and that child has meaningful children, the path
/// descends into that child; else it stops at `n`.
pub open spec fn novel_root(n: Syn, fix: FixV) -> Option<Seq<int>>
    decreases n,
{
    if fix.shapes.contains(shape(n)) || fix_only_inserted(n, fix) {
        None
    } else {
        let nv = novel_kids(n.children@, fix);
        if nv.len() == 1 && 0 <= nv[0] < n.children@.len() && fix.kinds.contains(n.kind@) && !atomic_kind(n.kind@)
            && kid_indices(n.children@[nv[0]].children@).len() > 0 {
            match novel_root(n.children@[nv[0]], fix) {
                Some(p) => Some(seq![nv[0]] + p),
                None => Some(Seq::empty()),
            }
        } else {
            Some(Seq::empty())
        }
    }
}

/// The indices of the named nodes among `cs` that are novel (see [`novel_root`]).
pub open spec fn novel_kids(cs: Seq<Syn>, fix: FixV) -> Seq<int>
    decreases cs,
{
    if cs.len() == 0 {
        Seq::empty()
    } else if cs.last().named && novel_root(cs.last(), fix) is Some {
        novel_kids(cs.drop_last(), fix).push(cs.len() - 1)
    } else {
        novel_kids(cs.drop_last(), fix)
    }
}

/// The path to the smallest novel construct of `n` (see [`novel_root`]).
fn novel_root_of(n: &Syn, s: &Shaped, fix: &Fix) -> (r: Option<Vec<usize>>)
    requires
        shaped_ok(*s, *n),
    ensures
        opt_path(r) == novel_root(*n, fix@),
    decreases n,
{
    if has_u64(&fix.shapes, s.hash) || only_inserted(n, s, fix) {
        return None;
    }
    let len = n.children.len();
    let mut count: usize = 0;
    let mut first: usize = 0;
    let mut first_path: Option<Vec<usize>> = None;
    let mut i: usize = 0;
    assert(n.children@.take(0) =~= Seq::<Syn>::empty());
    while i < len
        invariant
            len == n.children@.len(),
            i <= len,
            shaped_all(s.children@, n.children@),
            count == novel_kids(n.children@.take(i as int), fix@).len(),
            count <= i,
            count > 0 ==> first == novel_kids(n.children@.take(i as int), fix@)[0] && first < i && opt_path(
                first_path,
            ) == novel_root(n.children@[first as int], fix@),
        decreases len - i,
    {
        proof {
            assert(n.children@.take(i + 1).drop_last() =~= n.children@.take(i as int));
            assert(n.children@.take(i + 1).last() == n.children@[i as int]);
            lemma_shaped_all(s.children@, n.children@, i as int);
        }
        if n.children[i].named {
            let sub = novel_root_of(&n.children[i], &s.children[i], fix);
            if sub.is_some() {
                if count == 0 {
                    first = i;
                    first_path = sub;
                }
                count = count + 1;
            }
        }
        i = i + 1;
    }
    assert(n.children@.take(i as int) =~= n.children@);
    let k = chars_of(n.kind.as_str());
    if count == 1 && holds(&fix.kinds, k.as_slice()) && !is_atomic(k.as_slice()) && kids_of(&n.children[first]).len()
        > 0 {
        match first_path {
            Some(mut p) => {
                let mut out: Vec<usize> = Vec::new();
                out.push(first);
                let ghost pv = p@;
                out.append(&mut p);
                assert(ints(out@) =~= seq![first as int] + ints(pv));
                return Some(out);
            },
            None => {
                return Some(Vec::new());
            },
        }
    }
    let out: Vec<usize> = Vec::new();
    assert(ints(out@) =~= Seq::<int>::empty());
    Some(out)
}

/// Whether all of `s` equal its first element.
pub open spec fn all_same(s: Seq<u64>) -> bool {
    forall|q: int| 0 <= q < s.len() ==> #[trigger] s[q] == s[0]
}

/// With no fix to diff against: the path that descends from `n`, while `n` has two or more
/// meaningful children all of one shape, into the first of them (one instance of a
/// repeated violation).
pub open spec fn collapse_path(n: Syn) -> Seq<int>
    decreases n,
{
    let ks = kid_shapes(n.children@);
    let ki = kid_indices(n.children@);
    if ks.len() >= 2 && all_same(ks) && ki.len() > 0 && 0 <= ki[0] < n.children@.len() {
        seq![ki[0]] + collapse_path(n.children@[ki[0]])
    } else {
        Seq::empty()
    }
}

/// The path to one instance of a repeated violation (see [`collapse_path`]).
fn collapse_of(n: &Syn, s: &Shaped) -> (r: Vec<usize>)
    requires
        shaped_ok(*s, *n),
    ensures
        ints(r@) == collapse_path(*n),
    decreases n,
{
    let ks = kid_hashes(n, s);
    let ki = kids_of(n);
    proof {
        lemma_kid_shapes(n.children@);
    }
    if ks.len() < 2 {
        let out: Vec<usize> = Vec::new();
        assert(ints(out@) =~= Seq::<int>::empty());
        return out;
    }
    let first = ks[0];
    let mut j: usize = 1;
    while j < ks.len()
        invariant
            1 <= j <= ks@.len(),
            first == ks@[0],
            forall|q: int| 0 <= q < j ==> ks@[q] == first,
            ks@ == kid_shapes(n.children@),
            ki@.map_values(|i: usize| i as int) == kid_indices(n.children@),
            forall|q: int| 0 <= q < ki@.len() ==> ki@[q] < n.children@.len(),
            shaped_ok(*s, *n),
        decreases ks@.len() - j,
    {
        if ks[j] != first {
            assert(ks@[j as int] != ks@[0]);
            assert(!all_same(ks@));
            let out: Vec<usize> = Vec::new();
            assert(ints(out@) =~= Seq::<int>::empty());
            return out;
        }
        j = j + 1;
    }
    proof {
        lemma_kid_shapes(n.children@);
    }
    let c = ki[0];
    assert(ints(ki@)[0] == c as int);
    proof {
        lemma_shaped_all(s.children@, n.children@, c as int);
    }
    let mut out: Vec<usize> = Vec::new();
    out.push(c);
    let mut rest = collapse_of(&n.children[c], &s.children[c]);
    let ghost rv = rest@;
    out.append(&mut rest);
    assert(ints(out@) =~= seq![c as int] + ints(rv));
    out
}


/// Whether a node kind is a literal whose value is incidental.
pub open spec fn literal_kind(k: Seq<char>) -> bool {
    contains_seq(k, "string"@) || contains_seq(k, "integer"@) || contains_seq(k, "float"@) || contains_seq(
        k,
        "number"@,
    )
}

/// Whether a node kind is a literal (see [`literal_kind`]).
fn is_literal(k: &[char]) -> (r: bool)
    ensures
        r == literal_kind(k@),
{
    contains(k, chars_of("string").as_slice()) || contains(k, chars_of("integer").as_slice()) || contains(
        k,
        chars_of("float").as_slice(),
    ) || contains(k, chars_of("number").as_slice())
}

/// The source of `n` with every literal leaf masked by its kind: a literal gives its kind,
/// a node without meaningful children its trimmed text, any other node its meaningful
/// children's masked texts joined by single spaces.
pub open spec fn masked(n: Syn) -> Seq<char>
    decreases n,
{
    if literal_kind(n.kind@) {
        n.kind@
    } else if kid_indices(n.children@).len() == 0 {
        trim(n.text@)
    } else {
        masked_join(n.children@)
    }
}

/// The masked texts of the meaningful nodes among `cs`, joined by single spaces.
pub open spec fn masked_join(cs: Seq<Syn>) -> Seq<char>
    decreases cs,
{
    if cs.len() == 0 {
        Seq::empty()
    } else if meaningful(cs.last()) {
        if kid_indices(cs.drop_last()).len() == 0 {
            masked(cs.last())
        } else {
            masked_join(cs.drop_last()) + seq![' '] + masked(cs.last())
        }
    } else {
        masked_join(cs.drop_last())
    }
}

proof fn lemma_masked_join_empty(cs: Seq<Syn>)
    requires
        kid_indices(cs).len() == 0,
    ensures
        masked_join(cs) == Seq::<char>::empty(),
    decreases cs.len(),
{
    if cs.len() > 0 {
        lemma_masked_join_empty(cs.drop_last());
    }
}

/// The masked source of `n` (see [`masked`]).
fn masked_text(n: &Syn) -> (r: Vec<char>)
    ensures
        r@ == masked(*n),
    decreases n,
{
    let k = chars_of(n.kind.as_str());
    if is_literal(k.as_slice()) {
        return k;
    }
    let ki = kids_of(n);
    if ki.len() == 0 {
        return trimmed(chars_of(n.text.as_str()).as_slice());
    }
    let mut out: Vec<char> = Vec::new();
    let mut any = false;
    let mut i: usize = 0;
    assert(n.children@.take(0) =~= Seq::<Syn>::empty());
    while i < n.children.len()
        invariant
            i <= n.children@.len(),
            out@ == masked_join(n.children@.take(i as int)),
            any == (kid_indices(n.children@.take(i as int)).len() > 0),
        decreases n.children@.len() - i,
    {
        proof {
            assert(n.children@.take(i + 1).drop_last() =~= n.children@.take(i as int));
            assert(n.children@.take(i + 1).last() == n.children@[i as int]);
        }
        if is_meaningful(&n.children[i]) {
            let m = masked_text(&n.children[i]);
            if any {
                out.push(' ');
            } else {
                proof {
                    lemma_masked_join_empty(n.children@.take(i as int));
                }
            }
            let ghost o = out@;
            let mut m2 = m;
            out.append(&mut m2);
            any = true;
        }
        i = i + 1;
    }
    assert(n.children@.take(i as int) =~= n.children@);
    out
}

/// The `j`-th meaningful child of `n`.
pub open spec fn kid(n: Syn, j: int) -> Syn {
    n.children@[kid_indices(n.children@)[j]]
}

/// With no fix to diff against: whether `n` shows several instances of one shape that
/// differ only in their literal values. A node with one meaningful child defers to it; a
/// node with several, all of one shape, answers yes when their masked texts agree and their
/// texts do not, and otherwise defers to its first meaningful child.
pub open spec fn value_dependent(n: Syn) -> bool
    decreases n,
{
    let ki = kid_indices(n.children@);
    if ki.len() == 0 || !(0 <= ki[0] < n.children@.len()) {
        false
    } else if ki.len() == 1 {
        value_dependent(n.children@[ki[0]])
    } else if !all_same(kid_shapes(n.children@)) {
        false
    } else if (forall|j: int| 0 <= j < ki.len() ==> masked(#[trigger] kid(n, j)) == masked(kid(n, 0))) && (exists|
        j: int,
    | 0 <= j < ki.len() && (#[trigger] kid(n, j)).text@ != kid(n, 0).text@) {
        true
    } else {
        value_dependent(n.children@[ki[0]])
    }
}

/// Whether `n` shows instances differing only in literal values (see [`value_dependent`]).
fn value_dependent_of(n: &Syn, s: &Shaped) -> (r: bool)
    requires
        shaped_ok(*s, *n),
    ensures
        r == value_dependent(*n),
    decreases n,
{
    let ki = kids_of(n);
    let ks = kid_hashes(n, s);
    proof {
        lemma_kid_shapes(n.children@);
    }
    if ki.len() == 0 {
        return false;
    }
    let c0 = ki[0];
    assert(ints(ki@)[0] == c0 as int);
    proof {
        lemma_shaped_all(s.children@, n.children@, c0 as int);
    }
    if ki.len() == 1 {
        return value_dependent_of(&n.children[c0], &s.children[c0]);
    }
    let mut j: usize = 1;
    while j < ks.len()
        invariant
            1 <= j <= ks@.len(),
            forall|q: int| 0 <= q < j ==> #[trigger] ks@[q] == ks@[0],
            ks@ == kid_shapes(n.children@),
            ints(ki@) == kid_indices(n.children@),
            ks@.len() == ki@.len(),
            ki@.len() >= 2,
            c0 == ki@[0],
            c0 < n.children@.len(),
        decreases ks@.len() - j,
    {
        if ks[j] != ks[0] {
            assert(ks@[j as int] != ks@[0]);
            return false;
        }
        j = j + 1;
    }
    let m0 = masked_text(&n.children[c0]);
    let t0 = chars_of(n.children[c0].text.as_str());
    let mut same = true;
    let mut differs = false;
    let mut q: usize = 0;
    while q < ki.len()
        invariant
            q <= ki@.len(),
            ints(ki@) == kid_indices(n.children@),
            forall|x: int| 0 <= x < ki@.len() ==> ki@[x] < n.children@.len(),
            ki@.len() >= 2,
            c0 == ki@[0],
            m0@ == masked(kid(*n, 0)),
            t0@ == kid(*n, 0).text@,
            same == (forall|x: int| 0 <= x < q ==> masked(#[trigger] kid(*n, x)) == masked(kid(*n, 0))),
            differs == (exists|x: int| 0 <= x < q && (#[trigger] kid(*n, x)).text@ != kid(*n, 0).text@),
        decreases ki@.len() - q,
    {
        let c = ki[q];
        assert(ints(ki@)[q as int] == c as int);
        assert(kid(*n, q as int) == n.children@[c as int]);
        let m = masked_text(&n.children[c]);
        if !chars_eq(m.as_slice(), m0.as_slice()) {
            same = false;
        }
        let t = chars_of(n.children[c].text.as_str());
        if !chars_eq(t.as_slice(), t0.as_slice()) {
            differs = true;
        }
        q = q + 1;
    }
    if same && differs {
        return true;
    }
    value_dependent_of(&n.children[c0], &s.children[c0])
}

/// The indices of the named nodes among `cs`, in order.
pub open spec fn named_indices(cs: Seq<Syn>) -> Seq<int>
    decreases cs.len(),
{
    if cs.len() == 0 {
        Seq::empty()
    } else if cs.last().named {
        named_indices(cs.drop_last()).push(cs.len() - 1)
    } else {
        named_indices(cs.drop_last())
    }
}

/// Whether a node kind is a trivial wrapper (a whole module, a statement or a block).
pub open spec fn wrapper_kind(k: Seq<char>) -> bool {
    k == "module"@ || k == "program"@ || k == "source_file"@ || k == "expression_statement"@ || k == "block"@
}

/// Whether a node kind is a whole-file root.
pub open spec fn unit_kind(k: Seq<char>) -> bool {
    k == "module"@ || k == "program"@ || k == "source_file"@ || k == "translation_unit"@
}

/// The path from `n` past trivial wrappers with a single named child, to the construct.
pub open spec fn skip_path(n: Syn) -> Seq<int>
    decreases n,
{
    let ni = named_indices(n.children@);
    if ni.len() == 1 && wrapper_kind(n.kind@) && 0 <= ni[0] < n.children@.len() {
        seq![ni[0]] + skip_path(n.children@[ni[0]])
    } else {
        Seq::empty()
    }
}

/// The indices of the named children of `n` (see [`named_indices`]).
fn named_of(n: &Syn) -> (r: Vec<usize>)
    ensures
        ints(r@) == named_indices(n.children@),
        forall|q: int| 0 <= q < r@.len() ==> r@[q] < n.children@.len(),
{
    let mut out: Vec<usize> = Vec::new();
    let mut i: usize = 0;
    while i < n.children.len()
        invariant
            i <= n.children@.len(),
            ints(out@) == named_indices(n.children@.take(i as int)),
            forall|q: int| 0 <= q < out@.len() ==> out@[q] < i,
        decreases n.children@.len() - i,
    {
        proof {
            assert(n.children@.take(i + 1).drop_last() =~= n.children@.take(i as int));
            assert(n.children@.take(i + 1).last() == n.children@[i as int]);
        }
        if n.children[i].named {
            let ghost before = out@;
            out.push(i);
            proof {
                assert(ints(out@) =~= ints(before).push(i as int));
            }
        }
        i = i + 1;
    }
    assert(n.children@.take(i as int) =~= n.children@);
    out
}

/// Whether a node kind is a trivial wrapper (see [`wrapper_kind`]).
fn is_wrapper(k: &[char]) -> (r: bool)
    ensures
        r == wrapper_kind(k@),
{
    kind_is(k, "module") || kind_is(k, "program") || kind_is(k, "source_file") || kind_is(k, "expression_statement")
        || kind_is(k, "block")
}

/// Whether a node kind is a whole-file root (see [`unit_kind`]).
fn is_unit(k: &[char]) -> (r: bool)
    ensures
        r == unit_kind(k@),
{
    kind_is(k, "module") || kind_is(k, "program") || kind_is(k, "source_file") || kind_is(k, "translation_unit")
}

/// The path past trivial wrappers (see [`skip_path`]).
fn skip_of(n: &Syn) -> (r: Vec<usize>)
    ensures
        ints(r@) == skip_path(*n),
    decreases n,
{
    let ni = named_of(n);
    let k = chars_of(n.kind.as_str());
    if ni.len() == 1 && is_wrapper(k.as_slice()) {
        let c = ni[0];
        assert(ints(ni@)[0] == c as int);
        let mut out: Vec<usize> = Vec::new();
        out.push(c);
        let mut rest = skip_of(&n.children[c]);
        let ghost rv = rest@;
        out.append(&mut rest);
        assert(ints(out@) =~= seq![c as int] + ints(rv));
        return out;
    }
    let out: Vec<usize> = Vec::new();
    assert(ints(out@) =~= Seq::<int>::empty());
    out
}


// ── Compiling a construct into a pattern ─────────────────────────────────────

/// Whether a node kind names a variable or operand.
pub open spec fn identifier_kind(k: Seq<char>) -> bool {
    k == "identifier"@ || k == "type_identifier"@ || k == "field_identifier"@ || k
        == "shorthand_property_identifier"@
}

/// The index of the first of `cs`, from `i` on, whose field name is `f`.
pub open spec fn field_from(cs: Seq<Syn>, f: Seq<char>, i: int) -> Option<int>
    decreases cs.len() - i,
{
    if i < 0 || i >= cs.len() {
        None
    } else if cs[i].field@ == f {
        Some(i)
    } else {
        field_from(cs, f, i + 1)
    }
}

/// Whether the child at `idx` of `parent` names an operation rather than an operand: the
/// member of an attribute, field or member access, the callee of a call, the name of a
/// scoped identifier, or anything under a macro invocation. A node without a parent names
/// none.
pub open spec fn operation_name(ctx: Option<(Syn, int)>) -> bool {
    match ctx {
        None => false,
        Some((parent, idx)) => {
            let k = parent.kind@;
            let cs = parent.children@;
            if k == "attribute"@ || k == "field_expression"@ || k == "member_expression"@ {
                match field_from(cs, "attribute"@, 0) {
                    Some(i) => i == idx,
                    None => match field_from(cs, "field"@, 0) {
                        Some(i) => i == idx,
                        None => field_from(cs, "property"@, 0) == Some(idx),
                    },
                }
            } else if k == "call"@ || k == "call_expression"@ {
                field_from(cs, "function"@, 0) == Some(idx)
            } else if k == "scoped_identifier"@ {
                field_from(cs, "name"@, 0) == Some(idx)
            } else {
                k == "macro_invocation"@
            }
        },
    }
}

proof fn lemma_field_from(cs: Seq<Syn>, f: Seq<char>, i: int)
    requires
        0 <= i,
    ensures
        match field_from(cs, f, i) {
            Some(j) => i <= j < cs.len() && cs[j].field@ == f && forall|k: int| i <= k < j ==> cs[k].field@ != f,
            None => forall|k: int| i <= k < cs.len() ==> cs[k].field@ != f,
        },
    decreases cs.len() - i,
{
    if i < cs.len() && cs[i].field@ != f {
        lemma_field_from(cs, f, i + 1);
    }
}

/// In a member access (`attribute`, `field_expression`, `member_expression`) that has an
/// `attribute` child, the accessed member is the operation and every other child (the
/// receiver among them) an operand: a child names an operation exactly when it is the
/// first child whose field is `attribute`.
pub proof fn law_member_access_names_its_member(p: Syn, j: int)
    requires
        p.kind@ == "attribute"@ || p.kind@ == "field_expression"@ || p.kind@ == "member_expression"@,
        exists|a: int| 0 <= a < p.children@.len() && (#[trigger] p.children@[a]).field@ == "attribute"@,
        0 <= j < p.children@.len(),
    ensures
        operation_name(Some((p, j))) <==> (p.children@[j].field@ == "attribute"@ && forall|k: int|
            0 <= k < j ==> (#[trigger] p.children@[k]).field@ != "attribute"@),
{
    let cs = p.children@;
    lemma_field_from(cs, "attribute"@, 0);
    let a = choose|a: int| 0 <= a < cs.len() && (#[trigger] cs[a]).field@ == "attribute"@;
    assert(field_from(cs, "attribute"@, 0) is Some);
    let i = field_from(cs, "attribute"@, 0)->0;
    if p.children@[j].field@ == "attribute"@ && forall|k: int| 0 <= k < j ==> (#[trigger] p.children@[k]).field@ != "attribute"@ {
        if i < j {
            assert(cs[i].field@ != "attribute"@);
        }
    }
}

/// Whether child `j` of `cs` is the first whose field is `f`.
pub open spec fn first_with_field(cs: Seq<Syn>, f: Seq<char>, j: int) -> bool {
    0 <= j < cs.len() && cs[j].field@ == f && forall|k: int| 0 <= k < j ==> (#[trigger] cs[k]).field@ != f
}

/// Which child names the operation, by the kind of its parent: in a member access without
/// an `attribute` child, the first `field` child, else the first `property` child; in a
/// call, the first `function` child; in a scoped identifier, the first `name` child; under
/// a macro invocation, every child; under any other kind, none. A node without a parent
/// names none.
pub proof fn law_operation_child_by_parent_kind(p: Syn, j: int)
    requires
        0 <= j < p.children@.len(),
    ensures
        !operation_name(None),
        (p.kind@ == "attribute"@ || p.kind@ == "field_expression"@ || p.kind@ == "member_expression"@) && (forall|a: int|
            0 <= a < p.children@.len() ==> (#[trigger] p.children@[a]).field@ != "attribute"@) ==> (operation_name(Some((p, j)))
            <==> (first_with_field(p.children@, "field"@, j) || ((forall|a: int|
            0 <= a < p.children@.len() ==> (#[trigger] p.children@[a]).field@ != "field"@) && first_with_field(p.children@, "property"@, j)))),
        (p.kind@ == "call"@ || p.kind@ == "call_expression"@) ==> (operation_name(Some((p, j))) <==> first_with_field(
            p.children@,
            "function"@,
            j,
        )),
        p.kind@ == "scoped_identifier"@ ==> (operation_name(Some((p, j))) <==> first_with_field(p.children@, "name"@, j)),
        p.kind@ == "macro_invocation"@ ==> operation_name(Some((p, j))),
        !(p.kind@ == "attribute"@ || p.kind@ == "field_expression"@ || p.kind@ == "member_expression"@ || p.kind@ == "call"@
            || p.kind@ == "call_expression"@ || p.kind@ == "scoped_identifier"@ || p.kind@ == "macro_invocation"@)
            ==> !operation_name(Some((p, j))),
{
    reveal_strlit("attribute");
    reveal_strlit("field_expression");
    reveal_strlit("member_expression");
    reveal_strlit("call");
    reveal_strlit("call_expression");
    reveal_strlit("scoped_identifier");
    reveal_strlit("macro_invocation");
    let cs = p.children@;
    lemma_field_from(cs, "attribute"@, 0);
    lemma_field_from(cs, "field"@, 0);
    lemma_field_from(cs, "property"@, 0);
    lemma_field_from(cs, "function"@, 0);
    lemma_field_from(cs, "name"@, 0);
    assert(first_with_field(cs, "field"@, j) ==> field_from(cs, "field"@, 0) == Some(j)) by {
        if first_with_field(cs, "field"@, j) {
            let i = field_from(cs, "field"@, 0)->0;
            if i < j {
                assert(cs[i].field@ != "field"@);
            }
            if i > j {
                assert(cs[j].field@ != "field"@);
            }
        }
    }
    assert(first_with_field(cs, "property"@, j) ==> field_from(cs, "property"@, 0) == Some(j)) by {
        if first_with_field(cs, "property"@, j) {
            let i = field_from(cs, "property"@, 0)->0;
            if i < j {
                assert(cs[i].field@ != "property"@);
            }
            if i > j {
                assert(cs[j].field@ != "property"@);
            }
        }
    }
    assert(first_with_field(cs, "function"@, j) ==> field_from(cs, "function"@, 0) == Some(j)) by {
        if first_with_field(cs, "function"@, j) {
            let i = field_from(cs, "function"@, 0)->0;
            if i < j {
                assert(cs[i].field@ != "function"@);
            }
            if i > j {
                assert(cs[j].field@ != "function"@);
            }
        }
    }
    assert("call"@.len() == 4 && "call_expression"@.len() == 15 && "scoped_identifier"@.len() == 17);
    assert("attribute"@.len() == 9 && "field_expression"@.len() == 16 && "member_expression"@.len() == 17);
    assert("scoped_identifier"@[0] == 's' && "member_expression"@[0] == 'm');
    assert("macro_invocation"@.len() == 16 && "macro_invocation"@[0] == 'm' && "field_expression"@[0] == 'f');
    if p.kind@ == "call"@ || p.kind@ == "call_expression"@ {
        assert(p.kind@ != "attribute"@ && p.kind@ != "field_expression"@ && p.kind@ != "member_expression"@);
        assert(operation_name(Some((p, j))) == (field_from(cs, "function"@, 0) == Some(j)));
    }
    if p.kind@ == "scoped_identifier"@ {
        assert(p.kind@ != "attribute"@ && p.kind@ != "field_expression"@ && p.kind@ != "member_expression"@);
        assert(p.kind@ != "call"@ && p.kind@ != "call_expression"@);
        assert(operation_name(Some((p, j))) == (field_from(cs, "name"@, 0) == Some(j)));
    }
    assert(first_with_field(cs, "name"@, j) ==> field_from(cs, "name"@, 0) == Some(j)) by {
        if first_with_field(cs, "name"@, j) {
            let i = field_from(cs, "name"@, 0)->0;
            if i < j {
                assert(cs[i].field@ != "name"@);
            }
            if i > j {
                assert(cs[j].field@ != "name"@);
            }
        }
    }
}

/// Whether the rule's lowercased description names `t`: `t` without surrounding quotes and
/// backticks, lowercased, is at least two bytes long and occurs in `desc`.
pub open spec fn named_in_desc(t: Seq<char>, desc: Seq<char>) -> bool {
    let u = lowercase(trim_class(t, 2));
    byte_len(u) >= 2 && contains_seq(desc, u)
}

/// The position of `x` in `s` from `i` on, or `s.len()` when it does not occur.
pub open spec fn pos_from(s: Seq<Seq<char>>, x: Seq<char>, i: int) -> int
    decreases s.len() - i,
{
    if i < 0 || i >= s.len() {
        s.len() as int
    } else if s[i] == x {
        i
    } else {
        pos_from(s, x, i + 1)
    }
}

/// A pattern node: a required shape. `text` is the exact (trimmed) source text it must
/// have; otherwise `bind` is a wildcard id whose every use must bind the same text; with
/// neither it is a typed wildcard. A node with children requires its meaningful children
/// to match them in order.
pub struct PatV {
    pub kind: Seq<char>,
    pub text: Option<Seq<char>>,
    pub bind: Option<u32>,
    pub children: Seq<PatV>,
}

/// A pattern node (see [`PatV`]).
pub struct Pat {
    pub kind: String,
    pub text: Option<String>,
    pub bind: Option<u32>,
    pub children: Vec<Pat>,
}

/// An optional string as characters.
pub open spec fn opt_chars(t: Option<String>) -> Option<Seq<char>> {
    match t {
        Some(s) => Some(s@),
        None => None,
    }
}

/// The pattern `p` as a value.
pub open spec fn pat_view(p: Pat) -> PatV
    decreases p,
{
    PatV { kind: p.kind@, text: opt_chars(p.text), bind: p.bind, children: pats_view(p.children@) }
}

/// The patterns `ps` as values.
pub open spec fn pats_view(ps: Seq<Pat>) -> Seq<PatV>
    decreases ps,
{
    if ps.len() == 0 {
        Seq::empty()
    } else {
        pats_view(ps.drop_last()).push(pat_view(ps.last()))
    }
}

proof fn lemma_pats_view(ps: Seq<Pat>)
    ensures
        pats_view(ps).len() == ps.len(),
        forall|j: int| 0 <= j < ps.len() ==> #[trigger] pats_view(ps)[j] == pat_view(ps[j]),
    decreases ps.len(),
{
    if ps.len() > 0 {
        lemma_pats_view(ps.drop_last());
        assert forall|j: int| 0 <= j < ps.len() implies #[trigger] pats_view(ps)[j] == pat_view(ps[j]) by {
            if j < ps.len() - 1 {
                assert(pats_view(ps.drop_last())[j] == pat_view(ps.drop_last()[j]));
            }
        }
    }
}

/// The pattern compiled from the node `n` (whose parent is `ctx`) with the rule's
/// lowercased description `desc`, and the wildcard texts bound so far `b` (a wildcard's id
/// is its text's position there) as they stand afterwards. An operator token is a typed
/// wildcard of its kind (its kind is its text); a literal is a typed wildcard unless the
/// description names it, then exact; an operand identifier is exact when the description
/// names it and otherwise a bound wildcard; any other node keeps its trimmed text when it
/// has no meaningful children and compiles its meaningful children in order.
pub open spec fn compile_node(n: Syn, ctx: Option<(Syn, int)>, desc: Seq<char>, b: Seq<Seq<char>>) -> (
    PatV,
    Seq<Seq<char>>,
)
    decreases n,
{
    let k = n.kind@;
    if op_token(n) {
        (PatV { kind: k, text: None, bind: None, children: Seq::empty() }, b)
    } else if literal_kind(k) {
        (
            PatV {
                kind: k,
                text: if named_in_desc(n.text@, desc) {
                    Some(n.text@)
                } else {
                    None
                },
                bind: None,
                children: Seq::empty(),
            },
            b,
        )
    } else if identifier_kind(k) && !operation_name(ctx) {
        if named_in_desc(n.text@, desc) {
            (PatV { kind: k, text: Some(n.text@), bind: None, children: Seq::empty() }, b)
        } else {
            (
                PatV { kind: k, text: None, bind: Some(pos_from(b, n.text@, 0) as u32), children: Seq::empty() },
                push_unique(b, n.text@),
            )
        }
    } else {
        let t = trim(n.text@);
        let r = compile_kids(n, n.children@, desc, b);
        (
            PatV {
                kind: k,
                text: if kid_indices(n.children@).len() == 0 && t.len() > 0 {
                    Some(t)
                } else {
                    None
                },
                bind: None,
                children: r.0,
            },
            r.1,
        )
    }
}

/// The patterns compiled from the meaningful nodes among `cs`, children of `parent`, in
/// order, threading the bound texts.
pub open spec fn compile_kids(parent: Syn, cs: Seq<Syn>, desc: Seq<char>, b: Seq<Seq<char>>) -> (
    Seq<PatV>,
    Seq<Seq<char>>,
)
    decreases cs,
{
    if cs.len() == 0 {
        (Seq::empty(), b)
    } else {
        let r = compile_kids(parent, cs.drop_last(), desc, b);
        if meaningful(cs.last()) {
            let c = compile_node(cs.last(), Some((parent, cs.len() - 1)), desc, r.1);
            (r.0.push(c.0), c.1)
        } else {
            r
        }
    }
}

/// The index of the first child of `parent` whose field name is `f` (see [`field_from`]).
fn field_index(parent: &Syn, f: &str) -> (r: Option<usize>)
    ensures
        match r {
            Some(i) => field_from(parent.children@, f@, 0) == Some(i as int),
            None => field_from(parent.children@, f@, 0) is None,
        },
{
    let mut i: usize = 0;
    while i < parent.children.len()
        invariant
            i <= parent.children@.len(),
            field_from(parent.children@, f@, 0) == field_from(parent.children@, f@, i as int),
        decreases parent.children@.len() - i,
    {
        if kind_is(chars_of(parent.children[i].field.as_str()).as_slice(), f) {
            return Some(i);
        }
        i = i + 1;
    }
    None
}

/// Whether a field lookup found exactly `idx`.
fn found_at(r: Option<usize>, idx: usize) -> (b: bool)
    ensures
        b == (r == Some(idx)),
{
    match r {
        Some(i) => i == idx,
        None => false,
    }
}

/// Whether the node under `ctx` names an operation (see [`operation_name`]).
fn is_operation_name(ctx: Option<(&Syn, usize)>) -> (r: bool)
    ensures
        r == operation_name(ctx_view(ctx)),
{
    let (parent, idx) = match ctx {
        Some(c) => c,
        None => {
            return false;
        },
    };
    let k = chars_of(parent.kind.as_str());
    if kind_is(k.as_slice(), "attribute") || kind_is(k.as_slice(), "field_expression") || kind_is(
        k.as_slice(),
        "member_expression",
    ) {
        let a = field_index(parent, "attribute");
        if a.is_some() {
            return found_at(a, idx);
        }
        let f = field_index(parent, "field");
        if f.is_some() {
            return found_at(f, idx);
        }
        found_at(field_index(parent, "property"), idx)
    } else if kind_is(k.as_slice(), "call") || kind_is(k.as_slice(), "call_expression") {
        found_at(field_index(parent, "function"), idx)
    } else if kind_is(k.as_slice(), "scoped_identifier") {
        found_at(field_index(parent, "name"), idx)
    } else {
        kind_is(k.as_slice(), "macro_invocation")
    }
}

/// Whether the lowercased description `desc` names `t` (see [`named_in_desc`]).
fn is_named_in_desc(t: &[char], desc: &[char]) -> (r: bool)
    ensures
        r == named_in_desc(t@, desc@),
{
    let u = to_lowercase(trimmed_class(t, 2).as_slice());
    byte_len_at_least(u.as_slice(), 2) && contains(desc, u.as_slice())
}

/// The position of `x` among `b`, or `b.len()` (see [`pos_from`]).
fn position(b: &Vec<Vec<char>>, x: &[char]) -> (r: usize)
    ensures
        r == pos_from(views(b@), x@, 0),
        r <= b@.len(),
{
    let mut i: usize = 0;
    while i < b.len()
        invariant
            i <= b@.len(),
            pos_from(views(b@), x@, 0) == pos_from(views(b@), x@, i as int),
        decreases b@.len() - i,
    {
        if chars_eq(b[i].as_slice(), x) {
            return i;
        }
        i = i + 1;
    }
    i
}

/// The pattern compiled from `n` under `ctx`, binding wildcard texts in `binds` (see
/// [`compile_node`]).
fn compile_at(n: &Syn, ctx: Option<(&Syn, usize)>, desc: &[char], binds: &mut Vec<Vec<char>>) -> (r: Pat)
    ensures
        (pat_view(r), views(final(binds)@)) == compile_node(*n, ctx_view(ctx), desc@, views(old(binds)@)),
    decreases n,
{
    let k = chars_of(n.kind.as_str());
    if is_op_token(n) {
        let p = Pat { kind: string_of(k.as_slice()), text: None, bind: None, children: Vec::new() };
        assert(pats_view(p.children@) =~= Seq::<PatV>::empty());
        return p;
    }
    let own = chars_of(n.text.as_str());
    if is_literal(k.as_slice()) {
        let text = if is_named_in_desc(own.as_slice(), desc) {
            Some(string_of(own.as_slice()))
        } else {
            None
        };
        let p = Pat { kind: string_of(k.as_slice()), text, bind: None, children: Vec::new() };
        assert(pats_view(p.children@) =~= Seq::<PatV>::empty());
        return p;
    }
    if is_identifier(k.as_slice()) && !is_operation_name(ctx) {
        if is_named_in_desc(own.as_slice(), desc) {
            let p = Pat {
                kind: string_of(k.as_slice()),
                text: Some(string_of(own.as_slice())),
                bind: None,
                children: Vec::new(),
            };
            assert(pats_view(p.children@) =~= Seq::<PatV>::empty());
            return p;
        }
        let id = position(binds, own.as_slice());
        let id32 = id as u32;
        add_unique(binds, own);
        let p = Pat { kind: string_of(k.as_slice()), text: None, bind: Some(id32), children: Vec::new() };
        assert(pats_view(p.children@) =~= Seq::<PatV>::empty());
        return p;
    }
    let ghost b0 = views(binds@);
    let mut children: Vec<Pat> = Vec::new();
    let mut any = false;
    let mut i: usize = 0;
    assert(n.children@.take(0) =~= Seq::<Syn>::empty());
    assert(pats_view(children@) =~= Seq::<PatV>::empty());
    while i < n.children.len()
        invariant
            i <= n.children@.len(),
            (pats_view(children@), views(binds@)) == compile_kids(*n, n.children@.take(i as int), desc@, b0),
            any == (kid_indices(n.children@.take(i as int)).len() > 0),
        decreases n.children@.len() - i,
    {
        proof {
            assert(n.children@.take(i + 1).drop_last() =~= n.children@.take(i as int));
            assert(n.children@.take(i + 1).last() == n.children@[i as int]);
        }
        if is_meaningful(&n.children[i]) {
            let c = compile_at(&n.children[i], Some((n, i)), desc, binds);
            let ghost before = children@;
            children.push(c);
            assert(children@.drop_last() =~= before);
            any = true;
        }
        i = i + 1;
    }
    assert(n.children@.take(i as int) =~= n.children@);
    let t = trimmed(own.as_slice());
    let text = if !any && t.len() > 0 {
        Some(string_of(t.as_slice()))
    } else {
        None
    };
    Pat { kind: string_of(k.as_slice()), text, bind: None, children }
}

/// Whether a node kind names a variable or operand (see [`identifier_kind`]).
fn is_identifier(k: &[char]) -> (r: bool)
    ensures
        r == identifier_kind(k@),
{
    kind_is(k, "identifier") || kind_is(k, "type_identifier") || kind_is(k, "field_identifier") || kind_is(
        k,
        "shorthand_property_identifier",
    )
}


// ── What a pattern must keep ─────────────────────────────────────────────────

/// Whether a node kind is a collection literal (list, dictionary, set, tuple, array,
/// object), which a rule can turn on even as a typed wildcard.
pub open spec fn container_kind(k: Seq<char>) -> bool {
    k == "list"@ || k == "dictionary"@ || k == "set"@ || k == "tuple"@ || k == "array"@ || k == "object"@ || k
        == "array_expression"@
}

/// Whether a node kind is a collection literal (see [`container_kind`]).
fn is_container(k: &[char]) -> (r: bool)
    ensures
        r == container_kind(k@),
{
    kind_is(k, "list") || kind_is(k, "dictionary") || kind_is(k, "set") || kind_is(k, "tuple") || kind_is(k, "array")
        || kind_is(k, "object") || kind_is(k, "array_expression")
}

/// Whether `t` holds an ASCII letter or digit.
pub open spec fn has_word(t: Seq<char>) -> bool {
    exists|i: int| 0 <= i < t.len() && ascii_alnum(#[trigger] t[i])
}

/// Whether the pattern keeps an exact text with a word in it anywhere.
pub open spec fn has_text_anchor(p: PatV) -> bool
    decreases p,
{
    (p.text matches Some(t) && has_word(t)) || any_text_anchor(p.children)
}

/// Whether any of `ps` keeps an exact text with a word in it.
pub open spec fn any_text_anchor(ps: Seq<PatV>) -> bool
    decreases ps,
{
    ps.len() > 0 && (any_text_anchor(ps.drop_last()) || has_text_anchor(ps.last()))
}

/// Whether the pattern keeps an identity anywhere: an exact text with a word, or a
/// collection literal.
pub open spec fn has_named_anchor(p: PatV) -> bool
    decreases p,
{
    has_text_anchor(p) || container_kind(p.kind) || any_named_anchor(p.children)
}

/// Whether any of `ps` keeps an identity.
pub open spec fn any_named_anchor(ps: Seq<PatV>) -> bool
    decreases ps,
{
    ps.len() > 0 && (any_named_anchor(ps.drop_last()) || has_named_anchor(ps.last()))
}

/// Whether the pattern keeps any exact text.
pub open spec fn pat_has_anchor(p: PatV) -> bool
    decreases p,
{
    p.text is Some || any_pat_anchor(p.children)
}

/// Whether any of `ps` keeps an exact text.
pub open spec fn any_pat_anchor(ps: Seq<PatV>) -> bool
    decreases ps,
{
    ps.len() > 0 && (any_pat_anchor(ps.drop_last()) || pat_has_anchor(ps.last()))
}

/// The nesting depth of a pattern (a leaf is 1).
pub open spec fn pat_depth(p: PatV) -> nat
    decreases p,
{
    1 + max_depth(p.children)
}

/// The greatest depth among `ps`, or 0.
pub open spec fn max_depth(ps: Seq<PatV>) -> nat
    decreases ps,
{
    if ps.len() == 0 {
        0
    } else {
        let a = max_depth(ps.drop_last());
        let d = pat_depth(ps.last());
        if a >= d {
            a
        } else {
            d
        }
    }
}

/// Whether `t` holds an ASCII letter or digit (see [`has_word`]).
fn holds_word(t: &[char]) -> (r: bool)
    ensures
        r == has_word(t@),
{
    let mut i: usize = 0;
    while i < t.len()
        invariant
            i <= t@.len(),
            forall|q: int| 0 <= q < i ==> !ascii_alnum(#[trigger] t@[q]),
        decreases t@.len() - i,
    {
        if is_ascii_alnum(t[i]) {
            return true;
        }
        i = i + 1;
    }
    false
}

/// Whether the pattern keeps an exact text with a word (see [`has_text_anchor`]).
fn text_anchor(p: &Pat) -> (r: bool)
    ensures
        r == has_text_anchor(pat_view(*p)),
    decreases p,
{
    let own = match &p.text {
        Some(t) => holds_word(chars_of(t.as_str()).as_slice()),
        None => false,
    };
    if own {
        return true;
    }
    let mut i: usize = 0;
    let ghost ps = pats_view(p.children@);
    proof {
        lemma_pats_view(p.children@);
    }
    assert(ps.take(0) =~= Seq::<PatV>::empty());
    while i < p.children.len()
        invariant
            i <= p.children@.len(),
            ps == pats_view(p.children@),
            ps.len() == p.children@.len(),
            forall|j: int| 0 <= j < ps.len() ==> #[trigger] ps[j] == pat_view(p.children@[j]),
            !any_text_anchor(ps.take(i as int)),
        decreases p.children@.len() - i,
    {
        proof {
            assert(ps.take(i + 1).drop_last() =~= ps.take(i as int));
            assert(ps.take(i + 1).last() == ps[i as int]);
        }
        if text_anchor(&p.children[i]) {
            proof {
                lemma_any_text_anchor_prefix(ps, i + 1);
            }
            return true;
        }
        i = i + 1;
    }
    assert(ps.take(i as int) =~= ps);
    false
}

proof fn lemma_any_text_anchor_prefix(ps: Seq<PatV>, k: int)
    requires
        0 <= k <= ps.len(),
        any_text_anchor(ps.take(k)),
    ensures
        any_text_anchor(ps),
    decreases ps.len() - k,
{
    if k < ps.len() {
        assert(ps.take(k + 1).drop_last() =~= ps.take(k));
        lemma_any_text_anchor_prefix(ps, k + 1);
    } else {
        assert(ps.take(k) =~= ps);
    }
}

proof fn lemma_any_named_anchor_prefix(ps: Seq<PatV>, k: int)
    requires
        0 <= k <= ps.len(),
        any_named_anchor(ps.take(k)),
    ensures
        any_named_anchor(ps),
    decreases ps.len() - k,
{
    if k < ps.len() {
        assert(ps.take(k + 1).drop_last() =~= ps.take(k));
        lemma_any_named_anchor_prefix(ps, k + 1);
    } else {
        assert(ps.take(k) =~= ps);
    }
}

proof fn lemma_any_pat_anchor_prefix(ps: Seq<PatV>, k: int)
    requires
        0 <= k <= ps.len(),
        any_pat_anchor(ps.take(k)),
    ensures
        any_pat_anchor(ps),
    decreases ps.len() - k,
{
    if k < ps.len() {
        assert(ps.take(k + 1).drop_last() =~= ps.take(k));
        lemma_any_pat_anchor_prefix(ps, k + 1);
    } else {
        assert(ps.take(k) =~= ps);
    }
}

/// Whether the pattern keeps an identity (see [`has_named_anchor`]).
fn named_anchor(p: &Pat) -> (r: bool)
    ensures
        r == has_named_anchor(pat_view(*p)),
    decreases p,
{
    if text_anchor(p) || is_container(chars_of(p.kind.as_str()).as_slice()) {
        return true;
    }
    kids_named_anchor(p)
}

/// Whether any child of `p` keeps an identity (see [`any_named_anchor`]).
fn kids_named_anchor(p: &Pat) -> (r: bool)
    ensures
        r == any_named_anchor(pats_view(p.children@)),
    decreases p, 0nat,
{
    let mut i: usize = 0;
    let ghost ps = pats_view(p.children@);
    proof {
        lemma_pats_view(p.children@);
    }
    assert(ps.take(0) =~= Seq::<PatV>::empty());
    while i < p.children.len()
        invariant
            i <= p.children@.len(),
            ps == pats_view(p.children@),
            ps.len() == p.children@.len(),
            forall|j: int| 0 <= j < ps.len() ==> #[trigger] ps[j] == pat_view(p.children@[j]),
            !any_named_anchor(ps.take(i as int)),
        decreases p.children@.len() - i,
    {
        proof {
            assert(ps.take(i + 1).drop_last() =~= ps.take(i as int));
            assert(ps.take(i + 1).last() == ps[i as int]);
        }
        if named_anchor(&p.children[i]) {
            proof {
                lemma_any_named_anchor_prefix(ps, i + 1);
            }
            return true;
        }
        i = i + 1;
    }
    assert(ps.take(i as int) =~= ps);
    false
}

/// Whether the pattern keeps any exact text (see [`pat_has_anchor`]).
fn exact_anchor(p: &Pat) -> (r: bool)
    ensures
        r == pat_has_anchor(pat_view(*p)),
    decreases p,
{
    if p.text.is_some() {
        return true;
    }
    let mut i: usize = 0;
    let ghost ps = pats_view(p.children@);
    proof {
        lemma_pats_view(p.children@);
    }
    assert(ps.take(0) =~= Seq::<PatV>::empty());
    while i < p.children.len()
        invariant
            i <= p.children@.len(),
            ps == pats_view(p.children@),
            ps.len() == p.children@.len(),
            forall|j: int| 0 <= j < ps.len() ==> #[trigger] ps[j] == pat_view(p.children@[j]),
            !any_pat_anchor(ps.take(i as int)),
        decreases p.children@.len() - i,
    {
        proof {
            assert(ps.take(i + 1).drop_last() =~= ps.take(i as int));
            assert(ps.take(i + 1).last() == ps[i as int]);
        }
        if exact_anchor(&p.children[i]) {
            proof {
                lemma_any_pat_anchor_prefix(ps, i + 1);
            }
            return true;
        }
        i = i + 1;
    }
    assert(ps.take(i as int) =~= ps);
    false
}

proof fn lemma_max_depth(ps: Seq<PatV>, limit: nat)
    ensures
        max_depth(ps) > limit <==> exists|j: int| 0 <= j < ps.len() && pat_depth(#[trigger] ps[j]) > limit,
    decreases ps.len(),
{
    if ps.len() > 0 {
        lemma_max_depth(ps.drop_last(), limit);
        if exists|j: int| 0 <= j < ps.drop_last().len() && pat_depth(#[trigger] ps.drop_last()[j]) > limit {
            let j = choose|j: int| 0 <= j < ps.drop_last().len() && pat_depth(#[trigger] ps.drop_last()[j]) > limit;
            assert(ps[j] == ps.drop_last()[j]);
        }
        if exists|j: int| 0 <= j < ps.len() && pat_depth(#[trigger] ps[j]) > limit {
            let j = choose|j: int| 0 <= j < ps.len() && pat_depth(#[trigger] ps[j]) > limit;
            if j < ps.len() - 1 {
                assert(ps.drop_last()[j] == ps[j]);
            }
        }
    }
}

/// Whether the pattern is nested deeper than `limit` (see [`pat_depth`]).
fn deeper_than(p: &Pat, limit: usize) -> (r: bool)
    ensures
        r == (pat_depth(pat_view(*p)) > limit),
    decreases p,
{
    if limit == 0 {
        return true;
    }
    let mut i: usize = 0;
    proof {
        lemma_pats_view(p.children@);
        lemma_max_depth(pats_view(p.children@), (limit - 1) as nat);
    }
    while i < p.children.len()
        invariant
            i <= p.children@.len(),
            limit > 0,
            pats_view(p.children@).len() == p.children@.len(),
            forall|j: int| 0 <= j < p.children@.len() ==> #[trigger] pats_view(p.children@)[j] == pat_view(p.children@[j]),
            forall|j: int| 0 <= j < i ==> !(pat_depth(#[trigger] pats_view(p.children@)[j]) > (limit - 1) as nat),
            (max_depth(pats_view(p.children@)) > (limit - 1) as nat) <==> exists|j: int|
                0 <= j < pats_view(p.children@).len() && pat_depth(#[trigger] pats_view(p.children@)[j]) > (limit
                    - 1) as nat,
        decreases p.children@.len() - i,
    {
        if deeper_than(&p.children[i], limit - 1) {
            assert(pat_depth(pats_view(p.children@)[i as int]) > (limit - 1) as nat);
            return true;
        }
        i = i + 1;
    }
    false
}

/// Deepest pattern nesting a compiled rule may keep.
pub const MAX_PATTERN_DEPTH: usize = 48;

/// Largest example, in UTF-8 bytes, that is compiled at all.
pub const MAX_EXAMPLE_BYTES: usize = 8192;


// ── Compiling a rule ─────────────────────────────────────────────────────────

/// The path, under the tree of a rule's bad example, to the construct its pattern is
/// compiled from: with a fix tree, the smallest novel construct (see [`novel_root`]);
/// without one, `None` when the example's instances differ only in literal values (see
/// [`value_dependent`]) and else one instance of a repeated violation (see
/// [`collapse_path`]).
pub open spec fn chosen_path(bad: Syn, good: Option<Syn>) -> Option<Seq<int>> {
    match good {
        None => if value_dependent(bad) {
            None
        } else {
            Some(collapse_path(bad))
        },
        Some(g) => novel_root(bad, fix_of(g)),
    }
}

/// `p`, except that a collection literal none of whose children keeps an identity keeps
/// no children: the container itself is the rule.
pub open spec fn trimmed_pattern(p: PatV) -> PatV {
    if container_kind(p.kind) && !any_named_anchor(p.children) {
        PatV { kind: p.kind, text: p.text, bind: p.bind, children: Seq::empty() }
    } else {
        p
    }
}

/// The pattern compiled from a rule's bad example tree `bad`, its fix tree `good` (`None`
/// when there is none) and its lowercased description `desc`: the chosen construct (see
/// [`chosen_path`]) past trivial wrappers (see [`skip_path`]) is compiled (see
/// [`compile_node`]) and trimmed (see [`trimmed_pattern`]). `None` — the rule abstains —
/// when no construct is chosen, when the construct is still a whole-file root,
/// when the pattern is a bare wildcard or leaf without text that is not a collection
/// literal, when it keeps no identity, or when it is nested deeper than
/// [`MAX_PATTERN_DEPTH`].
pub open spec fn compiled(bad: Syn, good: Option<Syn>, desc: Seq<char>) -> Option<PatV> {
    match chosen_path(bad, good) {
        None => None,
        Some(p) => {
            let st = site(bad, None, p + skip_path(site(bad, None, p).0));
            if unit_kind(st.0.kind@) {
                None
            } else {
                let pat = trimmed_pattern(compile_node(st.0, st.1, desc, Seq::empty()).0);
                if (pat.children.len() == 0 && pat.text is None && !container_kind(pat.kind)) || !has_named_anchor(pat)
                    || pat_depth(pat) > MAX_PATTERN_DEPTH {
                    None
                } else {
                    Some(pat)
                }
            }
        },
    }
}

/// An optional tree reference as a value.
pub open spec fn opt_syn(g: Option<&Syn>) -> Option<Syn> {
    match g {
        Some(t) => Some(*t),
        None => None,
    }
}

/// An optional pattern as a value.
pub open spec fn opt_pat(r: Option<Pat>) -> Option<PatV> {
    match r {
        Some(p) => Some(pat_view(p)),
        None => None,
    }
}

/// The pattern compiled from the parsed bad example `bad`, the parsed fix `good` and the
/// rule's description `desc` (see [`compiled`]; the description is lowercased first).
pub fn compile_tree(bad: &Syn, good: Option<&Syn>, desc: &str) -> (r: Option<Pat>)
    ensures
        opt_pat(r) == compiled(*bad, opt_syn(good), lowercase(desc@)),
{
    let bs = shaped(bad);
    let path = match good {
        None => {
            if value_dependent_of(bad, &bs) {
                return None;
            }
            collapse_of(bad, &bs)
        },
        Some(g) => {
            let fix = fix_tree(g);
            match novel_root_of(bad, &bs, &fix) {
                Some(p) => p,
                None => {
                    return None;
                },
            }
        },
    };
    let ghost pv = ints(path@);
    let (n1, _) = site_at(bad, &path);
    let mut q = skip_of(n1);
    let ghost qv = ints(q@);
    let mut full = path;
    full.append(&mut q);
    assert(ints(full@) =~= pv + qv);
    let (node, ctx) = site_at(bad, &full);
    let kind = chars_of(node.kind.as_str());
    if is_unit(kind.as_slice()) {
        return None;
    }
    let dl = to_lowercase(chars_of(desc).as_slice());
    let mut binds: Vec<Vec<char>> = Vec::new();
    assert(views(binds@) =~= Seq::<Seq<char>>::empty());
    let mut pat = compile_at(node, ctx, dl.as_slice(), &mut binds);
    let pk = chars_of(pat.kind.as_str());
    if is_container(pk.as_slice()) && !kids_named_anchor(&pat) {
        pat.children = Vec::new();
        assert(pats_view(pat.children@) =~= Seq::<PatV>::empty());
    }
    proof {
        lemma_pats_view(pat.children@);
    }
    if pat.children.len() == 0 && pat.text.is_none() && !is_container(pk.as_slice()) {
        return None;
    }
    if !named_anchor(&pat) {
        return None;
    }
    if deeper_than(&pat, MAX_PATTERN_DEPTH) {
        return None;
    }
    Some(pat)
}

// ── Matching ─────────────────────────────────────────────────────────────────

/// The text most recently bound to wildcard `id` among the bindings `b`.
pub open spec fn lookup(b: Seq<(u32, Seq<char>)>, id: u32) -> Option<Seq<char>>
    decreases b.len(),
{
    if b.len() == 0 {
        None
    } else if b.last().0 == id {
        Some(b.last().1)
    } else {
        lookup(b.drop_last(), id)
    }
}

/// Whether the pattern `p` matches exactly at the node `n` given the bindings `b`, and the
/// bindings afterwards. The kinds must agree; a bound wildcard matches any text the first
/// time and afterwards only the text it bound; an exact pattern needs `n`'s trimmed text;
/// a childless pattern is a typed wildcard; otherwise `n`'s meaningful children must be as
/// many as the pattern's and match them in order.
pub open spec fn match_at(n: Syn, p: PatV, b: Seq<(u32, Seq<char>)>) -> (bool, Seq<(u32, Seq<char>)>)
    decreases p,
{
    if n.kind@ != p.kind {
        (false, b)
    } else {
        match p.bind {
            Some(id) => match lookup(b, id) {
                Some(prev) => (prev == n.text@, b),
                None => (true, b.push((id, n.text@))),
            },
            None => match p.text {
                Some(t) => (trim(n.text@) == t, b),
                None => if p.children.len() == 0 {
                    (true, b)
                } else if kid_indices(n.children@).len() != p.children.len() {
                    (false, b)
                } else {
                    match_kids(n, p.children, b)
                },
            },
        }
    }
}

/// Whether the patterns `ps` match the first meaningful children of `n` in order, stopping
/// at the first that does not, and the bindings afterwards.
pub open spec fn match_kids(n: Syn, ps: Seq<PatV>, b: Seq<(u32, Seq<char>)>) -> (bool, Seq<(u32, Seq<char>)>)
    decreases ps,
{
    if ps.len() == 0 {
        (true, b)
    } else {
        let r = match_kids(n, ps.drop_last(), b);
        if !r.0 {
            r
        } else {
            match_at(kid(n, ps.len() - 1), ps.last(), r.1)
        }
    }
}

/// Whether every node of the tree has a row whose successor is a `usize`.
pub open spec fn rows_fit(n: Syn) -> bool
    decreases n,
{
    n.row < usize::MAX && rows_fit_all(n.children@)
}

/// Whether every tree among `cs` has rows that fit (see [`rows_fit`]).
pub open spec fn rows_fit_all(cs: Seq<Syn>) -> bool
    decreases cs,
{
    cs.len() == 0 || (rows_fit_all(cs.drop_last()) && rows_fit(cs.last()))
}

/// The 1-based rows, in preorder over every node of the tree, at which the pattern `p`
/// matches with fresh bindings.
pub open spec fn hits(n: Syn, p: PatV) -> Seq<int>
    decreases n,
{
    (if match_at(n, p, Seq::empty()).0 {
        seq![n.row + 1]
    } else {
        Seq::empty()
    }) + hits_all(n.children@, p)
}

/// The rows at which `p` matches in the trees `cs`, in order.
pub open spec fn hits_all(cs: Seq<Syn>, p: PatV) -> Seq<int>
    decreases cs,
{
    if cs.len() == 0 {
        Seq::empty()
    } else {
        hits_all(cs.drop_last(), p) + hits(cs.last(), p)
    }
}

/// Bindings as values.
pub open spec fn bview(b: Seq<(u32, Vec<char>)>) -> Seq<(u32, Seq<char>)> {
    b.map_values(|e: (u32, Vec<char>)| (e.0, e.1@))
}

/// Where the text most recently bound to `id` stands among `b` (see [`lookup`]).
fn lookup_bind(b: &Vec<(u32, Vec<char>)>, id: u32) -> (r: Option<usize>)
    ensures
        match r {
            Some(i) => i < b@.len() && lookup(bview(b@), id) == Some(b@[i as int].1@),
            None => lookup(bview(b@), id) is None,
        },
{
    let mut j: usize = b.len();
    assert(bview(b@).take(j as int) =~= bview(b@));
    while j > 0
        invariant
            j <= b@.len(),
            lookup(bview(b@), id) == lookup(bview(b@).take(j as int), id),
        decreases j,
    {
        let ghost t = bview(b@).take(j as int);
        assert(t.drop_last() =~= bview(b@).take(j - 1));
        assert(t.last() == (b@[j - 1].0, b@[j - 1].1@));
        if b[j - 1].0 == id {
            return Some(j - 1);
        }
        j = j - 1;
    }
    None
}

proof fn lemma_match_kids_stop(n: Syn, ps: Seq<PatV>, k: int, b: Seq<(u32, Seq<char>)>)
    requires
        0 <= k <= ps.len(),
        !match_kids(n, ps.take(k), b).0,
    ensures
        match_kids(n, ps, b) == match_kids(n, ps.take(k), b),
    decreases ps.len() - k,
{
    if k < ps.len() {
        assert(ps.take(k + 1).drop_last() =~= ps.take(k));
        lemma_match_kids_stop(n, ps, k + 1, b);
    } else {
        assert(ps.take(k) =~= ps);
    }
}

/// Whether the pattern `p` matches exactly at `n`, threading the bindings `b` (see
/// [`match_at`]).
fn match_node(n: &Syn, p: &Pat, b: &mut Vec<(u32, Vec<char>)>) -> (r: bool)
    ensures
        (r, bview(final(b)@)) == match_at(*n, pat_view(*p), bview(old(b)@)),
    decreases p,
{
    if !chars_eq(chars_of(n.kind.as_str()).as_slice(), chars_of(p.kind.as_str()).as_slice()) {
        return false;
    }
    match p.bind {
        Some(id) => {
            let t = chars_of(n.text.as_str());
            match lookup_bind(b, id) {
                Some(i) => {
                    return chars_eq(b[i].1.as_slice(), t.as_slice());
                },
                None => {
                    let ghost before = b@;
                    b.push((id, t));
                    assert(bview(b@) =~= bview(before).push((id, n.text@)));
                    return true;
                },
            }
        },
        None => {},
    }
    match &p.text {
        Some(t) => {
            return chars_eq(trimmed(chars_of(n.text.as_str()).as_slice()).as_slice(), chars_of(t.as_str()).as_slice());
        },
        None => {},
    }
    proof {
        lemma_pats_view(p.children@);
    }
    if p.children.len() == 0 {
        return true;
    }
    let ki = kids_of(n);
    if ki.len() != p.children.len() {
        return false;
    }
    let ghost ps = pats_view(p.children@);
    let ghost b0 = bview(b@);
    let mut j: usize = 0;
    assert(ps.take(0) =~= Seq::<PatV>::empty());
    while j < p.children.len()
        invariant
            j <= p.children@.len(),
            ps == pats_view(p.children@),
            ps.len() == p.children@.len(),
            forall|x: int| 0 <= x < ps.len() ==> #[trigger] ps[x] == pat_view(p.children@[x]),
            ints(ki@) == kid_indices(n.children@),
            ki@.len() == p.children@.len(),
            forall|x: int| 0 <= x < ki@.len() ==> ki@[x] < n.children@.len(),
            match_kids(*n, ps.take(j as int), b0) == (true, bview(b@)),
            b0 == bview(old(b)@),
            n.kind@ == p.kind@,
            p.bind is None,
            p.text is None,
            p.children@.len() > 0,
        decreases p.children@.len() - j,
    {
        proof {
            assert(ps.take(j + 1).drop_last() =~= ps.take(j as int));
            assert(ps.take(j + 1).last() == ps[j as int]);
            assert(ints(ki@)[j as int] == ki@[j as int] as int);
        }
        let c = ki[j];
        assert(kid(*n, j as int) == n.children@[c as int]);
        let ghost bj = bview(b@);
        let ok = match_node(&n.children[c], &p.children[j], b);
        assert(match_kids(*n, ps.take(j + 1), b0) == match_at(kid(*n, j as int), ps[j as int], bj));
        if !ok {
            proof {
                lemma_match_kids_stop(*n, ps, j + 1, b0);
            }
            return false;
        }
        j = j + 1;
    }
    assert(ps.take(j as int) =~= ps);
    true
}

/// Adds the 1-based rows at which `p` matches in the tree `n` to `out` (see [`hits`]).
fn find_hits(n: &Syn, p: &Pat, out: &mut Vec<usize>)
    requires
        rows_fit(*n),
    ensures
        ints(final(out)@) == ints(old(out)@) + hits(*n, pat_view(*p)),
    decreases n,
{
    let ghost o0 = ints(out@);
    let mut b: Vec<(u32, Vec<char>)> = Vec::new();
    assert(bview(b@) =~= Seq::<(u32, Seq<char>)>::empty());
    let m = match_node(n, p, &mut b);
    let ghost head: Seq<int> = if m {
        seq![n.row + 1]
    } else {
        Seq::empty()
    };
    if m {
        out.push(n.row + 1);
    }
    assert(ints(out@) =~= o0 + head);
    let mut i: usize = 0;
    assert(n.children@.take(0) =~= Seq::<Syn>::empty());
    while i < n.children.len()
        invariant
            i <= n.children@.len(),
            rows_fit_all(n.children@),
            ints(out@) == o0 + head + hits_all(n.children@.take(i as int), pat_view(*p)),
        decreases n.children@.len() - i,
    {
        proof {
            assert(n.children@.take(i + 1).drop_last() =~= n.children@.take(i as int));
            assert(n.children@.take(i + 1).last() == n.children@[i as int]);
            lemma_rows_fit_all(n.children@, i as int);
        }
        let ghost before = ints(out@);
        find_hits(&n.children[i], p, out);
        assert(o0 + head + hits_all(n.children@.take(i + 1), pat_view(*p)) =~= before + hits(
            n.children@[i as int],
            pat_view(*p),
        ));
        i = i + 1;
    }
    assert(n.children@.take(i as int) =~= n.children@);
    assert(o0 + head + hits_all(n.children@, pat_view(*p)) =~= o0 + hits(*n, pat_view(*p)));
}

proof fn lemma_rows_fit_all(cs: Seq<Syn>, i: int)
    requires
        rows_fit_all(cs),
        0 <= i < cs.len(),
    ensures
        rows_fit(cs[i]),
    decreases cs.len(),
{
    if i < cs.len() - 1 {
        lemma_rows_fit_all(cs.drop_last(), i);
    }
}

// ── What a compiled pattern matches ─────────────────────────────────────────

/// Whether every literal and operand-like token of the tree has a text without surrounding
/// whitespace.
pub open spec fn tokens_trimmed(n: Syn) -> bool
    decreases n,
{
    ((literal_kind(n.kind@) || identifier_kind(n.kind@)) ==> trim(n.text@) == n.text@) && tokens_trimmed_all(
        n.children@,
    )
}

/// Whether every tree among `cs` has trimmed tokens (see [`tokens_trimmed`]).
pub open spec fn tokens_trimmed_all(cs: Seq<Syn>) -> bool
    decreases cs,
{
    cs.len() == 0 || (tokens_trimmed_all(cs.drop_last()) && tokens_trimmed(cs.last()))
}

proof fn lemma_tokens_trimmed_all(cs: Seq<Syn>, i: int)
    requires
        tokens_trimmed_all(cs),
        0 <= i < cs.len(),
    ensures
        tokens_trimmed(cs[i]),
    decreases cs.len(),
{
    if i < cs.len() - 1 {
        lemma_tokens_trimmed_all(cs.drop_last(), i);
    }
}

/// Whether `a` begins with `b`.
pub open spec fn grows(b: Seq<Seq<char>>, a: Seq<Seq<char>>) -> bool {
    b.len() <= a.len() && a.take(b.len() as int) == b
}

/// Whether every wildcard bound while matching holds the text that compiling gave its id.
pub open spec fn agree(cb: Seq<Seq<char>>, mb: Seq<(u32, Seq<char>)>) -> bool {
    forall|id: u32|
        #![trigger lookup(mb, id)]
        lookup(mb, id) is Some ==> (id as int) < cb.len() && cb[id as int] == lookup(mb, id)->0
}

proof fn lemma_pos_from(s: Seq<Seq<char>>, x: Seq<char>, i: int)
    requires
        0 <= i <= s.len(),
    ensures
        i <= pos_from(s, x, i) <= s.len(),
        pos_from(s, x, i) < s.len() ==> s[pos_from(s, x, i)] == x,
        pos_from(s, x, i) == s.len() ==> forall|q: int| i <= q < s.len() ==> s[q] != x,
    decreases s.len() - i,
{
    if i < s.len() && s[i] != x {
        lemma_pos_from(s, x, i + 1);
    }
}

proof fn lemma_compile_grows(n: Syn, ctx: Option<(Syn, int)>, d: Seq<char>, cb: Seq<Seq<char>>)
    ensures
        grows(cb, compile_node(n, ctx, d, cb).1),
    decreases n,
{
    assert(cb.take(cb.len() as int) =~= cb);
    if !op_token(n) && !literal_kind(n.kind@) {
        if identifier_kind(n.kind@) && !operation_name(ctx) {
            assert(cb.push(n.text@).take(cb.len() as int) =~= cb);
        } else {
            lemma_kids_grows(n, n.children@, d, cb);
        }
    }
}

proof fn lemma_kids_grows(parent: Syn, cs: Seq<Syn>, d: Seq<char>, cb: Seq<Seq<char>>)
    ensures
        grows(cb, compile_kids(parent, cs, d, cb).1),
        compile_kids(parent, cs, d, cb).0.len() == kid_indices(cs).len(),
    decreases cs,
{
    if cs.len() == 0 {
        assert(cb.take(cb.len() as int) =~= cb);
    } else {
        lemma_kids_grows(parent, cs.drop_last(), d, cb);
        let r = compile_kids(parent, cs.drop_last(), d, cb);
        if meaningful(cs.last()) {
            lemma_compile_grows(cs.last(), Some((parent, cs.len() - 1)), d, r.1);
            let c = compile_node(cs.last(), Some((parent, cs.len() - 1)), d, r.1);
            assert(c.1.take(cb.len() as int) =~= c.1.take(r.1.len() as int).take(cb.len() as int));
        }
    }
}

proof fn lemma_kid_prefix(full: Seq<Syn>, k: int)
    requires
        0 <= k <= full.len(),
    ensures
        kid_indices(full.take(k)).len() <= kid_indices(full).len(),
        forall|j: int|
            0 <= j < kid_indices(full.take(k)).len() ==> #[trigger] kid_indices(full)[j] == kid_indices(
                full.take(k),
            )[j],
    decreases full.len(),
{
    if k == full.len() {
        assert(full.take(k) =~= full);
    } else {
        let dl = full.drop_last();
        assert(full.take(k) =~= dl.take(k));
        lemma_kid_prefix(dl, k);
    }
}

proof fn lemma_agree_grows(cb: Seq<Seq<char>>, cb2: Seq<Seq<char>>, mb: Seq<(u32, Seq<char>)>)
    requires
        agree(cb, mb),
        grows(cb, cb2),
    ensures
        agree(cb2, mb),
{
    assert forall|id: u32| #![trigger lookup(mb, id)] lookup(mb, id) is Some implies (id as int) < cb2.len()
        && cb2[id as int] == lookup(mb, id)->0 by {
        assert(cb2.take(cb.len() as int)[id as int] == cb2[id as int]);
    }
}

proof fn lemma_lookup_push(mb: Seq<(u32, Seq<char>)>, id: u32, t: Seq<char>, k: u32)
    ensures
        lookup(mb.push((id, t)), k) == if k == id {
            Some(t)
        } else {
            lookup(mb, k)
        },
{
    assert(mb.push((id, t)).drop_last() =~= mb);
}

proof fn lemma_matches_own(n: Syn, ctx: Option<(Syn, int)>, d: Seq<char>, cb: Seq<Seq<char>>, mb: Seq<(u32, Seq<char>)>)
    requires
        tokens_trimmed(n),
        agree(cb, mb),
        compile_node(n, ctx, d, cb).1.len() <= u32::MAX,
    ensures
        match_at(n, compile_node(n, ctx, d, cb).0, mb).0,
        agree(compile_node(n, ctx, d, cb).1, match_at(n, compile_node(n, ctx, d, cb).0, mb).1),
    decreases n,
{
    let k = n.kind@;
    if op_token(n) {
    } else if literal_kind(k) {
    } else if identifier_kind(k) && !operation_name(ctx) {
        if !named_in_desc(n.text@, d) {
            let t = n.text@;
            lemma_pos_from(cb, t, 0);
            let pos = pos_from(cb, t, 0);
            let id = pos as u32;
            if cb.contains(t) {
                if pos == cb.len() {
                    let q = choose|q: int| 0 <= q < cb.len() && cb[q] == t;
                    assert(cb[q] != t);
                }
                assert(id as int == pos);
                if lookup(mb, id) is None {
                    assert forall|k2: u32| #![trigger lookup(mb.push((id, t)), k2)] lookup(mb.push((id, t)), k2)
                        is Some implies (k2 as int) < cb.len() && cb[k2 as int] == lookup(mb.push((id, t)), k2)->0 by {
                        lemma_lookup_push(mb, id, t, k2);
                    }
                }
            } else {
                assert(pos == cb.len()) by {
                    if pos < cb.len() {
                        assert(cb[pos] == t);
                    }
                }
                assert(id as int == pos);
                assert(lookup(mb, id) is None);
                let cb2 = cb.push(t);
                assert forall|k2: u32| #![trigger lookup(mb.push((id, t)), k2)] lookup(mb.push((id, t)), k2)
                    is Some implies (k2 as int) < cb2.len() && cb2[k2 as int] == lookup(mb.push((id, t)), k2)->0 by {
                    lemma_lookup_push(mb, id, t, k2);
                }
            }
        }
    } else {
        lemma_kids_grows(n, n.children@, d, cb);
        let r = compile_kids(n, n.children@, d, cb);
        if r.0.len() == 0 {
            lemma_agree_grows(cb, r.1, mb);
        } else {
            assert(n.children@.take(n.children@.len() as int) =~= n.children@);
            lemma_kids_match_own(n, n.children@, d, cb, mb);
        }
    }
}

proof fn lemma_kids_match_own(n: Syn, cs: Seq<Syn>, d: Seq<char>, cb: Seq<Seq<char>>, mb: Seq<(u32, Seq<char>)>)
    requires
        cs.len() <= n.children@.len(),
        cs == n.children@.take(cs.len() as int),
        tokens_trimmed_all(n.children@),
        agree(cb, mb),
        compile_kids(n, cs, d, cb).1.len() <= u32::MAX,
    ensures
        compile_kids(n, cs, d, cb).0.len() == kid_indices(cs).len(),
        match_kids(n, compile_kids(n, cs, d, cb).0, mb).0,
        agree(compile_kids(n, cs, d, cb).1, match_kids(n, compile_kids(n, cs, d, cb).0, mb).1),
    decreases cs,
{
    lemma_kids_grows(n, cs, d, cb);
    if cs.len() > 0 {
        let dl = cs.drop_last();
        assert(dl =~= n.children@.take(dl.len() as int));
        let rd = compile_kids(n, dl, d, cb);
        if meaningful(cs.last()) {
            let ctx = Some((n, cs.len() - 1));
            let c = compile_node(cs.last(), ctx, d, rd.1);
            lemma_compile_grows(cs.last(), ctx, d, rd.1);
            lemma_kids_match_own(n, dl, d, cb, mb);
            let m = match_kids(n, rd.0, mb);
            assert(rd.0.push(c.0).drop_last() =~= rd.0);
            lemma_kid_prefix(n.children@, cs.len() as int);
            assert(kid_indices(cs) == kid_indices(dl).push(cs.len() - 1));
            assert(kid(n, rd.0.len() as int) == cs.last());
            lemma_tokens_trimmed_all(n.children@, cs.len() - 1);
            lemma_matches_own(cs.last(), ctx, d, rd.1, m.1);
        } else {
            lemma_kids_match_own(n, dl, d, cb, mb);
        }
    }
}

proof fn lemma_hits_all(cs: Seq<Syn>, p: PatV, i: int, x: int)
    requires
        0 <= i < cs.len(),
        hits(cs[i], p).contains(x),
    ensures
        hits_all(cs, p).contains(x),
    decreases cs.len(),
{
    let dl = cs.drop_last();
    let k = choose|k: int| 0 <= k < hits(cs[i], p).len() && hits(cs[i], p)[k] == x;
    if i == cs.len() - 1 {
        assert((hits_all(dl, p) + hits(cs.last(), p))[hits_all(dl, p).len() + k] == x);
    } else {
        assert(dl[i] == cs[i]);
        lemma_hits_all(dl, p, i, x);
        let k2 = choose|k2: int| 0 <= k2 < hits_all(dl, p).len() && hits_all(dl, p)[k2] == x;
        assert((hits_all(dl, p) + hits(cs.last(), p))[k2] == x);
    }
}

proof fn lemma_hits_site(n: Syn, ctx: Option<(Syn, int)>, q: Seq<int>, p: PatV)
    requires
        match_at(site(n, ctx, q).0, p, Seq::empty()).0,
    ensures
        hits(n, p).contains(site(n, ctx, q).0.row + 1),
    decreases q.len(),
{
    if q.len() > 0 && 0 <= q[0] < n.children@.len() {
        let c = n.children@[q[0]];
        lemma_hits_site(c, Some((n, q[0])), q.drop_first(), p);
        lemma_hits_all(n.children@, p, q[0], site(n, ctx, q).0.row + 1);
        let head: Seq<int> = if match_at(n, p, Seq::empty()).0 {
            seq![n.row + 1]
        } else {
            Seq::empty()
        };
        let k = choose|k: int|
            0 <= k < hits_all(n.children@, p).len() && hits_all(n.children@, p)[k] == site(n, ctx, q).0.row + 1;
        assert((head + hits_all(n.children@, p))[head.len() + k] == site(n, ctx, q).0.row + 1);
    } else {
        assert(hits(n, p)[0] == n.row + 1);
    }
}

proof fn lemma_tokens_site(n: Syn, ctx: Option<(Syn, int)>, q: Seq<int>)
    requires
        tokens_trimmed(n),
    ensures
        tokens_trimmed(site(n, ctx, q).0),
    decreases q.len(),
{
    if q.len() > 0 && 0 <= q[0] < n.children@.len() {
        lemma_tokens_trimmed_all(n.children@, q[0]);
        lemma_tokens_site(n.children@[q[0]], Some((n, q[0])), q.drop_first());
    }
}

/// The place in a rule's bad example tree of the construct its pattern is compiled from
/// (see [`compiled`]); meaningful only where a construct is chosen.
pub open spec fn chosen_site(bad: Syn, good: Option<Syn>) -> SiteV {
    let p = chosen_path(bad, good)->0;
    site(bad, None, p + skip_path(site(bad, None, p).0))
}

/// The operand texts the chosen construct binds to wildcards, in order of first use.
pub open spec fn operand_texts(bad: Syn, good: Option<Syn>, desc: Seq<char>) -> Seq<Seq<char>> {
    compile_node(chosen_site(bad, good).0, chosen_site(bad, good).1, desc, Seq::empty()).1
}

/// A rule's pattern matches the construct it was compiled from, and therefore fires on
/// the bad example itself at that construct's line: whenever a pattern is compiled from a
/// bad example tree whose literal and operand tokens carry no surrounding whitespace, and
/// whose construct binds no more operand texts than a `u32` numbers, the pattern matches at
/// the chosen construct with fresh bindings, and that construct's 1-based row is among the
/// pattern's hits on the tree.
pub proof fn law_pattern_fires_on_its_own_example(bad: Syn, good: Option<Syn>, desc: Seq<char>)
    requires
        compiled(bad, good, desc) is Some,
        tokens_trimmed(bad),
        operand_texts(bad, good, desc).len() <= u32::MAX,
    ensures
        match_at(chosen_site(bad, good).0, compiled(bad, good, desc)->0, Seq::empty()).0,
        hits(bad, compiled(bad, good, desc)->0).contains(chosen_site(bad, good).0.row + 1),
{
    let p = chosen_path(bad, good)->0;
    let q = p + skip_path(site(bad, None, p).0);
    let st = site(bad, None, q);
    lemma_tokens_site(bad, None, q);
    let e: Seq<(u32, Seq<char>)> = Seq::empty();
    assert(agree(Seq::empty(), e));
    lemma_matches_own(st.0, st.1, desc, Seq::empty(), e);
    let raw = compile_node(st.0, st.1, desc, Seq::empty()).0;
    if raw.children.len() > 0 && container_kind(raw.kind) && !any_named_anchor(raw.children) {
        lemma_kids_grows(st.0, st.0.children@, desc, Seq::empty());
    } else if raw.children.len() == 0 {
        assert(raw.children =~= Seq::<PatV>::empty());
        assert(trimmed_pattern(raw) == raw);
    }
    lemma_hits_site(bad, None, q, compiled(bad, good, desc)->0);
}

/// A compiled pattern is never a bare wildcard: it keeps an identity (an exact text with a
/// word, or a collection literal), it is a collection literal or has children or keeps a
/// text, and it is nested no deeper than [`MAX_PATTERN_DEPTH`]; its construct is never a
/// whole-file root.
pub proof fn law_compiled_pattern_has_identity(bad: Syn, good: Option<Syn>, desc: Seq<char>)
    requires
        compiled(bad, good, desc) is Some,
    ensures
        has_named_anchor(compiled(bad, good, desc)->0),
        pat_depth(compiled(bad, good, desc)->0) <= MAX_PATTERN_DEPTH,
        compiled(bad, good, desc)->0.children.len() > 0 || compiled(bad, good, desc)->0.text is Some
            || container_kind(compiled(bad, good, desc)->0.kind),
        !unit_kind(chosen_site(bad, good).0.kind@),
        compiled(bad, good, desc)->0.kind == chosen_site(bad, good).0.kind@,
{
}

/// A pattern matches only at nodes of its root's kind, whatever the bindings.
pub proof fn law_match_needs_root_kind(n: Syn, p: PatV, b: Seq<(u32, Seq<char>)>)
    requires
        match_at(n, p, b).0,
    ensures
        n.kind@ == p.kind,
{
}

proof fn lemma_syns_view(cs: Seq<Syn>)
    ensures
        syns_view(cs).len() == cs.len(),
        forall|j: int| 0 <= j < cs.len() ==> #[trigger] syns_view(cs)[j] == syn_view(cs[j]),
    decreases cs.len(),
{
    if cs.len() > 0 {
        lemma_syns_view(cs.drop_last());
        assert forall|j: int| 0 <= j < cs.len() implies #[trigger] syns_view(cs)[j] == syn_view(cs[j]) by {
            if j < cs.len() - 1 {
                assert(syns_view(cs.drop_last())[j] == syn_view(cs.drop_last()[j]));
            }
        }
    }
}

proof fn lemma_same_view_kids(a: Seq<Syn>, b: Seq<Syn>)
    requires
        syns_view(a) == syns_view(b),
    ensures
        a.len() == b.len(),
        forall|j: int| 0 <= j < a.len() ==> syn_view(#[trigger] a[j]) == syn_view(b[j]),
        kid_indices(a) == kid_indices(b),
    decreases a.len(),
{
    lemma_syns_view(a);
    lemma_syns_view(b);
    assert(a.len() == b.len());
    assert forall|j: int| 0 <= j < a.len() implies syn_view(#[trigger] a[j]) == syn_view(b[j]) by {
        assert(syns_view(a)[j] == syns_view(b)[j]);
        assert(syns_view(a)[j] == syn_view(a[j]));
        assert(syns_view(b)[j] == syn_view(b[j]));
    }
    if a.len() > 0 {
        assert(syns_view(a.drop_last()) =~= syns_view(a).drop_last());
        assert(syns_view(b.drop_last()) =~= syns_view(b).drop_last());
        lemma_same_view_kids(a.drop_last(), b.drop_last());
        assert(syn_view(a.last()) == syn_view(b.last()));
        assert(a.last().kind@ == b.last().kind@ && a.last().named == b.last().named);
    }
}

proof fn lemma_match_same_view(n1: Syn, n2: Syn, p: PatV, b: Seq<(u32, Seq<char>)>)
    requires
        syn_view(n1) == syn_view(n2),
    ensures
        match_at(n1, p, b) == match_at(n2, p, b),
    decreases p,
{
    lemma_same_view_kids(n1.children@, n2.children@);
    if n1.kind@ == p.kind && p.bind is None && p.text is None && p.children.len() > 0 && kid_indices(
        n1.children@,
    ).len() == p.children.len() {
        lemma_match_kids_same_view(n1, n2, p.children, b);
    }
}

proof fn lemma_match_kids_same_view(n1: Syn, n2: Syn, ps: Seq<PatV>, b: Seq<(u32, Seq<char>)>)
    requires
        syn_view(n1) == syn_view(n2),
        ps.len() <= kid_indices(n1.children@).len(),
    ensures
        match_kids(n1, ps, b) == match_kids(n2, ps, b),
    decreases ps,
{
    if ps.len() > 0 {
        lemma_match_kids_same_view(n1, n2, ps.drop_last(), b);
        lemma_same_view_kids(n1.children@, n2.children@);
        lemma_kid_shapes(n1.children@);
        let r = match_kids(n1, ps.drop_last(), b);
        if r.0 {
            let j = ps.len() - 1;
            assert(kid(n1, j) == n1.children@[kid_indices(n1.children@)[j]]);
            lemma_match_same_view(kid(n1, j), kid(n2, j), ps.last(), r.1);
        }
    }
}

proof fn lemma_hits_same_view(n1: Syn, n2: Syn, p: PatV)
    requires
        syn_view(n1) == syn_view(n2),
    ensures
        hits(n1, p) == hits(n2, p),
    decreases n1,
{
    lemma_match_same_view(n1, n2, p, Seq::empty());
    lemma_same_view_kids(n1.children@, n2.children@);
    lemma_hits_all_same_view(n1.children@, n2.children@, p);
}

proof fn lemma_hits_all_same_view(a: Seq<Syn>, b: Seq<Syn>, p: PatV)
    requires
        a.len() == b.len(),
        forall|j: int| 0 <= j < a.len() ==> syn_view(#[trigger] a[j]) == syn_view(b[j]),
    ensures
        hits_all(a, p) == hits_all(b, p),
    decreases a,
{
    if a.len() > 0 {
        assert forall|j: int| 0 <= j < a.drop_last().len() implies syn_view(#[trigger] a.drop_last()[j]) == syn_view(
            b.drop_last()[j],
        ) by {
            assert(syn_view(a[j]) == syn_view(b[j]));
        }
        lemma_hits_all_same_view(a.drop_last(), b.drop_last(), p);
        assert(syn_view(a[a.len() - 1]) == syn_view(b[b.len() - 1]));
        lemma_hits_same_view(a.last(), b.last(), p);
    }
}

/// A compiled rule fires on its own bad example: when the tree [`RulePattern::compile`]
/// reads for `bad` (`bt`, with the fix tree `gt` it reads) yields a rule, and `t` is the tree
/// [`RulePattern::matches`] reads for the same `bad` in the same language, the rule's hits
/// on `t` hold the 1-based row of the construct it was compiled from — provided the bad
/// tree's literal and operand tokens carry no surrounding whitespace and its construct binds
/// no more operand texts than a `u32` numbers.
pub proof fn law_compiled_rule_fires_on_its_own_example(
    lang: Seq<char>,
    bad: Seq<char>,
    good: Seq<char>,
    desc: Seq<char>,
    bt: Syn,
    gt: Option<Syn>,
    t: Syn,
)
    requires
        is_parse(Some(bt), lang, bad, usize::MAX as int),
        fix_of_good(gt, lang, good),
        is_parse(Some(t), lang, bad, usize::MAX as int),
        compiled_rule(Some(bt), gt, lang, desc) is Some,
        tokens_trimmed(bt),
        operand_texts(bt, gt, lowercase(desc)).len() <= u32::MAX,
    ensures
        tree_hits(Some(t), (compiled_rule(Some(bt), gt, lang, desc)->0).1).contains(chosen_site(bt, gt).0.row + 1),
{
    law_pattern_fires_on_its_own_example(bt, gt, lowercase(desc));
    let p = compiled(bt, gt, lowercase(desc))->0;
    assert(syn_view(t) == syn_view(bt));
    lemma_hits_same_view(t, bt, p);
}

/// Whether `gt` is the fix tree that takes part in compiling a rule whose fix is `good` in
/// `lang`: the parse of the fix when it is not blank and not longer than
/// [`MAX_EXAMPLE_BYTES`], else none.
pub open spec fn fix_of_good(gt: Option<Syn>, lang: Seq<char>, good: Seq<char>) -> bool {
    if trim(good).len() > 0 && byte_len(good) <= MAX_EXAMPLE_BYTES {
        is_parse(gt, lang, good, usize::MAX as int)
    } else {
        gt is None
    }
}

/// The rule compiled in `lang` from the bad tree `bt` and the fix tree `gt` with the
/// description `desc`, as its language and pattern: none without a bad tree, else
/// [`compiled`] with the description lowercased.
pub open spec fn compiled_rule(bt: Option<Syn>, gt: Option<Syn>, lang: Seq<char>, desc: Seq<char>) -> Option<
    (Seq<char>, PatV),
> {
    match bt {
        None => None,
        Some(b) => match compiled(b, gt, lowercase(desc)) {
            Some(p) => Some((lang, p)),
            None => None,
        },
    }
}

/// The rows at which `p` matches in the tree `t`, none without a tree.
pub open spec fn tree_hits(t: Option<Syn>, p: PatV) -> Seq<int> {
    match t {
        Some(x) => hits(x, p),
        None => Seq::empty(),
    }
}

/// A compiled rule: the generalized pattern and the language whose grammar parses the code
/// it is matched against.
pub struct RulePattern {
    lang: String,
    pat: Pat,
}

/// A rule as its language and pattern.
pub open spec fn opt_rule(r: Option<RulePattern>) -> Option<(Seq<char>, PatV)> {
    match r {
        Some(rp) => Some((rp.language(), rp.pattern())),
        None => None,
    }
}

impl RulePattern {
    /// The language this rule's code is parsed in.
    pub closed spec fn language(&self) -> Seq<char> {
        self.lang@
    }

    /// The rule's pattern.
    pub closed spec fn pattern(&self) -> PatV {
        pat_view(self.pat)
    }

    /// Builds a rule pattern from its documented `bad` example and its `good` fix (blank
    /// when there is none) in `lang`; `desc` is the rule's description, whose named
    /// literals and names stay exact. `None` when `bad` is longer than
    /// [`MAX_EXAMPLE_BYTES`], when `lang` has no bundled grammar, when `bad` does not
    /// parse, or when the trees give no pattern (see [`compiled_rule`] over the parse of
    /// `bad` and of the fix, [`fix_of_good`]). The fix takes part only when it is not
    /// blank, not longer than [`MAX_EXAMPLE_BYTES`] and parses.
    pub fn compile(lang: &str, bad: &str, good: &str, desc: &str) -> (r: Option<RulePattern>)
        ensures
            byte_len(bad@) > MAX_EXAMPLE_BYTES ==> r is None,
            !crate::select::bundled_names().contains(lang@) ==> r is None,
            byte_len(bad@) <= MAX_EXAMPLE_BYTES ==> exists|bt: Option<Syn>, gt: Option<Syn>|
                is_parse(bt, lang@, bad@, usize::MAX as int) && (bt is Some ==> fix_of_good(gt, lang@, good@))
                    && opt_rule(r) == #[trigger] compiled_rule(bt, gt, lang@, desc@),
    {
        if byte_len_at_least(chars_of(bad).as_slice(), MAX_EXAMPLE_BYTES + 1) {
            return None;
        }
        let bt = match parse(lang, bad) {
            Some(t) => t,
            None => {
                assert(compiled_rule(None, None, lang@, desc@) is None);
                return None;
            },
        };
        let gc = chars_of(good);
        let gt = if trimmed(gc.as_slice()).len() > 0 && !byte_len_at_least(gc.as_slice(), MAX_EXAMPLE_BYTES + 1) {
            parse(lang, good)
        } else {
            None
        };
        assert(fix_of_good(gt, lang@, good@));
        let pat = match &gt {
            Some(g) => compile_tree(&bt, Some(g), desc),
            None => compile_tree(&bt, None, desc),
        };
        match pat {
            Some(p) => {
                let rp = RulePattern { lang: string_of(chars_of(lang).as_slice()), pat: p };
                assert(compiled(bt, gt, lowercase(desc@)) == Some(rp.pattern()));
                assert(opt_rule(Some(rp)) == compiled_rule(Some(bt), gt, lang@, desc@));
                Some(rp)
            },
            None => {
                assert(compiled_rule(Some(bt), gt, lang@, desc@) is None);
                None
            },
        }
    }

    /// The 1-based rows of `tree`, in preorder over every node, at which this rule's
    /// pattern matches (exact sub-tree match with consistent bindings; see [`hits`]).
    pub fn matches_tree(&self, tree: &Syn) -> (r: Vec<usize>)
        requires
            rows_fit(*tree),
        ensures
            ints(r@) == hits(*tree, self.pattern()),
    {
        let mut out: Vec<usize> = Vec::new();
        assert(ints(out@) =~= Seq::<int>::empty());
        find_hits(tree, &self.pat, &mut out);
        assert(ints(out@) =~= hits(*tree, self.pattern()));
        out
    }

    /// Every 1-based line of `code` at which this rule's pattern occurs: the rows found by
    /// [`RulePattern::matches_tree`] on the parse of `code` in the rule's language (see
    /// [`parsed`] and [`tree_hits`]); empty when the language has no bundled grammar or the
    /// code does not parse.
    pub fn matches(&self, code: &str) -> (r: Vec<usize>)
        ensures
            !crate::select::bundled_names().contains(self.language()) ==> r@.len() == 0,
            exists|t: Option<Syn>|
                is_parse(t, self.language(), code@, usize::MAX as int) && ints(r@) == #[trigger] tree_hits(
                    t,
                    self.pattern(),
                ),
    {
        match parse(self.lang.as_str(), code) {
            Some(t) => {
                let r = self.matches_tree(&t);
                assert(ints(r@) == tree_hits(Some(t), self.pattern()));
                r
            },
            None => {
                let r: Vec<usize> = Vec::new();
                assert(ints(r@) =~= tree_hits(None, self.pattern()));
                r
            },
        }
    }

    /// Whether the pattern keeps an exact text with a word in it (see
    /// [`has_text_anchor`]); a pattern anchored only by collection literals does not.
    pub fn text_anchored(&self) -> (r: bool)
        ensures
            r == has_text_anchor(self.pattern()),
    {
        text_anchor(&self.pat)
    }

    /// Whether the pattern can vouch for itself: nested at least two levels and keeping at
    /// least one exact text.
    pub fn structured(&self) -> (r: bool)
        ensures
            r == (pat_depth(self.pattern()) >= 2 && pat_has_anchor(self.pattern())),
    {
        deeper_than(&self.pat, 1) && exact_anchor(&self.pat)
    }

    /// The only node kind this pattern's root can match.
    pub fn root_kind(&self) -> (r: &str)
        ensures
            r@ == self.pattern().kind,
    {
        self.pat.kind.as_str()
    }
}


// ── Structural fingerprints ──────────────────────────────────────────────────

/// The strings `v` as characters.
pub open spec fn strs(v: Seq<String>) -> Seq<Seq<char>> {
    v.map_values(|x: String| x@)
}

/// `a>b>c`.
pub open spec fn path3(a: Seq<char>, b: Seq<char>, c: Seq<char>) -> Seq<char> {
    a + seq!['>'] + b + seq!['>'] + c
}

/// The `grandparent>parent>node` kind trigram of every node of `n` reached through named
/// children, in preorder, where `stack` holds the kinds of `n`'s ancestors.
pub open spec fn kind_paths(n: Syn, stack: Seq<Seq<char>>) -> Seq<Seq<char>>
    decreases n,
{
    let st = stack.push(n.kind@);
    (if st.len() >= 3 {
        seq![path3(st[st.len() - 3], st[st.len() - 2], st[st.len() - 1])]
    } else {
        Seq::empty()
    }) + kind_paths_all(n.children@, st)
}

/// The kind trigrams of the named trees among `cs`, in order, under the ancestor kinds
/// `stack`.
pub open spec fn kind_paths_all(cs: Seq<Syn>, stack: Seq<Seq<char>>) -> Seq<Seq<char>>
    decreases cs,
{
    if cs.len() == 0 {
        Seq::empty()
    } else if cs.last().named {
        kind_paths_all(cs.drop_last(), stack) + kind_paths(cs.last(), stack)
    } else {
        kind_paths_all(cs.drop_last(), stack)
    }
}

/// The finished word runs of `s` and the run still open at its end.
pub open spec fn runs_acc(s: Seq<char>) -> (Seq<Seq<char>>, Seq<char>)
    decreases s.len(),
{
    if s.len() == 0 {
        (Seq::empty(), Seq::empty())
    } else {
        let r = runs_acc(s.drop_last());
        if crate::select::run_char(s.last()) {
            (r.0, r.1.push(s.last()))
        } else if r.1.len() > 0 {
            (r.0.push(r.1), Seq::empty())
        } else {
            r
        }
    }
}

/// The maximal runs of letters, digits and `_` in `s`, in order.
pub open spec fn word_runs(s: Seq<char>) -> Seq<Seq<char>> {
    let r = runs_acc(s);
    if r.1.len() > 0 {
        r.0.push(r.1)
    } else {
        r.0
    }
}

/// Every three consecutive tokens joined by single spaces.
pub open spec fn trigrams(t: Seq<Seq<char>>) -> Seq<Seq<char>> {
    if t.len() < 3 {
        Seq::empty()
    } else {
        Seq::new((t.len() - 2) as nat, |i: int| t[i] + seq![' '] + t[i + 1] + seq![' '] + t[i + 2])
    }
}

/// A structural fingerprint of code: the kind trigrams of its tree when there is a tree and
/// it gives any, else the token trigrams of its word runs.
pub open spec fn ngrams(tree: Option<Syn>, code: Seq<char>) -> Seq<Seq<char>> {
    match tree {
        Some(t) if kind_paths(t, Seq::empty()).len() > 0 => kind_paths(t, Seq::empty()),
        _ => trigrams(word_runs(code)),
    }
}

/// Adds the kind trigrams of `n` under the ancestor kinds `stack` to `out` (see
/// [`kind_paths`]); `stack` is as it was when done.
fn collect_kind_paths(n: &Syn, stack: &mut Vec<Vec<char>>, out: &mut Vec<String>)
    ensures
        strs(final(out)@) == strs(old(out)@) + kind_paths(*n, views(old(stack)@)),
        views(final(stack)@) == views(old(stack)@),
    decreases n,
{
    let ghost s0 = views(stack@);
    let ghost o0 = strs(out@);
    stack.push(chars_of(n.kind.as_str()));
    let ghost st = views(stack@);
    assert(st =~= s0.push(n.kind@));
    let k = stack.len();
    let ghost head: Seq<Seq<char>> = if st.len() >= 3 {
        seq![path3(st[st.len() - 3], st[st.len() - 2], st[st.len() - 1])]
    } else {
        Seq::empty()
    };
    if k >= 3 {
        let mut t: Vec<char> = Vec::new();
        let mut a = crate::text::copy_chars(stack[k - 3].as_slice());
        t.append(&mut a);
        t.push('>');
        let mut b = crate::text::copy_chars(stack[k - 2].as_slice());
        t.append(&mut b);
        t.push('>');
        let mut c = crate::text::copy_chars(stack[k - 1].as_slice());
        t.append(&mut c);
        assert(t@ =~= path3(st[st.len() - 3], st[st.len() - 2], st[st.len() - 1]));
        let ghost before = out@;
        out.push(string_of(t.as_slice()));
        assert(strs(out@) =~= strs(before).push(t@));
    }
    assert(strs(out@) =~= o0 + head);
    let mut i: usize = 0;
    assert(n.children@.take(0) =~= Seq::<Syn>::empty());
    while i < n.children.len()
        invariant
            i <= n.children@.len(),
            views(stack@) == st,
            strs(out@) == o0 + head + kind_paths_all(n.children@.take(i as int), st),
        decreases n.children@.len() - i,
    {
        proof {
            assert(n.children@.take(i + 1).drop_last() =~= n.children@.take(i as int));
            assert(n.children@.take(i + 1).last() == n.children@[i as int]);
        }
        if n.children[i].named {
            let ghost before = strs(out@);
            collect_kind_paths(&n.children[i], stack, out);
            assert(o0 + head + kind_paths_all(n.children@.take(i + 1), st) =~= before + kind_paths(
                n.children@[i as int],
                st,
            ));
        }
        i = i + 1;
    }
    assert(n.children@.take(i as int) =~= n.children@);
    let ghost sv = stack@;
    assert(views(sv).len() == sv.len());
    stack.pop();
    assert(stack@ =~= sv.drop_last());
    assert forall|q: int| 0 <= q < s0.len() implies views(stack@)[q] == s0[q] by {
        assert(views(sv)[q] == st[q]);
        assert(st[q] == s0[q]);
    }
    assert(views(stack@) =~= s0);
    assert(o0 + head + kind_paths_all(n.children@, st) =~= o0 + kind_paths(*n, s0));
}

/// The word runs of `s` (see [`word_runs`]).
fn split_runs(s: &[char]) -> (r: Vec<Vec<char>>)
    ensures
        views(r@) == word_runs(s@),
{
    let mut done: Vec<Vec<char>> = Vec::new();
    let mut cur: Vec<char> = Vec::new();
    let mut i: usize = 0;
    assert(s@.take(0) =~= Seq::<char>::empty());
    while i < s.len()
        invariant
            i <= s@.len(),
            (views(done@), cur@) == runs_acc(s@.take(i as int)),
        decreases s@.len() - i,
    {
        proof {
            assert(s@.take(i + 1).drop_last() =~= s@.take(i as int));
            assert(s@.take(i + 1).last() == s@[i as int]);
        }
        let c = s[i];
        if crate::text::is_alphanumeric(c) || c == '_' {
            cur.push(c);
        } else if cur.len() > 0 {
            let ghost before = done@;
            let piece = cur;
            done.push(piece);
            assert(views(done@) =~= views(before).push(piece@));
            cur = Vec::new();
            assert(cur@ =~= Seq::<char>::empty());
        }
        i = i + 1;
    }
    assert(s@.take(i as int) =~= s@);
    if cur.len() > 0 {
        let ghost before = done@;
        let ghost cv = cur@;
        done.push(cur);
        assert(views(done@) =~= views(before).push(cv));
    }
    done
}

/// The token trigrams of `t` (see [`trigrams`]).
fn token_trigrams(t: &Vec<Vec<char>>) -> (r: Vec<String>)
    ensures
        strs(r@) == trigrams(views(t@)),
{
    let mut out: Vec<String> = Vec::new();
    if t.len() < 3 {
        assert(strs(out@) =~= trigrams(views(t@)));
        return out;
    }
    let mut i: usize = 0;
    while i < t.len() - 2
        invariant
            t@.len() >= 3,
            i <= t@.len() - 2,
            strs(out@) =~= trigrams(views(t@)).take(i as int),
        decreases t@.len() - i,
    {
        let mut w: Vec<char> = crate::text::copy_chars(t[i].as_slice());
        w.push(' ');
        let mut b = crate::text::copy_chars(t[i + 1].as_slice());
        w.append(&mut b);
        w.push(' ');
        let mut c = crate::text::copy_chars(t[i + 2].as_slice());
        w.append(&mut c);
        let ghost before = strs(out@);
        out.push(string_of(w.as_slice()));
        assert(strs(out@) =~= before.push(w@));
        assert(views(t@)[i as int] == t@[i as int]@);
        assert(views(t@)[i + 1] == t@[i + 1]@);
        assert(views(t@)[i + 2] == t@[i + 2]@);
        assert(trigrams(views(t@))[i as int] =~= w@);
        assert(trigrams(views(t@)).take(i + 1) =~= trigrams(views(t@)).take(i as int).push(w@));
        i = i + 1;
    }
    assert(trigrams(views(t@)).take(i as int) =~= trigrams(views(t@)));
    out
}

/// The structural fingerprint of `code` given its parse tree, if any (see [`ngrams`]).
pub fn ngrams_of(tree: Option<&Syn>, code: &str) -> (r: Vec<String>)
    ensures
        strs(r@) == ngrams(opt_syn(tree), code@),
{
    if let Some(t) = tree {
        let mut stack: Vec<Vec<char>> = Vec::new();
        let mut out: Vec<String> = Vec::new();
        assert(views(stack@) =~= Seq::<Seq<char>>::empty());
        assert(strs(out@) =~= Seq::<Seq<char>>::empty());
        collect_kind_paths(t, &mut stack, &mut out);
        assert(strs(out@) =~= kind_paths(*t, Seq::empty()));
        if out.len() > 0 {
            return out;
        }
    }
    let runs = split_runs(chars_of(code).as_slice());
    token_trigrams(&runs)
}

/// A structural fingerprint of `code` in `lang`: node-kind path trigrams (grandparent,
/// parent, node kinds) of its parse under the bundled grammar, else the token trigrams of
/// its word runs (see [`ngrams_of`]): the fingerprint of the parse of `code` (see
/// [`parsed`]).
pub fn code_ngrams(lang: &str, code: &str) -> (r: Vec<String>)
    ensures
        !crate::select::bundled_names().contains(lang@) ==> strs(r@) == ngrams(None, code@),
        exists|t: Option<Syn>| is_parse(t, lang@, code@, usize::MAX as int) && strs(r@) == #[trigger] ngrams(t, code@),
{
    let tree = parse(lang, code);
    match &tree {
        Some(t) => ngrams_of(Some(t), code),
        None => ngrams_of(None, code),
    }
}

// ── Token roles ──────────────────────────────────────────────────────────────

/// tree-sitter's `Language::id_for_node_kind` on `g`'s grammar: the numeric id it gives the
/// node kind spelled `kind`, named or anonymous as `named` says, or 0 (named
/// [`grammar_kind_id`]).
#[verifier::external_body]
fn kind_id(g: &Grammar, kind: &str, named: bool) -> (r: u16)
    ensures
        r == grammar_kind_id(g@, kind@, named),
{
    g.language.id_for_node_kind(kind, named)
}

/// tree-sitter's `Language::node_kind_count` on `g`'s grammar (named
/// [`grammar_kind_count`]).
#[verifier::external_body]
fn kind_count(g: &Grammar) -> (r: usize)
    ensures
        r == grammar_kind_count(g@),
{
    g.language.node_kind_count()
}

/// One step of the covering search over a tree: `n` replaces `found` when it is named, its
/// text is `token` and it starts no earlier than `found`.
pub open spec fn cover_step(found: Option<Syn>, n: Syn, token: Seq<char>) -> Option<Syn> {
    if n.named && n.text@ == token && (found is None || n.start >= found->0.start) {
        Some(n)
    } else {
        found
    }
}

/// The covering search over `n` and its subtrees, node before children and children from
/// the last to the first: of the named nodes whose text is `token`, the last one reached
/// that starts at the latest byte — the deepest node at the latest position.
pub open spec fn cover(n: Syn, token: Seq<char>, found: Option<Syn>) -> Option<Syn>
    decreases n,
{
    cover_all(n.children@, token, cover_step(found, n, token))
}

/// The covering search over the trees `cs`, from the last to the first.
pub open spec fn cover_all(cs: Seq<Syn>, token: Seq<char>, found: Option<Syn>) -> Option<Syn>
    decreases cs,
{
    if cs.len() == 0 {
        found
    } else {
        cover_all(cs.drop_last(), token, cover(cs.last(), token, found))
    }
}

/// The covering search over `n` (see [`cover`]).
fn covering<'a>(n: &'a Syn, token: &[char], found: Option<&'a Syn>) -> (r: Option<&'a Syn>)
    ensures
        opt_syn(r) == cover(*n, token@, opt_syn(found)),
    decreases n,
{
    let mut f = found;
    if n.named && chars_eq(chars_of(n.text.as_str()).as_slice(), token) {
        let later = match f {
            Some(g) => n.start >= g.start,
            None => true,
        };
        if later {
            f = Some(n);
        }
    }
    assert(opt_syn(f) == cover_step(opt_syn(found), *n, token@));
    let mut i: usize = n.children.len();
    assert(n.children@.take(i as int) =~= n.children@);
    while i > 0
        invariant
            i <= n.children@.len(),
            cover(*n, token@, opt_syn(found)) == cover_all(n.children@.take(i as int), token@, opt_syn(f)),
        decreases i,
    {
        proof {
            assert(n.children@.take(i as int).drop_last() =~= n.children@.take(i - 1));
            assert(n.children@.take(i as int).last() == n.children@[i - 1]);
        }
        f = covering(&n.children[i - 1], token, f);
        i = i - 1;
    }
    f
}

/// Whether a node kind is a primitive type.
pub open spec fn primitive_kind(k: Seq<char>) -> bool {
    contains_seq(k, "primitive"@) || k == "primitive_type"@
}

/// The grammatical role of `token` read from a grammar: `"keyword"` when the grammar's
/// anonymous-token id for it is nonzero and below its kind count; else `"primitive_type"`
/// when in some probe tree (the token parsed in a type position) the covering node (see
/// [`cover`]) is of a primitive kind; else none.
pub open spec fn role(kw: u16, count: usize, probes: Seq<Option<Syn>>, token: Seq<char>) -> Option<Seq<char>> {
    if kw != 0 && (kw as int) < count {
        Some("keyword"@)
    } else if exists|i: int| 0 <= i < probes.len() && #[trigger] probe_primitive(probes[i], token) {
        Some("primitive_type"@)
    } else {
        None
    }
}

/// Whether in the probe tree `p` the node covering `token` is of a primitive kind.
pub open spec fn probe_primitive(p: Option<Syn>, token: Seq<char>) -> bool {
    match p {
        Some(t) => match cover(t, token, None) {
            Some(c) => primitive_kind(c.kind@),
            None => false,
        },
        None => false,
    }
}

/// An optional string as characters.
pub open spec fn opt_str(r: Option<&str>) -> Option<Seq<char>> {
    match r {
        Some(s) => Some(s@),
        None => None,
    }
}

/// The role of `token` given the grammar's anonymous-token id `kw` and kind count `count`
/// for it, and the probe trees of the token in type positions (see [`role`]).
pub fn role_of(kw: u16, count: usize, probes: &Vec<Option<Syn>>, token: &str) -> (r: Option<&'static str>)
    ensures
        opt_str(r) == role(kw, count, probes@, token@),
{
    if kw != 0 && (kw as usize) < count {
        return Some("keyword");
    }
    let tk = chars_of(token);
    let mut i: usize = 0;
    while i < probes.len()
        invariant
            i <= probes@.len(),
            tk@ == token@,
            !(kw != 0 && (kw as int) < count),
            forall|q: int| 0 <= q < i ==> !#[trigger] probe_primitive(probes@[q], token@),
        decreases probes@.len() - i,
    {
        if let Some(t) = &probes[i] {
            if let Some(c) = covering(t, tk.as_slice(), None) {
                let k = chars_of(c.kind.as_str());
                if contains(k.as_slice(), chars_of("primitive").as_slice()) || kind_is(k.as_slice(), "primitive_type") {
                    assert(probe_primitive(probes@[i as int], token@));
                    return Some("primitive_type");
                }
            }
        }
        i = i + 1;
    }
    None
}

/// `prefix`, `token` and `suffix` concatenated.
fn splice(prefix: &str, token: &str, suffix: &str) -> (r: String)
    ensures
        r@ == prefix@ + token@ + suffix@,
{
    let mut v = chars_of(prefix);
    let mut t = chars_of(token);
    let mut s = chars_of(suffix);
    v.append(&mut t);
    v.append(&mut s);
    string_of(v.as_slice())
}

/// The three sources `token` is probed in, in a type position.
pub open spec fn probe_sources(token: Seq<char>) -> Seq<Seq<char>> {
    seq!["type __probe = "@ + token + ";"@, "let __probe: "@ + token + " = x;"@, ""@ + token + " __probe;"@]
}

/// Whether `probes` are the parses of `token`'s probe sources in `lang` (see [`parsed`]).
pub open spec fn probes_of(lang: Seq<char>, token: Seq<char>, probes: Seq<Option<Syn>>) -> bool {
    probes.len() == 3 && forall|k: int|
        0 <= k < 3 ==> #[trigger] is_parse(probes[k], lang, probe_sources(token)[k], usize::MAX as int)
}

/// Whether the bundled grammar of `lang` has `token` as an anonymous (keyword) token: its
/// id for it is nonzero and below its kind count.
pub open spec fn keyword_in(lang: Seq<char>, token: Seq<char>) -> bool {
    grammar_kind_id(lang, token, false) != 0 && (grammar_kind_id(lang, token, false) as int) < grammar_kind_count(
        lang,
    )
}

/// The role `lang`'s bundled grammar gives `token`, given the probe trees `probes`: none
/// without a bundled grammar, else [`role`] over the grammar's kind id and kind count.
pub open spec fn lang_role(lang: Seq<char>, token: Seq<char>, probes: Seq<Option<Syn>>) -> Option<Seq<char>> {
    if !crate::select::bundled_names().contains(lang) {
        None
    } else {
        role(grammar_kind_id(lang, token, false), grammar_kind_count(lang), probes, token)
    }
}

/// The grammatical role the bundled grammar of `lang` gives `token` (see [`lang_role`]):
/// `"keyword"` for an anonymous token of the grammar, `"primitive_type"` for a built-in type
/// the grammar lexes as such in one of the probe sources (see [`probe_sources`]), or `None`
/// for a nameable identifier; `None` for a language without a bundled grammar. The probes
/// are the parses of the probe sources whenever they are read.
pub fn token_role(lang: &str, token: &str) -> (r: Option<&'static str>)
    ensures
        !crate::select::bundled_names().contains(lang@) ==> r is None,
        exists|probes: Seq<Option<Syn>>|
            (crate::select::bundled_names().contains(lang@) && !keyword_in(lang@, token@) ==> probes_of(
                lang@,
                token@,
                probes,
            )) && opt_str(r) == #[trigger] lang_role(lang@, token@, probes),
{
    let ts = match grammar(lang) {
        Some(l) => l,
        None => {
            assert(lang_role(lang@, token@, Seq::empty()) is None);
            return None;
        },
    };
    let kw = kind_id(&ts, token, false);
    let count = kind_count(&ts);
    if kw != 0 && (kw as usize) < count {
        let r = role_of(kw, count, &Vec::new(), token);
        assert(opt_str(r) == lang_role(lang@, token@, Seq::empty()));
        return r;
    }
    let mut probes: Vec<Option<Syn>> = Vec::new();
    let s0 = splice("type __probe = ", token, ";");
    let s1 = splice("let __probe: ", token, " = x;");
    let s2 = splice("", token, " __probe;");
    probes.push(parse(lang, s0.as_str()));
    probes.push(parse(lang, s1.as_str()));
    probes.push(parse(lang, s2.as_str()));
    assert(probe_sources(token@)[0] == s0@);
    assert(probe_sources(token@)[1] == s1@);
    assert(probe_sources(token@)[2] == s2@);
    assert(probes_of(lang@, token@, probes@));
    let r = role_of(kw, count, &probes, token);
    assert(opt_str(r) == lang_role(lang@, token@, probes@));
    r
}


/// Whether the bundled grammar of `lang` gives `token` no role, its probes read as parsed
/// (see [`lang_role`]).
pub open spec fn gives_no_role(lang: Seq<char>, token: Seq<char>) -> bool {
    exists|probes: Seq<Option<Syn>>|
        (!keyword_in(lang, token) ==> probes_of(lang, token, probes)) && #[trigger] lang_role(lang, token, probes)
            is None
}

/// Whether any bundled grammar gives `token` a role (see [`token_role`]): a word the
/// grammars themselves read as syntax names a construct, not prose.
pub fn is_construct_keyword(token: &str) -> (r: bool)
    ensures
        r ==> exists|i: int, probes: Seq<Option<Syn>>|
            0 <= i < crate::select::bundled_names().len() && (!keyword_in(crate::select::bundled_names()[i], token@)
                ==> probes_of(crate::select::bundled_names()[i], token@, probes)) && #[trigger] lang_role(
                crate::select::bundled_names()[i],
                token@,
                probes,
            ) is Some,
        !r ==> forall|i: int|
            0 <= i < crate::select::bundled_names().len() ==> #[trigger] gives_no_role(
                crate::select::bundled_names()[i],
                token@,
            ),
{
    let names = vec!["rust", "python", "javascript", "typescript", "tsx", "go", "java", "ruby", "c", "bash"];
    assert(names@.map_values(|n: &str| n@) =~= crate::select::bundled_names());
    let mut i: usize = 0;
    while i < names.len()
        invariant
            i <= names@.len(),
            names@.map_values(|n: &str| n@) == crate::select::bundled_names(),
            forall|q: int| 0 <= q < i ==> #[trigger] gives_no_role(crate::select::bundled_names()[q], token@),
        decreases names@.len() - i,
    {
        assert(names@[i as int]@ == crate::select::bundled_names()[i as int]);
        assert(crate::select::bundled_names().contains(names@[i as int]@));
        if token_role(names[i], token).is_some() {
            return true;
        }
        i = i + 1;
    }
    false
}

} // verus!
