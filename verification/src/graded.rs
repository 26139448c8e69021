//! The graded firing forms of a language's revoked constructs: for each construct the
//! reader retained whose documentation revokes it, a flood-safe form to fire at low
//! severity, kept only where the language's own code corpus shows it safe. The planner's
//! answers (whether a form fires on a block) come in as plain values.

use vstd::prelude::*;
use crate::module::{
    construct_in_text, construct_in_text_spec, construct_scan, lemma_split_all_nonempty, part_ok, qualified_safe,
    qualified_safe_spec, read_views, slug, split_all, terminal, url_payload, url_payload_equals, Candidate, ReadConstruct, ReadV,
};
use crate::text::{
    after_last, append_chars, byte_len, byte_len_at_least, chars_eq, chars_of, chars_of_all, find_from, holds,
    lemma_find_from, string_of, tail_after_last, views,
};

verus! {

broadcast use vstd::string::group_string_axioms;

/// A graded firing form: the construct form that fires, the finding's severity, its text,
/// and the page it rests on.
pub struct GradedForm {
    pub fire: String,
    pub severity: String,
    pub description: String,
    pub source: String,
}

/// A graded form as plain values: (fire, severity, description, source).
pub type FormV = (Seq<char>, Seq<char>, Seq<char>, Seq<char>);

impl View for GradedForm {
    type V = FormV;

    open spec fn view(&self) -> FormV {
        (self.fire@, self.severity@, self.description@, self.source@)
    }
}

/// Graded forms keyed by construct, as plain values.
pub open spec fn forms_view(v: Seq<(String, GradedForm)>) -> Seq<(Seq<char>, FormV)> {
    v.map_values(|p: (String, GradedForm)| (p.0@, p.1@))
}

// ── The gates ────────────────────────────────────────────────────────────────

/// The doc-role `roles` give `c`: the first entry keyed by `c`.
pub open spec fn role_get(roles: Seq<(Seq<char>, Seq<char>)>, c: Seq<char>) -> Option<Seq<char>>
    decreases roles.len(),
{
    if roles.len() == 0 {
        None
    } else if roles[0].0 == c {
        Some(roles[0].1)
    } else {
        role_get(roles.drop_first(), c)
    }
}

/// The role word a finding cites: the construct's role, else `deprecated`.
pub open spec fn role_word(roles: Seq<(Seq<char>, Seq<char>)>, c: Seq<char>) -> Seq<char> {
    match role_get(roles, c) {
        Some(k) => k,
        None => "deprecated"@,
    }
}

/// A doc-role that revokes a construct.
pub open spec fn revoking(k: Seq<char>) -> bool {
    k == "deprecated"@ || k == "removal"@ || k == "prohibition"@
}

/// Whether a read construct is revoked: its page attests deprecation, or its role revokes it.
pub open spec fn revoked(r: ReadV, roles: Seq<(Seq<char>, Seq<char>)>) -> bool {
    r.3 || (role_get(roles, r.0) matches Some(k) && revoking(k))
}

/// The receiver-generic form of a construct: `.` and its terminal dotted segment.
pub open spec fn member_form(c: Seq<char>) -> Seq<char> {
    seq!['.'] + after_last(c, '.')
}

/// Whether `form` occurs in a corpus block from a page other than `url`.
pub open spec fn used_elsewhere(code: Seq<(Seq<char>, Seq<char>)>, url: Seq<char>, form: Seq<char>) -> bool {
    exists|j: int| 0 <= j < code.len() && (#[trigger] code[j]).0 != url && construct_in_text_spec(code[j].1, form) == Some(true)
}

/// Whether the planner answered that `form` fires on `blk`.
pub open spec fn fires_on(fires: Seq<(Seq<char>, Seq<char>, bool)>, form: Seq<char>, blk: Seq<char>) -> bool {
    exists|i: int| 0 <= i < fires.len() && (#[trigger] fires[i]).0 == form && fires[i].1 == blk && fires[i].2
}

/// Whether `form` fires on some block of page `url`.
pub open spec fn fires_own(code: Seq<(Seq<char>, Seq<char>)>, fires: Seq<(Seq<char>, Seq<char>, bool)>, url: Seq<char>, form: Seq<char>) -> bool {
    exists|j: int| 0 <= j < code.len() && (#[trigger] code[j]).0 == url && fires_on(fires, form, code[j].1)
}

/// Whether `form` fires on a block of another page than `url` that carries it.
pub open spec fn flags_clean(code: Seq<(Seq<char>, Seq<char>)>, fires: Seq<(Seq<char>, Seq<char>, bool)>, url: Seq<char>, form: Seq<char>) -> bool {
    exists|j: int| 0 <= j < code.len() && (#[trigger] code[j]).0 != url && construct_in_text_spec(code[j].1, form) == Some(
        true,
    ) && fires_on(fires, form, code[j].1)
}

/// A qualified revoked candidate: the read construct, its receiver-generic form, and
/// whether that form is dead in the corpus (absent from every other page's code).
pub type CandV = (ReadV, Seq<char>, bool);

/// The qualified revoked candidates among `xs`, in order.
pub open spec fn cands(xs: Seq<ReadV>, roles: Seq<(Seq<char>, Seq<char>)>, code: Seq<(Seq<char>, Seq<char>)>) -> Seq<CandV>
    decreases xs.len(),
{
    if xs.len() == 0 {
        Seq::empty()
    } else {
        let rest = cands(xs.drop_last(), roles, code);
        let r = xs.last();
        if revoked(r, roles) && qualified_safe_spec(r.0) {
            rest.push((r, member_form(r.0), !used_elsewhere(code, r.2, member_form(r.0))))
        } else {
            rest
        }
    }
}

/// Whether the corpus witnesses life: some candidate's receiver-generic form is alive.
pub open spec fn discriminates(cs: Seq<CandV>) -> bool {
    exists|i: int| 0 <= i < cs.len() && !(#[trigger] cs[i]).2
}

/// The distinct page urls of a corpus, in order of first appearance.
pub open spec fn urls_of(code: Seq<(Seq<char>, Seq<char>)>) -> Seq<Seq<char>>
    decreases code.len(),
{
    if code.len() == 0 {
        Seq::empty()
    } else {
        let u = urls_of(code.drop_last());
        if u.contains(code.last().0) {
            u
        } else {
            u.push(code.last().0)
        }
    }
}

/// The decimal digits of `n`.
pub open spec fn decimal(n: nat) -> Seq<char>
    decreases n,
{
    let d = seq!['0', '1', '2', '3', '4', '5', '6', '7', '8', '9'];
    if n < 10 {
        seq![d[n as int]]
    } else {
        decimal(n / 10).push(d[(n % 10) as int])
    }
}

/// The index of the entry keyed by `k`, or -1.
pub open spec fn key_index(out: Seq<(Seq<char>, FormV)>, k: Seq<char>) -> int
    decreases out.len(),
{
    if out.len() == 0 {
        -1
    } else if key_index(out.drop_last(), k) >= 0 {
        key_index(out.drop_last(), k)
    } else if out.last().0 == k {
        out.len() - 1
    } else {
        -1
    }
}

/// `out` with `k` mapped to `v`: its entry replaced, else appended.
pub open spec fn insert_form(out: Seq<(Seq<char>, FormV)>, k: Seq<char>, v: FormV) -> Seq<(Seq<char>, FormV)> {
    let i = key_index(out, k);
    if i >= 0 {
        out.update(i, (k, v))
    } else {
        out.push((k, v))
    }
}

/// What the graded forms are computed from.
pub struct GradeIn {
    pub roles: Seq<(Seq<char>, Seq<char>)>,
    pub proven: Seq<Seq<char>>,
    pub code: Seq<(Seq<char>, Seq<char>)>,
    pub fires: Seq<(Seq<char>, Seq<char>, bool)>,
    pub disc: bool,
}

/// The finding's text for a qualified candidate.
pub open spec fn qualified_text(c: CandV, trusted: bool, g: GradeIn) -> Seq<char> {
    let r = c.0;
    let basis = if trusted {
        "its member `"@ + c.1 + "` is absent from the corpus's "@ + decimal(urls_of(g.code).len())
            + " current example pages (usage-dead)"@
    } else {
        "fires only on the exact deprecated `"@ + r.0 + "` form"@
    };
    "Do not use `"@ + r.0 + "`: documented "@ + role_word(g.roles, r.0) + " \u{27e8}"@ + r.2 + "\u{27e9} \u{2014} "@ + basis
        + "."@
}

/// The forms `out` after candidate `c` is graded: its fire form is the receiver-generic one
/// when its death is trusted (dead, in a corpus that witnesses life), else the construct
/// itself; it is skipped when a proven rule covers it, when (off an item-route page) it
/// fires on none of its own page's blocks, or when it fires on another page's block.
pub open spec fn qualified_step(out: Seq<(Seq<char>, FormV)>, c: CandV, g: GradeIn) -> Seq<(Seq<char>, FormV)> {
    let r = c.0;
    let trusted = c.2 && g.disc;
    let fire = if trusted {
        c.1
    } else {
        r.0
    };
    if g.proven.contains(fire) || g.proven.contains(r.0) || g.proven.contains(c.1) {
        out
    } else if !(r.3 && !r.4) && !fires_own(g.code, g.fires, r.2, fire) {
        out
    } else if flags_clean(g.code, g.fires, r.2, fire) {
        out
    } else {
        insert_form(out, r.0, (fire, "low"@, qualified_text(c, trusted, g), r.2))
    }
}

/// The forms after the first `upto` candidates are graded.
pub open spec fn qualified_forms(cs: Seq<CandV>, g: GradeIn, upto: int) -> Seq<(Seq<char>, FormV)>
    decreases upto,
{
    if upto <= 0 || upto > cs.len() {
        Seq::empty()
    } else {
        qualified_step(qualified_forms(cs, g, upto - 1), cs[upto - 1], g)
    }
}

/// The element candidates: the read constructs and the ungraduated proposals whose page
/// states the deprecation page-wide and writes the subject as an element, as (construct,
/// url).
pub open spec fn element_cands(xs: Seq<ReadV>, failed: Seq<Candidate>) -> Seq<(Seq<char>, Seq<char>)> {
    elements_read(xs) + elements_failed(failed)
}

/// See [`element_cands`].
pub open spec fn elements_read(xs: Seq<ReadV>) -> Seq<(Seq<char>, Seq<char>)>
    decreases xs.len(),
{
    if xs.len() == 0 {
        Seq::empty()
    } else if xs.last().4 && xs.last().5 {
        elements_read(xs.drop_last()).push((xs.last().0, xs.last().2))
    } else {
        elements_read(xs.drop_last())
    }
}

/// See [`element_cands`].
pub open spec fn elements_failed(cs: Seq<Candidate>) -> Seq<(Seq<char>, Seq<char>)>
    decreases cs.len(),
{
    if cs.len() == 0 {
        Seq::empty()
    } else if cs.last().page_scope && cs.last().element_typography {
        elements_failed(cs.drop_last()).push((cs.last().construct@, cs.last().url@))
    } else {
        elements_failed(cs.drop_last())
    }
}

/// The finding's text for an element-shaped form.
pub open spec fn element_text(c: Seq<char>, url: Seq<char>, g: GradeIn) -> Seq<char> {
    "Do not use `<"@ + c + ">`: documented "@ + role_word(g.roles, c) + " \u{27e8}"@ + url
        + "\u{27e9} \u{2014} fires only at tag position, the element itself."@
}

/// The element tag form of a bare construct.
pub open spec fn tag_form(c: Seq<char>) -> Seq<char> {
    "<"@ + c + ">"@
}

/// The minimal demonstration of an element.
pub open spec fn tag_demo(c: Seq<char>) -> Seq<char> {
    "<"@ + c + ">x</"@ + c + ">"@
}

/// The forms `out` after the element candidate `(c, url)` is graded: a bare construct not
/// graded yet, at least two bytes long, with no dot and not starting with `:` or `<`, whose
/// page's URL subject it is, fires as its element tag when no proven rule covers it and the
/// planner fires that tag on the element's minimal demonstration.
pub open spec fn element_step(out: Seq<(Seq<char>, FormV)>, e: (Seq<char>, Seq<char>), g: GradeIn) -> Seq<(Seq<char>, FormV)> {
    let c = e.0;
    let url = e.1;
    if key_index(out, c) >= 0 || c.contains('.') || (c.len() > 0 && c[0] == ':') || (c.len() > 0 && c[0] == '<')
        || byte_len(c) < 2 || !(slug(terminal(c)).len() > 0 && url_payload(url) == slug(terminal(c))) {
        out
    } else if g.proven.contains(tag_form(c)) || g.proven.contains(c) {
        out
    } else if !fires_on(g.fires, tag_form(c), tag_demo(c)) {
        out
    } else {
        insert_form(out, c, (tag_form(c), "low"@, element_text(c, url, g), url))
    }
}

/// The forms after the first `upto` element candidates are graded, from `base`.
pub open spec fn element_forms(es: Seq<(Seq<char>, Seq<char>)>, g: GradeIn, base: Seq<(Seq<char>, FormV)>, upto: int) -> Seq<
    (Seq<char>, FormV),
>
    decreases upto,
{
    if upto <= 0 || upto > es.len() {
        base
    } else {
        element_step(element_forms(es, g, base, upto - 1), es[upto - 1], g)
    }
}

/// The inputs of grading, with the corpus's life witness.
pub open spec fn grade_in(
    xs: Seq<ReadV>,
    roles: Seq<(Seq<char>, Seq<char>)>,
    proven: Seq<Seq<char>>,
    code: Seq<(Seq<char>, Seq<char>)>,
    fires: Seq<(Seq<char>, Seq<char>, bool)>,
) -> GradeIn {
    GradeIn { roles, proven, code, fires, disc: discriminates(cands(xs, roles, code)) }
}

/// The graded forms of a language: the qualified tier over the read constructs, then the
/// element tier over the element candidates.
pub open spec fn graded_spec(
    xs: Seq<ReadV>,
    failed: Seq<Candidate>,
    roles: Seq<(Seq<char>, Seq<char>)>,
    proven: Seq<Seq<char>>,
    code: Seq<(Seq<char>, Seq<char>)>,
    fires: Seq<(Seq<char>, Seq<char>, bool)>,
) -> Seq<(Seq<char>, FormV)> {
    let cs = cands(xs, roles, code);
    let g = grade_in(xs, roles, proven, code, fires);
    let q = qualified_forms(cs, g, cs.len() as int);
    let es = element_cands(xs, failed);
    element_forms(es, g, q, es.len() as int)
}


// ── Lemmas ───────────────────────────────────────────────────────────────────

proof fn lemma_split_first(s: Seq<char>, sep: char)
    ensures
        split_all(s, sep)[0].len() <= s.len(),
        split_all(s, sep)[0] == s.take(split_all(s, sep)[0].len() as int),
        split_all(s, sep).len() == 1 ==> split_all(s, sep)[0] == s,
    decreases s.len(),
{
    lemma_split_all_nonempty(s, sep);
    if s.len() > 0 {
        let init = split_all(s.drop_last(), sep);
        lemma_split_first(s.drop_last(), sep);
        lemma_split_all_nonempty(s.drop_last(), sep);
        if s.last() == sep {
            assert(split_all(s, sep)[0] == init[0]);
            assert(s.drop_last().take(init[0].len() as int) =~= s.take(init[0].len() as int));
        } else if init.len() == 1 {
            assert(split_all(s, sep)[0] == init[0].push(s.last()));
            assert(init[0] == s.drop_last());
            assert(s.drop_last().push(s.last()) =~= s);
            assert(s.take(s.len() as int) =~= s);
        } else {
            assert(split_all(s, sep)[0] == init[0]);
            assert(s.drop_last().take(init[0].len() as int) =~= s.take(init[0].len() as int));
        }
    } else {
        assert(split_all(s, sep)[0] =~= Seq::<char>::empty());
        assert(s.take(0) =~= Seq::<char>::empty());
    }
}

proof fn lemma_ascii_scan(code: Seq<char>, c: Seq<char>, from: int)
    requires
        c.len() > 0,
        (c[0] as u32) < 128,
        0 <= from,
    ensures
        construct_scan(code, c, from) is Some,
    decreases code.len() + 1 - from,
{
    let start = find_from(code, c, from);
    lemma_find_from(code, c, from);
    if start >= 0 {
        assert(code.subrange(start, start + c.len())[0] == code[start]);
        lemma_ascii_scan(code, c, start + 1);
    }
}

/// A qualified-safe construct never stops the code scan mid-character.
proof fn lemma_qualified_scans(code: Seq<char>, c: Seq<char>)
    requires
        qualified_safe_spec(c),
    ensures
        construct_in_text_spec(code, c) is Some,
{
    let parts = split_all(c, '.');
    lemma_split_first(c, '.');
    assert(part_ok(parts[0]));
    assert(parts[0][0] == c[0]);
    lemma_ascii_scan(code, c, 0);
}

proof fn lemma_key_index(s: Seq<(Seq<char>, FormV)>, k: Seq<char>)
    ensures
        -1 <= key_index(s, k) < s.len(),
        key_index(s, k) >= 0 ==> s[key_index(s, k)].0 == k,
        key_index(s, k) >= 0 ==> forall|j: int| 0 <= j < key_index(s, k) ==> s[j].0 != k,
        key_index(s, k) < 0 ==> forall|j: int| 0 <= j < s.len() ==> s[j].0 != k,
    decreases s.len(),
{
    if s.len() > 0 {
        lemma_key_index(s.drop_last(), k);
        assert forall|j: int| 0 <= j < s.len() - 1 implies s.drop_last()[j] == s[j] by {}
    }
}

// ── Small readers ────────────────────────────────────────────────────────────

/// The doc-role `roles` give `c` (see [`role_get`]).
fn role_get_exec(roles: &[(String, String)], c: &[char]) -> (r: Option<Vec<char>>)
    ensures
        match r {
            Some(k) => role_get(roles.deep_view(), c@) == Some(k@),
            None => role_get(roles.deep_view(), c@) is None,
        },
{
    let ghost rv = roles.deep_view();
    let mut i: usize = 0;
    assert(rv.skip(0) =~= rv);
    while i < roles.len()
        invariant
            i <= roles@.len(),
            rv == roles.deep_view(),
            rv.len() == roles@.len(),
            role_get(rv, c@) == role_get(rv.skip(i as int), c@),
        decreases roles@.len() - i,
    {
        let k = chars_of(roles[i].0.as_str());
        proof {
            assert(rv[i as int] == (roles@[i as int].0@, roles@[i as int].1@));
            assert(rv.skip(i as int)[0] == rv[i as int]);
            assert(rv.skip(i as int).drop_first() =~= rv.skip(i + 1));
        }
        if chars_eq(k.as_slice(), c) {
            return Some(chars_of(roles[i].1.as_str()));
        }
        i = i + 1;
    }
    assert(rv.skip(i as int) =~= Seq::<(Seq<char>, Seq<char>)>::empty());
    None
}

/// Whether a doc-role revokes (see [`revoking`]).
fn is_revoking(k: &[char]) -> (r: bool)
    ensures
        r == revoking(k@),
{
    let a = chars_of("deprecated");
    let b = chars_of("removal");
    let c = chars_of("prohibition");
    chars_eq(k, a.as_slice()) || chars_eq(k, b.as_slice()) || chars_eq(k, c.as_slice())
}

/// The role word a finding cites (see [`role_word`]).
fn role_word_exec(roles: &[(String, String)], c: &[char]) -> (r: Vec<char>)
    ensures
        r@ == role_word(roles.deep_view(), c@),
{
    match role_get_exec(roles, c) {
        Some(k) => k,
        None => chars_of("deprecated"),
    }
}

/// The receiver-generic form of a construct (see [`member_form`]).
fn member_form_exec(c: &[char]) -> (r: Vec<char>)
    ensures
        r@ == member_form(c@),
{
    let t = tail_after_last(c, '.');
    let mut out: Vec<char> = vec!['.'];
    append_chars(&mut out, t.as_slice());
    proof {
        assert(out@ =~= seq!['.'] + after_last(c@, '.'));
    }
    out
}

/// Whether the planner answered that `form` fires on `blk` (see [`fires_on`]).
fn fires_on_exec(fires: &[(String, String, bool)], form: &[char], blk: &[char]) -> (r: bool)
    ensures
        r == fires_on(fires.deep_view(), form@, blk@),
{
    let ghost fv = fires.deep_view();
    let mut i: usize = 0;
    while i < fires.len()
        invariant
            i <= fires@.len(),
            fv == fires.deep_view(),
            fv.len() == fires@.len(),
            forall|k: int| 0 <= k < i ==> !((#[trigger] fv[k]).0 == form@ && fv[k].1 == blk@ && fv[k].2),
        decreases fires@.len() - i,
    {
        proof {
            assert(fv[i as int] == (fires@[i as int].0@, fires@[i as int].1@, fires@[i as int].2));
        }
        if fires[i].2 {
            let a = chars_of(fires[i].0.as_str());
            let b = chars_of(fires[i].1.as_str());
            if chars_eq(a.as_slice(), form) && chars_eq(b.as_slice(), blk) {
                return true;
            }
        }
        i = i + 1;
    }
    false
}

/// Whether `form` occurs in a block of a page other than `url` (see [`used_elsewhere`]),
/// or, with `own`, whether the planner fires `form` on a block of page `url` (see
/// [`fires_own`]), or, with `fired`, whether it fires on another page's block that carries
/// it (see [`flags_clean`]).
fn corpus_check(code: &[(String, String)], fires: &[(String, String, bool)], url: &[char], form: &str, own: bool, fired: bool) -> (r: bool)
    requires
        !own ==> forall|j: int| 0 <= j < code@.len() ==> construct_in_text_spec(#[trigger] code@[j].1@, form@) is Some,
    ensures
        own ==> r == fires_own(code.deep_view(), fires.deep_view(), url@, form@),
        !own && !fired ==> r == used_elsewhere(code.deep_view(), url@, form@),
        !own && fired ==> r == flags_clean(code.deep_view(), fires.deep_view(), url@, form@),
{
    let ghost cv = code.deep_view();
    let ghost fv = fires.deep_view();
    let fc = chars_of(form);
    let mut j: usize = 0;
    while j < code.len()
        invariant
            j <= code@.len(),
            cv == code.deep_view(),
            fv == fires.deep_view(),
            cv.len() == code@.len(),
            fc@ == form@,
            !own ==> forall|q: int| 0 <= q < code@.len() ==> construct_in_text_spec(#[trigger] code@[q].1@, form@) is Some,
            own ==> forall|q: int| 0 <= q < j ==> !((#[trigger] cv[q]).0 == url@ && fires_on(fv, form@, cv[q].1)),
            !own && !fired ==> forall|q: int| 0 <= q < j ==> !((#[trigger] cv[q]).0 != url@ && construct_in_text_spec(cv[q].1, form@) == Some(true)),
            !own && fired ==> forall|q: int| 0 <= q < j ==> !((#[trigger] cv[q]).0 != url@ && construct_in_text_spec(cv[q].1, form@) == Some(true)
                && fires_on(fv, form@, cv[q].1)),
        decreases code@.len() - j,
    {
        proof {
            assert(cv[j as int] == (code@[j as int].0@, code@[j as int].1@));
        }
        let u = chars_of(code[j].0.as_str());
        let same = chars_eq(u.as_slice(), url);
        if own {
            if same {
                let b = chars_of(code[j].1.as_str());
                if fires_on_exec(fires, fc.as_slice(), b.as_slice()) {
                    return true;
                }
            }
        } else if !same {
            if construct_in_text(code[j].1.as_str(), form) {
                if !fired {
                    return true;
                }
                let b = chars_of(code[j].1.as_str());
                if fires_on_exec(fires, fc.as_slice(), b.as_slice()) {
                    return true;
                }
            }
        }
        j = j + 1;
    }
    false
}

/// The distinct page urls of a corpus (see [`urls_of`]), counted.
fn url_count(code: &[(String, String)]) -> (r: usize)
    ensures
        r == urls_of(code.deep_view()).len(),
{
    let ghost cv = code.deep_view();
    let mut seen: Vec<Vec<char>> = Vec::new();
    let mut i: usize = 0;
    assert(cv.take(0) =~= Seq::<(Seq<char>, Seq<char>)>::empty());
    assert(views(seen@) =~= Seq::<Seq<char>>::empty());
    while i < code.len()
        invariant
            i <= code@.len(),
            cv == code.deep_view(),
            cv.len() == code@.len(),
            views(seen@) == urls_of(cv.take(i as int)),
            seen@.len() <= i,
        decreases code@.len() - i,
    {
        proof {
            assert(cv[i as int] == (code@[i as int].0@, code@[i as int].1@));
            assert(cv.take(i + 1).drop_last() =~= cv.take(i as int));
            assert(cv.take(i + 1).last() == cv[i as int]);
        }
        let u = chars_of(code[i].0.as_str());
        if !holds(&seen, u.as_slice()) {
            seen.push(u);
            proof {
                assert(views(seen@) =~= urls_of(cv.take(i as int)).push(cv[i as int].0));
            }
        }
        i = i + 1;
    }
    assert(cv.take(i as int) =~= cv);
    proof {
        assert(views(seen@).len() == seen@.len());
    }
    seen.len()
}

/// The decimal digits of `n` (see [`decimal`]).
fn decimal_exec(n: usize) -> (r: Vec<char>)
    ensures
        r@ == decimal(n as nat),
    decreases n,
{
    let d = vec!['0', '1', '2', '3', '4', '5', '6', '7', '8', '9'];
    proof {
        assert(d@ =~= seq!['0', '1', '2', '3', '4', '5', '6', '7', '8', '9']);
    }
    if n < 10 {
        let out = vec![d[n]];
        proof {
            assert(out@ =~= seq![d@[n as int]]);
        }
        out
    } else {
        let mut out = decimal_exec(n / 10);
        out.push(d[n % 10]);
        out
    }
}

/// Appends the characters of `s`.
fn put(out: &mut Vec<char>, s: &str)
    ensures
        final(out)@ == old(out)@ + s@,
{
    let c = chars_of(s);
    append_chars(out, c.as_slice());
}

/// `out` with `k` mapped to `v` (see [`insert_form`]).
fn insert_exec(out: &mut Vec<(String, GradedForm)>, k: String, v: GradedForm)
    ensures
        forms_view(final(out)@) == insert_form(forms_view(old(out)@), k@, v@),
{
    let ghost ov = forms_view(out@);
    proof {
        lemma_key_index(ov, k@);
    }
    let kc = chars_of(k.as_str());
    let mut i: usize = 0;
    while i < out.len()
        invariant
            i <= out@.len(),
            ov == forms_view(out@),
            ov == forms_view(old(out)@),
            ov.len() == out@.len(),
            kc@ == k@,
            forall|j: int| 0 <= j < i ==> (#[trigger] ov[j]).0 != k@,
        decreases out@.len() - i,
    {
        let c = chars_of(out[i].0.as_str());
        proof {
            assert(ov[i as int].0 == out@[i as int].0@);
        }
        if chars_eq(c.as_slice(), kc.as_slice()) {
            proof {
                lemma_key_index(ov, k@);
                let ki = key_index(ov, k@);
                assert(ki >= 0) by {
                    if ki < 0 {
                        assert(ov[i as int].0 != k@);
                    }
                }
                assert(ki == i) by {
                    if ki > i {
                        assert(ov[i as int].0 != k@);
                    }
                }
            }
            let ghost kv = k@;
            let ghost vv = v@;
            out.set(i, (k, v));
            proof {
                assert(forms_view(out@) =~= ov.update(i as int, (kv, vv)));
                assert(insert_form(ov, kv, vv) == ov.update(i as int, (kv, vv)));
            }
            return;
        }
        i = i + 1;
    }
    proof {
        lemma_key_index(ov, k@);
        if key_index(ov, k@) >= 0 {
            assert(ov[key_index(ov, k@)].0 != k@);
        }
    }
    out.push((k, v));
    proof {
        assert(forms_view(out@) =~= ov.push((k@, v@)));
    }
}

/// Whether some entry of `out` is keyed by `k`.
fn has_key(out: &Vec<(String, GradedForm)>, k: &[char]) -> (r: bool)
    ensures
        r == (key_index(forms_view(out@), k@) >= 0),
{
    let ghost ov = forms_view(out@);
    proof {
        lemma_key_index(ov, k@);
    }
    let mut i: usize = 0;
    while i < out.len()
        invariant
            i <= out@.len(),
            ov == forms_view(out@),
            ov.len() == out@.len(),
            forall|j: int| 0 <= j < i ==> (#[trigger] ov[j]).0 != k@,
        decreases out@.len() - i,
    {
        let c = chars_of(out[i].0.as_str());
        proof {
            assert(ov[i as int].0 == out@[i as int].0@);
        }
        if chars_eq(c.as_slice(), k) {
            proof {
                lemma_key_index(ov, k@);
                if key_index(ov, k@) < 0 {
                    assert(ov[i as int].0 != k@);
                }
            }
            return true;
        }
        i = i + 1;
    }
    proof {
        lemma_key_index(ov, k@);
        if key_index(ov, k@) >= 0 {
            assert(ov[key_index(ov, k@)].0 != k@);
        }
    }
    false
}

/// Whether `s` holds the character `c`.
fn has_char(s: &[char], c: char) -> (r: bool)
    ensures
        r == s@.contains(c),
{
    let mut i: usize = 0;
    while i < s.len()
        invariant
            i <= s@.len(),
            forall|j: int| 0 <= j < i ==> s@[j] != c,
        decreases s@.len() - i,
    {
        if s[i] == c {
            assert(s@[i as int] == c);
            return true;
        }
        i = i + 1;
    }
    false
}

/// Grades the qualified candidate `r` (see [`qualified_step`]).
fn qualified_grade(
    out: &mut Vec<(String, GradedForm)>,
    r: &ReadConstruct,
    mf: &Vec<char>,
    dead: bool,
    disc: bool,
    roles: &[(String, String)],
    proven_v: &Vec<Vec<char>>,
    code: &[(String, String)],
    fires: &[(String, String, bool)],
    pages: usize,
    Ghost(g): Ghost<GradeIn>,
)
    requires
        g == (GradeIn {
            roles: roles.deep_view(),
            proven: views(proven_v@),
            code: code.deep_view(),
            fires: fires.deep_view(),
            disc,
        }),
        pages == urls_of(code.deep_view()).len(),
        mf@ == member_form(r.construct@),
        qualified_safe_spec(r.construct@),
    ensures
        forms_view(final(out)@) == qualified_step(forms_view(old(out)@), (r@, mf@, dead), g),
{
    let ghost cv: CandV = (r@, mf@, dead);
    let k = chars_of(r.construct.as_str());
    let trusted = dead && disc;
    let fire: Vec<char> = if trusted {
        crate::text::copy_chars(mf.as_slice())
    } else {
        crate::text::copy_chars(k.as_slice())
    };
    if holds(proven_v, fire.as_slice()) || holds(proven_v, k.as_slice()) || holds(proven_v, mf.as_slice()) {
        return;
    }
    let url = chars_of(r.url.as_str());
    let fire_s = string_of(fire.as_slice());
    proof {
        assert forall|j: int| 0 <= j < code@.len() implies construct_in_text_spec(#[trigger] code@[j].1@, fire_s@) is Some by {
            if trusted {
                assert(fire_s@[0] == '.');
            } else {
                lemma_qualified_scans(code@[j].1@, k@);
            }
        }
    }
    if !(r.attested_deprecated && !r.page_scope) {
        if !corpus_check(code, fires, url.as_slice(), fire_s.as_str(), true, false) {
            return;
        }
    }
    if corpus_check(code, fires, url.as_slice(), fire_s.as_str(), false, true) {
        return;
    }
    let mut t: Vec<char> = Vec::new();
    put(&mut t, "Do not use `");
    append_chars(&mut t, k.as_slice());
    put(&mut t, "`: documented ");
    let role = role_word_exec(roles, k.as_slice());
    append_chars(&mut t, role.as_slice());
    put(&mut t, " \u{27e8}");
    append_chars(&mut t, url.as_slice());
    put(&mut t, "\u{27e9} \u{2014} ");
    if trusted {
        put(&mut t, "its member `");
        append_chars(&mut t, mf.as_slice());
        put(&mut t, "` is absent from the corpus's ");
        let n = decimal_exec(pages);
        append_chars(&mut t, n.as_slice());
        put(&mut t, " current example pages (usage-dead)");
    } else {
        put(&mut t, "fires only on the exact deprecated `");
        append_chars(&mut t, k.as_slice());
        put(&mut t, "` form");
    }
    put(&mut t, ".");
    proof {
        assert(t@ =~= qualified_text(cv, trusted, g));
    }
    let low = chars_of("low");
    let form = GradedForm {
        fire: fire_s,
        severity: string_of(low.as_slice()),
        description: string_of(t.as_slice()),
        source: string_of(url.as_slice()),
    };
    insert_exec(out, string_of(k.as_slice()), form);
}

/// Grades the element candidate `(c, url)` (see [`element_step`]).
fn element_grade(
    out: &mut Vec<(String, GradedForm)>,
    c: &str,
    url: &str,
    roles: &[(String, String)],
    proven_v: &Vec<Vec<char>>,
    fires: &[(String, String, bool)],
    Ghost(g): Ghost<GradeIn>,
)
    requires
        g.roles == roles.deep_view(),
        g.proven == views(proven_v@),
        g.fires == fires.deep_view(),
    ensures
        forms_view(final(out)@) == element_step(forms_view(old(out)@), (c@, url@), g),
{
    let k = chars_of(c);
    if has_key(out, k.as_slice()) || has_char(k.as_slice(), '.') || (k.len() > 0 && k[0] == ':') || (k.len() > 0 && k[0]
        == '<') || !byte_len_at_least(k.as_slice(), 2) || !url_payload_equals(url, c) {
        return;
    }
    let mut fire: Vec<char> = Vec::new();
    put(&mut fire, "<");
    append_chars(&mut fire, k.as_slice());
    put(&mut fire, ">");
    proof {
        assert(fire@ =~= tag_form(c@));
    }
    if holds(proven_v, fire.as_slice()) || holds(proven_v, k.as_slice()) {
        return;
    }
    let mut demo: Vec<char> = Vec::new();
    put(&mut demo, "<");
    append_chars(&mut demo, k.as_slice());
    put(&mut demo, ">x</");
    append_chars(&mut demo, k.as_slice());
    put(&mut demo, ">");
    proof {
        assert(demo@ =~= tag_demo(c@));
    }
    if !fires_on_exec(fires, fire.as_slice(), demo.as_slice()) {
        return;
    }
    let u = chars_of(url);
    let mut t: Vec<char> = Vec::new();
    put(&mut t, "Do not use `<");
    append_chars(&mut t, k.as_slice());
    put(&mut t, ">`: documented ");
    let role = role_word_exec(roles, k.as_slice());
    append_chars(&mut t, role.as_slice());
    put(&mut t, " \u{27e8}");
    append_chars(&mut t, u.as_slice());
    put(&mut t, "\u{27e9} \u{2014} fires only at tag position, the element itself.");
    proof {
        assert(t@ =~= element_text(c@, url@, g));
    }
    let low = chars_of("low");
    let form = GradedForm {
        fire: string_of(fire.as_slice()),
        severity: string_of(low.as_slice()),
        description: string_of(t.as_slice()),
        source: string_of(u.as_slice()),
    };
    insert_exec(out, string_of(k.as_slice()), form);
}

/// The candidates gathered so far as plain values.
pub open spec fn cand_views(rs: Seq<ReadV>, v: Seq<(usize, Vec<char>, bool)>) -> Seq<CandV> {
    v.map_values(|c: (usize, Vec<char>, bool)| (rs[c.0 as int], c.1@, c.2))
}

/// The graded (low-severity) firing forms of a language's revoked read constructs, keyed by
/// construct (see [`graded_spec`]). `read_surface` is what the reader retained unproven,
/// `failed` the proposals that did not graduate, `roles` the doc-role of each construct,
/// `proven` the constructs proven rules already enforce, `code_by_url` the corpus's example
/// blocks by page, and `fires` the planner's answers: whether a form fires on a block.
pub fn graded_forms(
    read_surface: &[ReadConstruct],
    failed: &[Candidate],
    roles: &[(String, String)],
    proven: &[String],
    code_by_url: &[(String, String)],
    fires: &[(String, String, bool)],
) -> (r: Vec<(String, GradedForm)>)
    ensures
        forms_view(r@) == graded_spec(
            read_views(read_surface@),
            failed@,
            roles.deep_view(),
            proven.deep_view(),
            code_by_url.deep_view(),
            fires.deep_view(),
        ),
{
    let ghost rv = read_views(read_surface@);
    let ghost rl = roles.deep_view();
    let ghost cdv = code_by_url.deep_view();
    let proven_v = chars_of_all(proven);
    // The qualified revoked candidates, with their member-scope death verdicts.
    let mut cs: Vec<(usize, Vec<char>, bool)> = Vec::new();
    let mut i: usize = 0;
    assert(rv.take(0) =~= Seq::<ReadV>::empty());
    assert(cand_views(rv, cs@) =~= Seq::<CandV>::empty());
    while i < read_surface.len()
        invariant
            i <= read_surface@.len(),
            rv == read_views(read_surface@),
            rv.len() == read_surface@.len(),
            rl == roles.deep_view(),
            cdv == code_by_url.deep_view(),
            cand_views(rv, cs@) == cands(rv.take(i as int), rl, cdv),
            forall|q: int| 0 <= q < cs@.len() ==> (#[trigger] cs@[q]).0 < i,
            forall|q: int| 0 <= q < cs@.len() ==> qualified_safe_spec(#[trigger] rv[cs@[q].0 as int].0),
            forall|q: int| 0 <= q < cs@.len() ==> (#[trigger] cs@[q]).1@ == member_form(rv[cs@[q].0 as int].0),
        decreases read_surface@.len() - i,
    {
        let r = &read_surface[i];
        let ghost ri = rv[i as int];
        proof {
            assert(ri == r@);
            assert(rv.take(i + 1).drop_last() =~= rv.take(i as int));
            assert(rv.take(i + 1).last() == ri);
        }
        let k = chars_of(r.construct.as_str());
        let rev = r.attested_deprecated || match role_get_exec(roles, k.as_slice()) {
            Some(x) => is_revoking(x.as_slice()),
            None => false,
        };
        let ghost old_cs = cs@;
        if rev && qualified_safe(r.construct.as_str()) {
            let mf = member_form_exec(k.as_slice());
            let mfs = string_of(mf.as_slice());
            proof {
                assert forall|j: int| 0 <= j < code_by_url@.len() implies construct_in_text_spec(
                    #[trigger] code_by_url@[j].1@,
                    mfs@,
                ) is Some by {
                    assert(mfs@[0] == '.');
                }
            }
            let u = chars_of(r.url.as_str());
            let used = corpus_check(code_by_url, fires, u.as_slice(), mfs.as_str(), false, false);
            cs.push((i, mf, !used));
            proof {
                assert(cand_views(rv, cs@) =~= cand_views(rv, old_cs).push((ri, member_form(ri.0), !used_elsewhere(cdv, ri.2, member_form(ri.0)))));
                assert forall|q: int| 0 <= q < cs@.len() implies qualified_safe_spec(#[trigger] rv[cs@[q].0 as int].0) by {
                    if q < old_cs.len() {
                        assert(cs@[q] == old_cs[q]);
                    }
                }
                assert forall|q: int| 0 <= q < cs@.len() implies (#[trigger] cs@[q]).1@ == member_form(rv[cs@[q].0 as int].0) by {
                    if q < old_cs.len() {
                        assert(cs@[q] == old_cs[q]);
                    }
                }
            }
        }
        i = i + 1;
    }
    assert(rv.take(i as int) =~= rv);
    let ghost cands_v = cands(rv, rl, cdv);
    // Death is trusted only where the corpus witnesses life.
    let mut disc = false;
    let mut q: usize = 0;
    while q < cs.len()
        invariant
            q <= cs@.len(),
            cand_views(rv, cs@) == cands_v,
            cands_v.len() == cs@.len(),
            disc == exists|j: int| 0 <= j < q && !(#[trigger] cands_v[j]).2,
        decreases cs@.len() - q,
    {
        proof {
            assert(cands_v[q as int].2 == cs@[q as int].2);
        }
        if !cs[q].2 {
            disc = true;
        }
        q = q + 1;
    }
    let ghost g = GradeIn { roles: rl, proven: views(proven_v@), code: cdv, fires: fires.deep_view(), disc };
    proof {
        assert(g == grade_in(rv, rl, proven.deep_view(), cdv, fires.deep_view()));
    }
    let pages = url_count(code_by_url);
    let mut out: Vec<(String, GradedForm)> = Vec::new();
    let mut q: usize = 0;
    assert(forms_view(out@) =~= qualified_forms(cands_v, g, 0));
    while q < cs.len()
        invariant
            q <= cs@.len(),
            cand_views(rv, cs@) == cands_v,
            cands_v.len() == cs@.len(),
            rv == read_views(read_surface@),
            forall|j: int| 0 <= j < cs@.len() ==> (#[trigger] cs@[j]).0 < read_surface@.len(),
            forall|j: int| 0 <= j < cs@.len() ==> qualified_safe_spec(#[trigger] rv[cs@[j].0 as int].0),
            forall|j: int| 0 <= j < cs@.len() ==> (#[trigger] cs@[j]).1@ == member_form(rv[cs@[j].0 as int].0),
            g == (GradeIn {
                roles: roles.deep_view(),
                proven: views(proven_v@),
                code: code_by_url.deep_view(),
                fires: fires.deep_view(),
                disc,
            }),
            pages == urls_of(code_by_url.deep_view()).len(),
            forms_view(out@) == qualified_forms(cands_v, g, q as int),
        decreases cs@.len() - q,
    {
        let c = &cs[q];
        let r = &read_surface[c.0];
        proof {
            assert(rv[c.0 as int] == r@);
            assert(cands_v[q as int] == (r@, c.1@, c.2));
        }
        qualified_grade(&mut out, r, &c.1, c.2, disc, roles, &proven_v, code_by_url, fires, pages, Ghost(g));
        q = q + 1;
    }
    // The element tier: bare subjects whose page states the deprecation page-wide and
    // writes them as elements.
    let ghost es = element_cands(rv, failed@);
    let ghost er = elements_read(rv);
    let mut i: usize = 0;
    assert(rv.take(0) =~= Seq::<ReadV>::empty());
    assert(forms_view(out@) == element_forms(elements_read(rv.take(0)), g, qualified_forms(cands_v, g, cands_v.len() as int), 0));
    while i < read_surface.len()
        invariant
            i <= read_surface@.len(),
            rv == read_views(read_surface@),
            rv.len() == read_surface@.len(),
            g.roles == roles.deep_view(),
            g.proven == views(proven_v@),
            g.fires == fires.deep_view(),
            forms_view(out@) == element_forms(
                elements_read(rv.take(i as int)),
                g,
                qualified_forms(cands_v, g, cands_v.len() as int),
                elements_read(rv.take(i as int)).len() as int,
            ),
        decreases read_surface@.len() - i,
    {
        let r = &read_surface[i];
        let ghost base = qualified_forms(cands_v, g, cands_v.len() as int);
        let ghost pre = elements_read(rv.take(i as int));
        proof {
            assert(rv[i as int] == r@);
            assert(rv.take(i + 1).drop_last() =~= rv.take(i as int));
            assert(rv.take(i + 1).last() == r@);
        }
        if r.page_scope && r.element_typography {
            element_grade(&mut out, r.construct.as_str(), r.url.as_str(), roles, &proven_v, fires, Ghost(g));
            proof {
                let post = elements_read(rv.take(i + 1));
                assert(post == pre.push((r@.0, r@.2)));
                assert forall|t: int| 0 <= t <= pre.len() implies element_forms(post, g, base, t) == element_forms(pre, g, base, t) by {
                    lemma_element_forms_prefix(pre, post, g, base, t);
                }
            }
        }
        i = i + 1;
    }
    assert(rv.take(i as int) =~= rv);
    let mut f: usize = 0;
    assert(failed@.take(0) =~= Seq::<Candidate>::empty());
    assert(er + elements_failed(failed@.take(0)) =~= er);
    while f < failed.len()
        invariant
            f <= failed@.len(),
            er == elements_read(rv),
            g.roles == roles.deep_view(),
            g.proven == views(proven_v@),
            g.fires == fires.deep_view(),
            forms_view(out@) == element_forms(
                er + elements_failed(failed@.take(f as int)),
                g,
                qualified_forms(cands_v, g, cands_v.len() as int),
                (er + elements_failed(failed@.take(f as int))).len() as int,
            ),
        decreases failed@.len() - f,
    {
        let cnd = &failed[f];
        let ghost base = qualified_forms(cands_v, g, cands_v.len() as int);
        let ghost pre = er + elements_failed(failed@.take(f as int));
        proof {
            assert(failed@.take(f + 1).drop_last() =~= failed@.take(f as int));
            assert(failed@.take(f + 1).last() == failed@[f as int]);
        }
        if cnd.page_scope && cnd.element_typography {
            element_grade(&mut out, cnd.construct.as_str(), cnd.url.as_str(), roles, &proven_v, fires, Ghost(g));
            proof {
                let post = er + elements_failed(failed@.take(f + 1));
                assert(post =~= pre.push((cnd.construct@, cnd.url@)));
                assert forall|t: int| 0 <= t <= pre.len() implies element_forms(post, g, base, t) == element_forms(pre, g, base, t) by {
                    lemma_element_forms_prefix(pre, post, g, base, t);
                }
            }
        } else {
            proof {
                assert(er + elements_failed(failed@.take(f + 1)) =~= pre);
            }
        }
        f = f + 1;
    }
    assert(failed@.take(f as int) =~= failed@);
    out
}

proof fn lemma_element_forms_prefix(
    pre: Seq<(Seq<char>, Seq<char>)>,
    post: Seq<(Seq<char>, Seq<char>)>,
    g: GradeIn,
    base: Seq<(Seq<char>, FormV)>,
    t: int,
)
    requires
        pre.len() <= post.len(),
        forall|j: int| 0 <= j < pre.len() ==> pre[j] == post[j],
        0 <= t <= pre.len(),
    ensures
        element_forms(post, g, base, t) == element_forms(pre, g, base, t),
    decreases t,
{
    if t > 0 {
        lemma_element_forms_prefix(pre, post, g, base, t - 1);
    }
}

/// A read construct is revoked exactly when its page attests deprecation or the doc-role
/// the roles give it is `deprecated`, `removal` or `prohibition`; and every revoked,
/// qualified-safe read construct is a graded candidate, with its receiver-generic form.
pub proof fn law_revoked_by_attestation_or_revoking_role(
    xs: Seq<ReadV>,
    roles: Seq<(Seq<char>, Seq<char>)>,
    code: Seq<(Seq<char>, Seq<char>)>,
    i: int,
)
    requires
        0 <= i < xs.len(),
    ensures
        revoked(xs[i], roles) <==> (xs[i].3 || role_get(roles, xs[i].0) == Some("deprecated"@) || role_get(roles, xs[i].0)
            == Some("removal"@) || role_get(roles, xs[i].0) == Some("prohibition"@)),
        (xs[i].3 || role_get(roles, xs[i].0) == Some("deprecated"@) || role_get(roles, xs[i].0) == Some("removal"@)
            || role_get(roles, xs[i].0) == Some("prohibition"@)) && qualified_safe_spec(xs[i].0) ==> exists|j: int|
            0 <= j < cands(xs, roles, code).len() && (#[trigger] cands(xs, roles, code)[j]).0 == xs[i] && cands(
            xs,
            roles,
            code,
        )[j].1 == member_form(xs[i].0),
    decreases xs.len(),
{
    if i < xs.len() - 1 {
        law_revoked_by_attestation_or_revoking_role(xs.drop_last(), roles, code, i);
        assert(xs.drop_last()[i] == xs[i]);
        let rest = cands(xs.drop_last(), roles, code);
        if (xs[i].3 || role_get(roles, xs[i].0) == Some("deprecated"@) || role_get(roles, xs[i].0) == Some("removal"@)
            || role_get(roles, xs[i].0) == Some("prohibition"@)) && qualified_safe_spec(xs[i].0) {
            let j = choose|j: int| 0 <= j < rest.len() && (#[trigger] rest[j]).0 == xs[i] && rest[j].1 == member_form(xs[i].0);
            assert(cands(xs, roles, code)[j] == rest[j]);
        }
    } else {
        let rest = cands(xs.drop_last(), roles, code);
        assert(xs.last() == xs[i]);
        if revoked(xs[i], roles) && qualified_safe_spec(xs[i].0) {
            assert(cands(xs, roles, code)[rest.len() as int].0 == xs[i]);
        }
    }
}

// ── What every graded form keeps ──────────────────────────────────────────

/// What holds of every graded form: it is low severity; neither its fire form nor its
/// construct is proven; it rests on the url the construct was read or proposed from; and a
/// dotted construct is qualified-safe and fires its receiver-generic form exactly when that
/// form is dead in the corpus and the corpus witnesses life, else the construct itself.
pub open spec fn form_ok(
    e: (Seq<char>, FormV),
    xs: Seq<ReadV>,
    failed: Seq<Candidate>,
    proven: Seq<Seq<char>>,
    code: Seq<(Seq<char>, Seq<char>)>,
    disc: bool,
) -> bool {
    &&& e.1.1 == "low"@
    &&& !proven.contains(e.1.0)
    &&& !proven.contains(e.0)
    &&& (exists|i: int| 0 <= i < xs.len() && (#[trigger] xs[i]).0 == e.0 && xs[i].2 == e.1.3) || (exists|i: int|
        0 <= i < failed.len() && (#[trigger] failed[i]).construct@ == e.0 && failed[i].url@ == e.1.3)
    &&& e.0.contains('.') ==> {
        &&& qualified_safe_spec(e.0)
        &&& e.1.0 == (if disc && !used_elsewhere(code, e.1.3, member_form(e.0)) {
            member_form(e.0)
        } else {
            e.0
        })
    }
}

proof fn lemma_insert_form(out: Seq<(Seq<char>, FormV)>, k: Seq<char>, v: FormV, j: int)
    requires
        0 <= j < insert_form(out, k, v).len(),
    ensures
        insert_form(out, k, v)[j] == (k, v) || (j < out.len() && insert_form(out, k, v)[j] == out[j]),
{
    lemma_key_index(out, k);
}

proof fn lemma_cands(xs: Seq<ReadV>, roles: Seq<(Seq<char>, Seq<char>)>, code: Seq<(Seq<char>, Seq<char>)>, j: int)
    requires
        0 <= j < cands(xs, roles, code).len(),
    ensures
        exists|i: int| 0 <= i < xs.len() && #[trigger] xs[i] == cands(xs, roles, code)[j].0,
        qualified_safe_spec(cands(xs, roles, code)[j].0.0),
        cands(xs, roles, code)[j].1 == member_form(cands(xs, roles, code)[j].0.0),
        cands(xs, roles, code)[j].2 == !used_elsewhere(code, cands(xs, roles, code)[j].0.2, member_form(cands(xs, roles, code)[j].0.0)),
    decreases xs.len(),
{
    let rest = cands(xs.drop_last(), roles, code);
    if j < rest.len() {
        lemma_cands(xs.drop_last(), roles, code, j);
        let i = choose|i: int| 0 <= i < xs.drop_last().len() && #[trigger] xs.drop_last()[i] == rest[j].0;
        assert(xs[i] == xs.drop_last()[i]);
    } else {
        assert(xs[xs.len() - 1] == xs.last());
    }
}

proof fn lemma_qualified_ok(
    xs: Seq<ReadV>,
    failed: Seq<Candidate>,
    roles: Seq<(Seq<char>, Seq<char>)>,
    proven: Seq<Seq<char>>,
    code: Seq<(Seq<char>, Seq<char>)>,
    fires: Seq<(Seq<char>, Seq<char>, bool)>,
    upto: int,
)
    requires
        0 <= upto <= cands(xs, roles, code).len(),
    ensures
        forall|k: int| 0 <= k < qualified_forms(cands(xs, roles, code), grade_in(xs, roles, proven, code, fires), upto).len()
            ==> form_ok(
            #[trigger] qualified_forms(cands(xs, roles, code), grade_in(xs, roles, proven, code, fires), upto)[k],
            xs,
            failed,
            proven,
            code,
            grade_in(xs, roles, proven, code, fires).disc,
        ),
    decreases upto,
{
    let cs = cands(xs, roles, code);
    let g = grade_in(xs, roles, proven, code, fires);
    if upto > 0 {
        lemma_qualified_ok(xs, failed, roles, proven, code, fires, upto - 1);
        let prev = qualified_forms(cs, g, upto - 1);
        let c = cs[upto - 1];
        lemma_cands(xs, roles, code, upto - 1);
        let cur = qualified_forms(cs, g, upto);
        assert forall|k: int| 0 <= k < cur.len() implies form_ok(#[trigger] cur[k], xs, failed, proven, code, g.disc) by {
            let trusted = c.2 && g.disc;
            let fire = if trusted { c.1 } else { c.0.0 };
            if cur != prev {
                let v: FormV = (fire, "low"@, qualified_text(c, trusted, g), c.0.2);
                assert(cur == insert_form(prev, c.0.0, v));
                lemma_insert_form(prev, c.0.0, v, k);
                if cur[k] == (c.0.0, v) {
                    let i = choose|i: int| 0 <= i < xs.len() && #[trigger] xs[i] == c.0;
                    assert(xs[i].0 == cur[k].0 && xs[i].2 == cur[k].1.3);
                }
            }
        }
    }
}

proof fn lemma_elements_from(xs: Seq<ReadV>, failed: Seq<Candidate>, j: int)
    requires
        0 <= j < element_cands(xs, failed).len(),
    ensures
        (exists|i: int| 0 <= i < xs.len() && (#[trigger] xs[i]).0 == element_cands(xs, failed)[j].0 && xs[i].2 == element_cands(
            xs,
            failed,
        )[j].1) || (exists|i: int| 0 <= i < failed.len() && (#[trigger] failed[i]).construct@ == element_cands(xs, failed)[j].0
            && failed[i].url@ == element_cands(xs, failed)[j].1),
{
    let er = elements_read(xs);
    if j < er.len() {
        lemma_elements_read(xs, j);
    } else {
        lemma_elements_failed(failed, j - er.len());
    }
}

proof fn lemma_elements_read(xs: Seq<ReadV>, j: int)
    requires
        0 <= j < elements_read(xs).len(),
    ensures
        exists|i: int| 0 <= i < xs.len() && (#[trigger] xs[i]).0 == elements_read(xs)[j].0 && xs[i].2 == elements_read(xs)[j].1,
    decreases xs.len(),
{
    if j < elements_read(xs.drop_last()).len() {
        lemma_elements_read(xs.drop_last(), j);
        let i = choose|i: int| 0 <= i < xs.drop_last().len() && (#[trigger] xs.drop_last()[i]).0 == elements_read(xs.drop_last())[j].0
            && xs.drop_last()[i].2 == elements_read(xs.drop_last())[j].1;
        assert(xs[i] == xs.drop_last()[i]);
    } else {
        assert(xs[xs.len() - 1] == xs.last());
    }
}

proof fn lemma_elements_failed(cs: Seq<Candidate>, j: int)
    requires
        0 <= j < elements_failed(cs).len(),
    ensures
        exists|i: int| 0 <= i < cs.len() && (#[trigger] cs[i]).construct@ == elements_failed(cs)[j].0 && cs[i].url@
            == elements_failed(cs)[j].1,
    decreases cs.len(),
{
    if j < elements_failed(cs.drop_last()).len() {
        lemma_elements_failed(cs.drop_last(), j);
        let i = choose|i: int| 0 <= i < cs.drop_last().len() && (#[trigger] cs.drop_last()[i]).construct@ == elements_failed(
            cs.drop_last(),
        )[j].0 && cs.drop_last()[i].url@ == elements_failed(cs.drop_last())[j].1;
        assert(cs[i] == cs.drop_last()[i]);
    } else {
        assert(cs[cs.len() - 1] == cs.last());
    }
}

proof fn lemma_elements_ok(
    xs: Seq<ReadV>,
    failed: Seq<Candidate>,
    proven: Seq<Seq<char>>,
    code: Seq<(Seq<char>, Seq<char>)>,
    g: GradeIn,
    base: Seq<(Seq<char>, FormV)>,
    upto: int,
)
    requires
        0 <= upto <= element_cands(xs, failed).len(),
        g.proven == proven,
        forall|k: int| 0 <= k < base.len() ==> form_ok(#[trigger] base[k], xs, failed, proven, code, g.disc),
    ensures
        forall|k: int| 0 <= k < element_forms(element_cands(xs, failed), g, base, upto).len() ==> form_ok(
            #[trigger] element_forms(element_cands(xs, failed), g, base, upto)[k],
            xs,
            failed,
            proven,
            code,
            g.disc,
        ),
    decreases upto,
{
    let es = element_cands(xs, failed);
    if upto > 0 {
        lemma_elements_ok(xs, failed, proven, code, g, base, upto - 1);
        let prev = element_forms(es, g, base, upto - 1);
        let cur = element_forms(es, g, base, upto);
        let e = es[upto - 1];
        lemma_elements_from(xs, failed, upto - 1);
        assert forall|k: int| 0 <= k < cur.len() implies form_ok(#[trigger] cur[k], xs, failed, proven, code, g.disc) by {
            if cur != prev {
                let v: FormV = (tag_form(e.0), "low"@, element_text(e.0, e.1, g), e.1);
                assert(cur == insert_form(prev, e.0, v));
                lemma_insert_form(prev, e.0, v, k);
            }
        }
    }
}

/// Every graded form is low severity, unproven in both its fire form and its construct,
/// rests on the url its construct was read or proposed from, and, for a dotted construct,
/// is qualified-safe and fires the receiver-generic form exactly when that form is dead in
/// the corpus and the corpus witnesses life (see [`form_ok`]).
pub proof fn law_graded_forms_are_low_unproven_and_sourced(
    xs: Seq<ReadV>,
    failed: Seq<Candidate>,
    roles: Seq<(Seq<char>, Seq<char>)>,
    proven: Seq<Seq<char>>,
    code: Seq<(Seq<char>, Seq<char>)>,
    fires: Seq<(Seq<char>, Seq<char>, bool)>,
)
    ensures
        forall|k: int| 0 <= k < graded_spec(xs, failed, roles, proven, code, fires).len() ==> form_ok(
            #[trigger] graded_spec(xs, failed, roles, proven, code, fires)[k],
            xs,
            failed,
            proven,
            code,
            discriminates(cands(xs, roles, code)),
        ),
{
    let cs = cands(xs, roles, code);
    let g = grade_in(xs, roles, proven, code, fires);
    lemma_qualified_ok(xs, failed, roles, proven, code, fires, cs.len() as int);
    let es = element_cands(xs, failed);
    lemma_elements_ok(xs, failed, proven, code, g, qualified_forms(cs, g, cs.len() as int), es.len() as int);
}

} // verus!
