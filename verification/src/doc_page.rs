//! Reading one language-doc page into the material a rule is proposed from: whether the
//! page prohibits its subject, and the candidate constructs it names, read from its prose,
//! its own incorrect examples, the construction bound on it, or its deprecation markers
//! and URL. The governing sentences and the constructs the bridge names in each come in as
//! plain values.

use vstd::prelude::*;
use crate::lang_layer::{
    attested_item_shapes, attested_shapes, code_interiors_of, example_corpus_of, example_receiver_shapes,
    example_receivers, examples_of_class, examples_of_class_spec, is_reference_page, is_rule_page, member_page_shapes,
    member_shapes, normalize_construct, normalized, operator_fold, operator_tokens, page_example_corpus,
    reference_marker, rules_marker, StatusTokens,
};
use crate::text::{byte_len, byte_len_at_least, chars_eq, chars_of, contains_seq, lowercase, words};

verus! {

broadcast use vstd::string::group_string_axioms;

/// The most backtick-bearing governing sentences whose named constructs a rule page
/// contributes.
pub const PROSE_SENTENCE_LIMIT: usize = 4;

/// One language-doc page read into propose material: its url; whether its role prohibits
/// its subject; whether it attests the subject deprecated; its governing sentences; the
/// candidate constructs it names; its own incorrect and correct example blocks; its
/// worked-example code; the item shape groups it marks deprecated, and those whose own
/// note counter-attests them; and whether a proven construction bound on its prose made
/// it a prohibition.
pub struct DocPage {
    pub url: String,
    pub prohibited: bool,
    pub attested_deprecated: bool,
    pub governing: Vec<String>,
    pub constructs: Vec<String>,
    pub incorrect: Vec<String>,
    pub correct: Vec<String>,
    pub example_code: Vec<String>,
    pub marked_deprecated: Vec<Vec<String>>,
    pub counter_attested: Vec<Vec<String>>,
    pub construction_attested: bool,
}

/// A read page as plain values (see [`DocPage`]).
pub struct DocPageV {
    pub url: Seq<char>,
    pub prohibited: bool,
    pub attested_deprecated: bool,
    pub governing: Seq<Seq<char>>,
    pub constructs: Seq<Seq<char>>,
    pub incorrect: Seq<Seq<char>>,
    pub correct: Seq<Seq<char>>,
    pub example_code: Seq<Seq<char>>,
    pub marked: Seq<Seq<Seq<char>>>,
    pub counter: Seq<Seq<Seq<char>>>,
    pub construction_attested: bool,
}

impl View for DocPage {
    type V = DocPageV;

    open spec fn view(&self) -> DocPageV {
        DocPageV {
            url: self.url@,
            prohibited: self.prohibited,
            attested_deprecated: self.attested_deprecated,
            governing: self.governing.deep_view(),
            constructs: self.constructs.deep_view(),
            incorrect: self.incorrect.deep_view(),
            correct: self.correct.deep_view(),
            example_code: self.example_code.deep_view(),
            marked: self.marked_deprecated.deep_view(),
            counter: self.counter_attested.deep_view(),
            construction_attested: self.construction_attested,
        }
    }
}

// ── Candidate lists ──────────────────────────────────────────────────────────

/// `out` after `c` is offered: as it is (`mode` 0), normalized and at least two bytes long
/// (`mode` 1), or at least two bytes long (`mode` 2); kept only when not already held.
pub open spec fn offer(out: Seq<Seq<char>>, c: Seq<char>, mode: nat) -> Seq<Seq<char>> {
    let x = if mode == 1 {
        normalized(c)
    } else {
        c
    };
    if (mode != 0 && byte_len(x) < 2) || out.contains(x) {
        out
    } else {
        out.push(x)
    }
}

/// `out` after each of `xs` is offered in turn (see [`offer`]).
pub open spec fn offer_all(out: Seq<Seq<char>>, xs: Seq<Seq<char>>, mode: nat) -> Seq<Seq<char>>
    decreases xs.len(),
{
    if xs.len() == 0 {
        out
    } else {
        offer(offer_all(out, xs.drop_last(), mode), xs.last(), mode)
    }
}

/// The items of every group of `gs`, in order.
pub open spec fn concat_all(gs: Seq<Seq<Seq<char>>>) -> Seq<Seq<char>>
    decreases gs.len(),
{
    if gs.len() == 0 {
        Seq::empty()
    } else {
        concat_all(gs.drop_last()) + gs.last()
    }
}

/// How many of the first `i` sentences carry a backtick.
pub open spec fn ticked_before(gov: Seq<Seq<char>>, i: int) -> nat
    decreases i,
{
    if i <= 0 {
        0
    } else {
        ticked_before(gov, i - 1) + if gov[i - 1].contains('`') { 1nat } else { 0nat }
    }
}

/// The constructs named in the first [`PROSE_SENTENCE_LIMIT`] backtick-bearing sentences
/// among the first `i`, in order.
pub open spec fn prose_named(gov: Seq<Seq<char>>, named: Seq<Seq<Seq<char>>>, i: int) -> Seq<Seq<char>>
    decreases i,
{
    if i <= 0 {
        Seq::empty()
    } else if gov[i - 1].contains('`') && ticked_before(gov, i - 1) < PROSE_SENTENCE_LIMIT {
        prose_named(gov, named, i - 1) + named[i - 1]
    } else {
        prose_named(gov, named, i - 1)
    }
}

/// The operator tokens of every block, in order.
pub open spec fn block_operators(bs: Seq<Seq<char>>) -> Seq<Seq<char>>
    decreases bs.len(),
{
    if bs.len() == 0 {
        Seq::empty()
    } else {
        block_operators(bs.drop_last()) + operator_fold(Seq::empty(), words(bs.last()))
    }
}

/// The construction subjects bound on page `url`: the first entry keyed by it, else none.
pub open spec fn subjects_of(construction: Seq<(Seq<char>, Seq<Seq<char>>)>, url: Seq<char>) -> Seq<Seq<char>>
    decreases construction.len(),
{
    if construction.len() == 0 {
        Seq::empty()
    } else if construction[0].0 == url {
        construction[0].1
    } else {
        subjects_of(construction.drop_first(), url)
    }
}

/// What `read_doc_page` reads of a page. A page prohibits its subject when it is a rule
/// page, a page the caller attests deprecated, or one a proven construction is bound on;
/// any other page reads as nothing. A rule page's constructs are the normalized constructs
/// its first backtick-bearing governing sentences name and the operator tokens of its own
/// incorrect examples (`raw` is the body with script and style dropped); a construction
/// page's are its construction subjects; any other page's are the shapes of its marked
/// items, then (off a reference page) the receivers its own example code shows, then the
/// member shapes of its url.
pub open spec fn doc_page_spec(
    url: Seq<char>,
    body: Seq<char>,
    raw: Seq<char>,
    gov: Seq<Seq<char>>,
    named: Seq<Seq<Seq<char>>>,
    attested: Seq<Seq<char>>,
    construction: Seq<(Seq<char>, Seq<Seq<char>>)>,
    toks: (Seq<Seq<char>>, Seq<Seq<char>>, Seq<Seq<char>>),
) -> DocPageV {
    let reference = contains_seq(lowercase(url), reference_marker());
    let rule = contains_seq(lowercase(url), rules_marker());
    let existing = !rule && attested.contains(url);
    let subj = subjects_of(construction, url);
    let cons = !rule && !existing && subj.len() > 0;
    let empty = DocPageV {
        url,
        prohibited: false,
        attested_deprecated: false,
        governing: Seq::empty(),
        constructs: Seq::empty(),
        incorrect: Seq::empty(),
        correct: Seq::empty(),
        example_code: Seq::empty(),
        marked: Seq::empty(),
        counter: Seq::empty(),
        construction_attested: false,
    };
    if !rule && !existing && !cons {
        empty
    } else if rule {
        let inc = examples_of_class_spec(raw, "incorrect"@).unwrap();
        let cor = examples_of_class_spec(raw, "correct"@).unwrap();
        DocPageV {
            prohibited: true,
            governing: gov,
            constructs: offer_all(offer_all(Seq::empty(), prose_named(gov, named, gov.len() as int), 1), block_operators(inc), 1),
            incorrect: inc,
            correct: cor,
            ..empty
        }
    } else if cons {
        DocPageV {
            prohibited: true,
            attested_deprecated: true,
            governing: gov,
            constructs: offer_all(Seq::empty(), subj, 0),
            construction_attested: true,
            ..empty
        }
    } else {
        let shapes = attested_shapes(body, toks.0, toks.1, toks.2);
        let ec = example_corpus_of(body, shapes.0.len() > 0 || shapes.1.len() > 0);
        let c1 = offer_all(Seq::empty(), concat_all(shapes.0 + shapes.1), 0);
        let c2 = if !reference {
            offer_all(c1, example_receivers(url, ec), 0)
        } else {
            c1
        };
        DocPageV {
            prohibited: true,
            attested_deprecated: true,
            governing: gov,
            constructs: offer_all(c2, member_shapes(url), 2),
            example_code: ec,
            marked: shapes.0,
            counter: shapes.1,
            ..empty
        }
    }
}


proof fn lemma_offer_all_concat(out: Seq<Seq<char>>, a: Seq<Seq<char>>, b: Seq<Seq<char>>, mode: nat)
    ensures
        offer_all(out, a + b, mode) == offer_all(offer_all(out, a, mode), b, mode),
    decreases b.len(),
{
    if b.len() == 0 {
        assert(a + b =~= a);
    } else {
        assert((a + b).drop_last() =~= a + b.drop_last());
        assert((a + b).last() == b.last());
        lemma_offer_all_concat(out, a, b.drop_last(), mode);
    }
}

/// Whether `v` holds `c`.
fn holds_str(v: &Vec<String>, c: &[char]) -> (r: bool)
    ensures
        r == v.deep_view().contains(c@),
{
    let ghost dv = v.deep_view();
    let mut i: usize = 0;
    while i < v.len()
        invariant
            i <= v@.len(),
            dv == v.deep_view(),
            dv.len() == v@.len(),
            forall|j: int| 0 <= j < i ==> dv[j] != c@,
        decreases v@.len() - i,
    {
        let x = chars_of(v[i].as_str());
        proof {
            assert(dv[i as int] == v@[i as int]@);
        }
        if chars_eq(x.as_slice(), c) {
            assert(dv[i as int] == c@);
            return true;
        }
        i = i + 1;
    }
    false
}

/// Offers `c` to `out` (see [`offer`]).
fn offer_exec(out: &mut Vec<String>, c: &str, mode: u8)
    requires
        mode <= 2,
    ensures
        final(out).deep_view() == offer(old(out).deep_view(), c@, mode as nat),
{
    let x: String = if mode == 1 {
        normalize_construct(c)
    } else {
        crate::text::string_of(chars_of(c).as_slice())
    };
    let xc = chars_of(x.as_str());
    if (mode != 0 && !byte_len_at_least(xc.as_slice(), 2)) || holds_str(out, xc.as_slice()) {
        return;
    }
    let ghost before = out.deep_view();
    out.push(x);
    proof {
        assert(out.deep_view() =~= before.push(xc@));
    }
}

/// Offers each of `xs` to `out` in turn (see [`offer_all`]).
fn offer_each(out: &mut Vec<String>, xs: &Vec<String>, mode: u8)
    requires
        mode <= 2,
    ensures
        final(out).deep_view() == offer_all(old(out).deep_view(), xs.deep_view(), mode as nat),
{
    let ghost base = out.deep_view();
    let ghost xv = xs.deep_view();
    let mut k: usize = 0;
    assert(xv.take(0) =~= Seq::<Seq<char>>::empty());
    while k < xs.len()
        invariant
            k <= xs@.len(),
            mode <= 2,
            xv == xs.deep_view(),
            xv.len() == xs@.len(),
            base == old(out).deep_view(),
            out.deep_view() == offer_all(base, xv.take(k as int), mode as nat),
        decreases xs@.len() - k,
    {
        proof {
            assert(xv[k as int] == xs@[k as int]@);
            assert(xv.take(k + 1).drop_last() =~= xv.take(k as int));
            assert(xv.take(k + 1).last() == xv[k as int]);
        }
        offer_exec(out, xs[k].as_str(), mode);
        k = k + 1;
    }
    assert(xv.take(k as int) =~= xv);
}

/// A copy of a list of strings.
fn copy_strings(v: &[String]) -> (r: Vec<String>)
    ensures
        r.deep_view() == v.deep_view(),
{
    let cs = crate::text::chars_of_all(v);
    crate::text::strings_of(&cs)
}

/// The construction subjects bound on page `url` (see [`subjects_of`]).
fn subjects_exec(construction: &[(String, Vec<String>)], url: &[char]) -> (r: Vec<String>)
    ensures
        r.deep_view() == subjects_of(construction.deep_view(), url@),
{
    let ghost cv = construction.deep_view();
    let mut i: usize = 0;
    assert(cv.skip(0) =~= cv);
    while i < construction.len()
        invariant
            i <= construction@.len(),
            cv == construction.deep_view(),
            cv.len() == construction@.len(),
            subjects_of(cv, url@) == subjects_of(cv.skip(i as int), url@),
        decreases construction@.len() - i,
    {
        let k = chars_of(construction[i].0.as_str());
        proof {
            assert(cv[i as int] == (construction@[i as int].0@, construction@[i as int].1.deep_view()));
            assert(cv.skip(i as int)[0] == cv[i as int]);
            assert(cv.skip(i as int).drop_first() =~= cv.skip(i + 1));
        }
        if chars_eq(k.as_slice(), url) {
            return copy_strings(construction[i].1.as_slice());
        }
        i = i + 1;
    }
    assert(cv.skip(i as int) =~= Seq::<(Seq<char>, Seq<Seq<char>>)>::empty());
    Vec::new()
}

/// Whether `s` holds a backtick.
fn has_tick(s: &str) -> (r: bool)
    ensures
        r == s@.contains('`'),
{
    let c = chars_of(s);
    let mut i: usize = 0;
    while i < c.len()
        invariant
            i <= c@.len(),
            c@ == s@,
            forall|j: int| 0 <= j < i ==> c@[j] != '`',
        decreases c@.len() - i,
    {
        if c[i] == '`' {
            assert(s@[i as int] == '`');
            return true;
        }
        i = i + 1;
    }
    false
}

/// READ one language-doc page into propose material (see [`doc_page_spec`]): `raw` is the
/// body with script and style dropped, `governing` the page's governing sentences and
/// `named[i]` the constructs the bridge names in `governing[i]`, `attested` the pages a
/// deprecation marker attests, and `construction` the subjects a proven construction binds
/// on each page.
pub fn read_doc_page(
    url: &str,
    body: &str,
    raw: &str,
    governing: &[String],
    named: &[Vec<String>],
    attested: &[String],
    construction: &[(String, Vec<String>)],
    tokens: &StatusTokens,
) -> (r: DocPage)
    requires
        named@.len() == governing@.len(),
        examples_of_class_spec(raw@, "incorrect"@) is Some,
        examples_of_class_spec(raw@, "correct"@) is Some,
        code_interiors_of(body@) is Some,
    ensures
        r@ == doc_page_spec(
            url@,
            body@,
            raw@,
            governing.deep_view(),
            named.deep_view(),
            attested.deep_view(),
            construction.deep_view(),
            (tokens.prohibition_class.deep_view(), tokens.scope_exception.deep_view(), tokens.usage_form.deep_view()),
        ),
{
    let ghost gv = governing.deep_view();
    let ghost nv = named.deep_view();
    let u = chars_of(url);
    let reference = is_reference_page(url);
    let rule = is_rule_page(url);
    let att_v = crate::text::chars_of_all(attested);
    let existing = !rule && crate::text::holds(&att_v, u.as_slice());
    let subj = subjects_exec(construction, u.as_slice());
    let cons = !rule && !existing && subj.len() > 0;
    let mut page = DocPage {
        url: crate::text::string_of(u.as_slice()),
        prohibited: false,
        attested_deprecated: false,
        governing: Vec::new(),
        constructs: Vec::new(),
        incorrect: Vec::new(),
        correct: Vec::new(),
        example_code: Vec::new(),
        marked_deprecated: Vec::new(),
        counter_attested: Vec::new(),
        construction_attested: false,
    };
    proof {
        assert(page.governing.deep_view() =~= Seq::<Seq<char>>::empty());
        assert(page.constructs.deep_view() =~= Seq::<Seq<char>>::empty());
        assert(page.incorrect.deep_view() =~= Seq::<Seq<char>>::empty());
        assert(page.correct.deep_view() =~= Seq::<Seq<char>>::empty());
        assert(page.example_code.deep_view() =~= Seq::<Seq<char>>::empty());
        assert(page.marked_deprecated.deep_view() =~= Seq::<Seq<Seq<char>>>::empty());
        assert(page.counter_attested.deep_view() =~= Seq::<Seq<Seq<char>>>::empty());
    }
    if !rule && !existing && !cons {
        return page;
    }
    page.prohibited = true;
    page.governing = copy_strings(governing);
    if rule {
        let mut out: Vec<String> = Vec::new();
        let mut ticked: usize = 0;
        let mut i: usize = 0;
        assert(out.deep_view() =~= offer_all(Seq::empty(), prose_named(gv, nv, 0), 1));
        while i < governing.len()
            invariant
                i <= governing@.len(),
                gv == governing.deep_view(),
                nv == named.deep_view(),
                gv.len() == governing@.len(),
                nv.len() == named@.len(),
                named@.len() == governing@.len(),
                ticked == ticked_before(gv, i as int),
                ticked <= i,
                out.deep_view() == offer_all(Seq::empty(), prose_named(gv, nv, i as int), 1),
            decreases governing@.len() - i,
        {
            proof {
                assert(gv[i as int] == governing@[i as int]@);
                assert(nv[i as int] == named@[i as int].deep_view());
            }
            let tick = has_tick(governing[i].as_str());
            if tick && ticked < PROSE_SENTENCE_LIMIT {
                proof {
                    lemma_offer_all_concat(Seq::empty(), prose_named(gv, nv, i as int), nv[i as int], 1);
                }
                offer_each(&mut out, &named[i], 1);
            }
            if tick {
                ticked = ticked + 1;
            }
            i = i + 1;
        }
        let ghost pn = prose_named(gv, nv, gv.len() as int);
        let inc = examples_of_class(raw, "incorrect");
        let cor = examples_of_class(raw, "correct");
        let ghost iv = inc.deep_view();
        let mut j: usize = 0;
        assert(iv.take(0) =~= Seq::<Seq<char>>::empty());
        assert(offer_all(offer_all(Seq::empty(), pn, 1), block_operators(iv.take(0)), 1) == offer_all(Seq::empty(), pn, 1));
        while j < inc.len()
            invariant
                j <= inc@.len(),
                iv == inc.deep_view(),
                iv.len() == inc@.len(),
                out.deep_view() == offer_all(offer_all(Seq::empty(), pn, 1), block_operators(iv.take(j as int)), 1),
            decreases inc@.len() - j,
        {
            proof {
                assert(iv[j as int] == inc@[j as int]@);
                assert(iv.take(j + 1).drop_last() =~= iv.take(j as int));
                assert(iv.take(j + 1).last() == iv[j as int]);
                lemma_offer_all_concat(
                    offer_all(Seq::empty(), pn, 1),
                    block_operators(iv.take(j as int)),
                    operator_fold(Seq::empty(), words(iv[j as int])),
                    1,
                );
            }
            let ops = operator_tokens(inc[j].as_str());
            offer_each(&mut out, &ops, 1);
            j = j + 1;
        }
        assert(iv.take(j as int) =~= iv);
        page.constructs = out;
        page.incorrect = inc;
        page.correct = cor;
        return page;
    }
    if cons {
        let mut out: Vec<String> = Vec::new();
        assert(out.deep_view() =~= Seq::<Seq<char>>::empty());
        offer_each(&mut out, &subj, 0);
        page.attested_deprecated = true;
        page.construction_attested = true;
        page.constructs = out;
        return page;
    }
    let (marked, counter) = attested_item_shapes(body, tokens);
    let ec = page_example_corpus(body, marked.len() > 0 || counter.len() > 0);
    let ghost mv = marked.deep_view();
    let ghost cv = counter.deep_view();
    let mut out: Vec<String> = Vec::new();
    let mut g: usize = 0;
    assert(mv.take(0) =~= Seq::<Seq<Seq<char>>>::empty());
    assert(out.deep_view() =~= offer_all(Seq::empty(), concat_all(mv.take(0)), 0));
    while g < marked.len()
        invariant
            g <= marked@.len(),
            mv == marked.deep_view(),
            mv.len() == marked@.len(),
            out.deep_view() == offer_all(Seq::empty(), concat_all(mv.take(g as int)), 0),
        decreases marked@.len() - g,
    {
        proof {
            assert(mv[g as int] == marked@[g as int].deep_view());
            assert(mv.take(g + 1).drop_last() =~= mv.take(g as int));
            assert(mv.take(g + 1).last() == mv[g as int]);
            lemma_offer_all_concat(Seq::empty(), concat_all(mv.take(g as int)), mv[g as int], 0);
        }
        offer_each(&mut out, &marked[g], 0);
        g = g + 1;
    }
    let mut g: usize = 0;
    assert(mv.take(mv.len() as int) =~= mv);
    assert(mv + cv.take(0) =~= mv);
    while g < counter.len()
        invariant
            g <= counter@.len(),
            mv == marked.deep_view(),
            cv == counter.deep_view(),
            cv.len() == counter@.len(),
            out.deep_view() == offer_all(Seq::empty(), concat_all(mv + cv.take(g as int)), 0),
        decreases counter@.len() - g,
    {
        proof {
            assert(cv[g as int] == counter@[g as int].deep_view());
            assert((mv + cv.take(g + 1)).drop_last() =~= mv + cv.take(g as int));
            assert((mv + cv.take(g + 1)).last() == cv[g as int]);
            lemma_offer_all_concat(Seq::empty(), concat_all(mv + cv.take(g as int)), cv[g as int], 0);
        }
        offer_each(&mut out, &counter[g], 0);
        g = g + 1;
    }
    assert(cv.take(cv.len() as int) =~= cv);
    if !reference {
        let rs = example_receiver_shapes(url, ec.as_slice());
        offer_each(&mut out, &rs, 0);
    }
    let ms = member_page_shapes(url);
    offer_each(&mut out, &ms, 2);
    page.attested_deprecated = true;
    page.constructs = out;
    page.example_code = ec;
    page.marked_deprecated = marked;
    page.counter_attested = counter;
    page
}


// ── Laws ─────────────────────────────────────────────────────────────────────

proof fn lemma_offer_all_distinct(out: Seq<Seq<char>>, xs: Seq<Seq<char>>, mode: nat)
    requires
        out.no_duplicates(),
    ensures
        offer_all(out, xs, mode).no_duplicates(),
    decreases xs.len(),
{
    if xs.len() > 0 {
        lemma_offer_all_distinct(out, xs.drop_last(), mode);
        let p = offer_all(out, xs.drop_last(), mode);
        let x = if mode == 1 { normalized(xs.last()) } else { xs.last() };
        if !((mode != 0 && byte_len(x) < 2) || p.contains(x)) {
            assert forall|a: int, b: int| 0 <= a < b < p.push(x).len() implies p.push(x)[a] != p.push(x)[b] by {
                if b == p.len() {
                    assert(p.push(x)[a] == p[a]);
                }
            }
        }
    }
}

/// A page's own worked-example code, widened with its inline code when it marks items in
/// place (see [`example_corpus_of`]).
pub open spec fn own_examples(body: Seq<char>, toks: (Seq<Seq<char>>, Seq<Seq<char>>, Seq<Seq<char>>)) -> Seq<Seq<char>> {
    let shapes = attested_shapes(body, toks.0, toks.1, toks.2);
    example_corpus_of(body, shapes.0.len() > 0 || shapes.1.len() > 0)
}

proof fn lemma_offer_all_keeps(out: Seq<Seq<char>>, xs: Seq<Seq<char>>, mode: nat)
    ensures
        forall|k: int| 0 <= k < out.len() ==> offer_all(out, xs, mode).contains(#[trigger] out[k]),
        mode == 0 ==> forall|k: int| 0 <= k < xs.len() ==> offer_all(out, xs, mode).contains(#[trigger] xs[k]),
        mode == 2 ==> forall|k: int| 0 <= k < xs.len() && byte_len(#[trigger] xs[k]) >= 2 ==> offer_all(out, xs, mode).contains(xs[k]),
    decreases xs.len(),
{
    if xs.len() > 0 {
        lemma_offer_all_keeps(out, xs.drop_last(), mode);
        let p = offer_all(out, xs.drop_last(), mode);
        let q = offer_all(out, xs, mode);
        assert forall|x: Seq<char>| p.contains(x) implies q.contains(x) by {
            let a = choose|a: int| 0 <= a < p.len() && p[a] == x;
            if q != p {
                assert(q[a] == x);
            }
        }
        assert forall|k: int| 0 <= k < out.len() implies q.contains(#[trigger] out[k]) by {
            assert(p.contains(out[k]));
        }
        if mode == 0 {
            assert forall|k: int| 0 <= k < xs.len() implies q.contains(#[trigger] xs[k]) by {
                if k < xs.len() - 1 {
                    assert(xs.drop_last()[k] == xs[k]);
                    assert(p.contains(xs[k]));
                } else if !p.contains(xs.last()) {
                    assert(q[p.len() as int] == xs.last());
                }
            }
        }
        if mode == 2 {
            assert forall|k: int| 0 <= k < xs.len() && byte_len(#[trigger] xs[k]) >= 2 implies q.contains(xs[k]) by {
                if k < xs.len() - 1 {
                    assert(xs.drop_last()[k] == xs[k]);
                    assert(p.contains(xs[k]));
                } else if !p.contains(xs.last()) {
                    assert(q[p.len() as int] == xs.last());
                }
            }
        }
    }
}

/// A page attested deprecated that is neither a rule page nor construction-bound proposes
/// every receiver shape its own example code shows when its url is not a `/reference/`
/// path, and every member shape of its url of at least two bytes.
pub proof fn law_attested_page_proposes_example_receivers_and_member_shapes(
    url: Seq<char>,
    body: Seq<char>,
    raw: Seq<char>,
    gov: Seq<Seq<char>>,
    named: Seq<Seq<Seq<char>>>,
    attested: Seq<Seq<char>>,
    construction: Seq<(Seq<char>, Seq<Seq<char>>)>,
    toks: (Seq<Seq<char>>, Seq<Seq<char>>, Seq<Seq<char>>),
)
    requires
        attested.contains(url),
        !contains_seq(lowercase(url), rules_marker()),
    ensures
        !contains_seq(lowercase(url), reference_marker()) ==> forall|k: int|
            0 <= k < example_receivers(
                url,
                own_examples(body, toks),
            ).len() ==> doc_page_spec(url, body, raw, gov, named, attested, construction, toks).constructs.contains(
                #[trigger] example_receivers(
                    url,
                    own_examples(body, toks),
                )[k],
            ),
        forall|k: int|
            0 <= k < member_shapes(url).len() && byte_len(#[trigger] member_shapes(url)[k]) >= 2
                ==> doc_page_spec(url, body, raw, gov, named, attested, construction, toks).constructs.contains(member_shapes(url)[k]),
{
    let e: Seq<Seq<char>> = Seq::empty();
    let shapes = attested_shapes(body, toks.0, toks.1, toks.2);
    let ec = example_corpus_of(body, shapes.0.len() > 0 || shapes.1.len() > 0);
    let c1 = offer_all(e, concat_all(shapes.0 + shapes.1), 0);
    let rs = example_receivers(url, ec);
    let c2 = if !contains_seq(lowercase(url), reference_marker()) {
        offer_all(c1, rs, 0)
    } else {
        c1
    };
    lemma_offer_all_keeps(c1, rs, 0);
    lemma_offer_all_keeps(c2, member_shapes(url), 2);
    let d = doc_page_spec(url, body, raw, gov, named, attested, construction, toks);
    assert(d.constructs == offer_all(c2, member_shapes(url), 2));
    if !contains_seq(lowercase(url), reference_marker()) {
        assert forall|k: int| 0 <= k < rs.len() implies d.constructs.contains(#[trigger] rs[k]) by {
            assert(c2.contains(rs[k]));
            let a = choose|a: int| 0 <= a < c2.len() && c2[a] == rs[k];
            assert(d.constructs.contains(c2[a]));
        }
    }
}

/// A page attested deprecated that is neither a rule page nor construction-bound proposes
/// every item shape it marks deprecated, counter-attested ones included; a page a proven
/// construction binds (not a rule page, not attested) proposes every construction subject.
pub proof fn law_marked_and_construction_subjects_are_proposed(
    url: Seq<char>,
    body: Seq<char>,
    raw: Seq<char>,
    gov: Seq<Seq<char>>,
    named: Seq<Seq<Seq<char>>>,
    attested: Seq<Seq<char>>,
    construction: Seq<(Seq<char>, Seq<Seq<char>>)>,
    toks: (Seq<Seq<char>>, Seq<Seq<char>>, Seq<Seq<char>>),
)
    ensures
        attested.contains(url) && !contains_seq(lowercase(url), rules_marker()) ==> forall|k: int|
            0 <= k < concat_all(attested_shapes(body, toks.0, toks.1, toks.2).0 + attested_shapes(body, toks.0, toks.1, toks.2).1).len()
                ==> doc_page_spec(url, body, raw, gov, named, attested, construction, toks).constructs.contains(
                #[trigger] concat_all(attested_shapes(body, toks.0, toks.1, toks.2).0 + attested_shapes(body, toks.0, toks.1, toks.2).1)[k],
            ),
        !attested.contains(url) && !contains_seq(lowercase(url), rules_marker()) ==> forall|k: int|
            0 <= k < subjects_of(construction, url).len() ==> doc_page_spec(url, body, raw, gov, named, attested, construction, toks).constructs.contains(
                #[trigger] subjects_of(construction, url)[k],
            ),
{
    let e: Seq<Seq<char>> = Seq::empty();
    let shapes = attested_shapes(body, toks.0, toks.1, toks.2);
    let ec = example_corpus_of(body, shapes.0.len() > 0 || shapes.1.len() > 0);
    let all = concat_all(shapes.0 + shapes.1);
    let c1 = offer_all(e, all, 0);
    let rs = example_receivers(url, ec);
    let c2 = if !contains_seq(lowercase(url), reference_marker()) {
        offer_all(c1, rs, 0)
    } else {
        c1
    };
    lemma_offer_all_keeps(e, all, 0);
    lemma_offer_all_keeps(c1, rs, 0);
    lemma_offer_all_keeps(c2, member_shapes(url), 2);
    lemma_offer_all_keeps(e, subjects_of(construction, url), 0);
    let d = doc_page_spec(url, body, raw, gov, named, attested, construction, toks);
    if attested.contains(url) && !contains_seq(lowercase(url), rules_marker()) {
        assert(d.constructs == offer_all(c2, member_shapes(url), 2));
        assert forall|k: int| 0 <= k < all.len() implies d.constructs.contains(#[trigger] all[k]) by {
            assert(c1.contains(all[k]));
            let a = choose|a: int| 0 <= a < c1.len() && c1[a] == all[k];
            assert(c2.contains(c1[a]));
            let b = choose|b: int| 0 <= b < c2.len() && c2[b] == all[k];
            assert(d.constructs.contains(c2[b]));
        }
    }
}

/// A read page names each candidate construct once, and only a prohibited page names any:
/// a page prohibits its subject exactly when it is a rule page, a page attested deprecated,
/// or one a proven construction binds subjects on; a rule page never attests deprecation.
pub proof fn law_doc_page_constructs_are_distinct_and_prohibited(
    url: Seq<char>,
    body: Seq<char>,
    raw: Seq<char>,
    gov: Seq<Seq<char>>,
    named: Seq<Seq<Seq<char>>>,
    attested: Seq<Seq<char>>,
    construction: Seq<(Seq<char>, Seq<Seq<char>>)>,
    toks: (Seq<Seq<char>>, Seq<Seq<char>>, Seq<Seq<char>>),
)
    ensures
        doc_page_spec(url, body, raw, gov, named, attested, construction, toks).constructs.no_duplicates(),
        doc_page_spec(url, body, raw, gov, named, attested, construction, toks).prohibited <==> (contains_seq(
            lowercase(url),
            rules_marker(),
        ) || attested.contains(url) || subjects_of(construction, url).len() > 0),
        !doc_page_spec(url, body, raw, gov, named, attested, construction, toks).prohibited ==> doc_page_spec(
            url,
            body,
            raw,
            gov,
            named,
            attested,
            construction,
            toks,
        ).constructs.len() == 0,
        contains_seq(lowercase(url), rules_marker()) ==> !doc_page_spec(url, body, raw, gov, named, attested, construction, toks).attested_deprecated,
{
    let e: Seq<Seq<char>> = Seq::empty();
    assert(e.no_duplicates());
    let rule = contains_seq(lowercase(url), rules_marker());
    if rule {
        let inc = examples_of_class_spec(raw, "incorrect"@).unwrap();
        let pn = prose_named(gov, named, gov.len() as int);
        lemma_offer_all_distinct(e, pn, 1);
        lemma_offer_all_distinct(offer_all(e, pn, 1), block_operators(inc), 1);
    } else {
        lemma_offer_all_distinct(e, subjects_of(construction, url), 0);
        let shapes = attested_shapes(body, toks.0, toks.1, toks.2);
        let ec = example_corpus_of(body, shapes.0.len() > 0 || shapes.1.len() > 0);
        let c1 = offer_all(e, concat_all(shapes.0 + shapes.1), 0);
        lemma_offer_all_distinct(e, concat_all(shapes.0 + shapes.1), 0);
        lemma_offer_all_distinct(c1, example_receivers(url, ec), 0);
        let c2 = if !contains_seq(lowercase(url), reference_marker()) {
            offer_all(c1, example_receivers(url, ec), 0)
        } else {
            c1
        };
        lemma_offer_all_distinct(c2, member_shapes(url), 2);
    }
}

} // verus!
