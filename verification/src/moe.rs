//! A mixture of experts that reads code and reasons in 1-bit signal space. A code window
//! becomes a hypervector; a router sends it to the experts whose signature lies nearest;
//! each expert answers with its nearest violation signal within that signal's own cap;
//! a causation gate confirms a borderline match by dropping the window's rarest token.
//! Only the verdict's rule index leaves the reasoning; a rule name appears when it is
//! reported.

use vstd::prelude::*;
use crate::hv::{bind, bundle, bundle_of, dist, hv_views, signal, Hv, HV_BITS, HV_WORDS};
use crate::lexer::{lex, lex_chars, lex_texts};
use crate::text::{add_unique, chars_eq, chars_of, chars_of_all, copy_chars, push_unique, string_of, strings_of, views};
use rayon::iter::{IntoParallelRefIterator, ParallelIterator};

verus! {

broadcast use vstd::string::group_string_axioms;

/// The width of the sliding code window, in tokens.
pub const WIN: usize = 4;

/// A documented training example: a rule, the documentation slice (the expert) it belongs
/// to, and the code the rule says is wrong beside its corrected form.
pub struct Example {
    /// Stable rule id, reported on a hit and never used in reasoning.
    pub rule: String,
    /// The expert this rule trains.
    pub slice: String,
    /// Code the rule says is wrong.
    pub bad: String,
    /// The corrected form.
    pub good: String,
}

/// The representation the model reasons over. `Lexer` is the built-in code-aware lexer,
/// which collapses strings, numbers and comments to class tokens.
pub enum Tokenizer {
    /// The built-in lexer.
    Lexer,
}

impl Tokenizer {
    /// The tokens of `code` under this representation, each with the 1-based line it starts
    /// on (see [`lex`]).
    pub fn tokenize_located(&self, code: &str) -> (r: Vec<(String, usize)>)
        ensures
            r@.len() == lex(code@).len(),
            forall|k: int|
                0 <= k < r@.len() ==> (#[trigger] r@[k]).0@ == lex(code@)[k].0 && r@[k].1 == lex(code@)[k].1,
    {
        let cs = chars_of(code);
        let toks = lex_chars(cs.as_slice());
        let mut out: Vec<(String, usize)> = Vec::new();
        let mut i: usize = 0;
        while i < toks.len()
            invariant
                i <= toks@.len(),
                cs@ == code@,
                toks@.len() == lex(code@).len(),
                forall|k: int|
                    0 <= k < toks@.len() ==> toks@[k].0@ == #[trigger] lex(code@)[k].0 && toks@[k].1
                        == lex(code@)[k].1,
                out@.len() == i,
                forall|k: int|
                    0 <= k < i ==> (#[trigger] out@[k]).0@ == lex(code@)[k].0 && out@[k].1 == lex(code@)[k].1,
            decreases toks@.len() - i,
        {
            out.push((string_of(toks[i].0.as_slice()), toks[i].1));
            i = i + 1;
        }
        out
    }

    /// The token texts of `code` under this representation.
    pub fn tokenize(&self, code: &str) -> (r: Vec<String>)
        ensures
            r.deep_view() == lex_texts(code@),
    {
        let cs = chars_of(code);
        let sl = cs.as_slice();
        let toks = lex_chars(sl);
        proof {
            assert(sl@ == code@);
            assert forall|k: int| 0 <= k < toks@.len() implies toks@[k].0@ == #[trigger] lex(code@)[k].0
                && toks@[k].1 == lex(code@)[k].1 by {
                assert(toks@[k].0@ == lex(sl@)[k].0);
            }
        }
        let mut out: Vec<String> = Vec::new();
        let mut i: usize = 0;
        while i < toks.len()
            invariant
                i <= toks@.len(),
                toks@.len() == lex(code@).len(),
                cs@ == code@,
                forall|k: int|
                    0 <= k < toks@.len() ==> toks@[k].0@ == #[trigger] lex(code@)[k].0 && toks@[k].1
                        == lex(code@)[k].1,
                out.deep_view() == lex_texts(code@).take(i as int),
            decreases toks@.len() - i,
        {
            let ghost before = out.deep_view();
            out.push(string_of(toks[i].0.as_slice()));
            proof {
                assert(out.deep_view() =~= before.push(toks@[i as int].0@));
                assert(lex_texts(code@).take(i + 1) =~= lex_texts(code@).take(i as int).push(
                    lex(code@)[i as int].0,
                ));
            }
            i = i + 1;
        }
        assert(lex_texts(code@).take(i as int) =~= lex_texts(code@));
        out
    }
}

impl Default for Tokenizer {
    /// The built-in lexer.
    fn default() -> (r: Tokenizer)
        ensures
            r == Tokenizer::Lexer,
    {
        Tokenizer::Lexer
    }
}

/// The windows a token sequence is cut into: every run of [`WIN`] consecutive tokens, or,
/// for a sequence shorter than that but of at least two tokens, the whole sequence.
pub open spec fn windows_of<T>(toks: Seq<T>) -> Seq<Seq<T>> {
    if toks.len() < WIN {
        if toks.len() >= 2 {
            seq![toks]
        } else {
            Seq::empty()
        }
    } else {
        Seq::new((toks.len() - WIN + 1) as nat, |i: int| toks.subrange(i, i + WIN))
    }
}

/// The windows of a source text.
pub open spec fn code_windows(code: Seq<char>) -> Seq<Seq<Seq<char>>> {
    windows_of(lex_texts(code))
}

/// A violation signal: its vector, the rule it marks, and its own match cap.
struct Sig {
    hv: Hv,
    rule: u32,
    cap: u32,
}

/// One expert: the violation signals of one documentation slice and its router signature.
struct Expert {
    name: String,
    sigs: Vec<Sig>,
    signature: Hv,
}

/// A signal as plain values: (vector, rule index, cap).
pub type SigV = (Seq<u64>, u32, u32);

/// An expert as plain values: (name, signals, signature).
pub type ExpertV = (Seq<char>, Seq<SigV>, Seq<u64>);

spec fn sig_view(s: Sig) -> SigV {
    (s.hv@, s.rule, s.cap)
}

spec fn sigs_view(v: Seq<Sig>) -> Seq<SigV> {
    v.map_values(|s: Sig| sig_view(s))
}

spec fn expert_view(e: Expert) -> ExpertV {
    (e.name@, sigs_view(e.sigs@), e.signature@)
}

/// The mixture of experts.
pub struct Moe {
    experts: Vec<Expert>,
    rule_names: Vec<String>,
    freq: Vec<(Vec<char>, u32)>,
    tok: Tokenizer,
    cap: u32,
    topk: usize,
}

/// Whether every vector of the experts has its full width.
pub open spec fn experts_wf(es: Seq<ExpertV>) -> bool {
    forall|i: int|
        0 <= i < es.len() ==> (#[trigger] es[i]).2.len() == HV_WORDS && (forall|j: int|
            0 <= j < es[i].1.len() ==> (#[trigger] es[i].1[j]).0.len() == HV_WORDS)
}

// ── Reasoning over one window ────────────────────────────────────────────────

/// The nearest of `sigs` (first among equals) whose cap admits `q`: its rule, distance
/// and cap.
pub open spec fn nearest_in(sigs: Seq<SigV>, q: Seq<u64>) -> Option<(u32, nat, u32)>
    decreases sigs.len(),
{
    if sigs.len() == 0 {
        None
    } else {
        let prev = nearest_in(sigs.drop_last(), q);
        let s = sigs.last();
        let d = dist(s.0, q);
        if d <= s.2 && (prev is None || d < prev.unwrap().1) {
            Some((s.1, d, s.2))
        } else {
            prev
        }
    }
}

/// How many of the first `n` router distances rank before expert `i` (nearer, or as near
/// and earlier).
pub open spec fn ahead(ds: Seq<nat>, i: int, n: int) -> nat
    decreases n,
{
    if n <= 0 {
        0
    } else {
        ahead(ds, i, n - 1) + if ds[n - 1] < ds[i] || (ds[n - 1] == ds[i] && n - 1 < i) {
            1nat
        } else {
            0nat
        }
    }
}

/// The router distances of the experts to `q`.
pub open spec fn router_dists(es: Seq<ExpertV>, q: Seq<u64>) -> Seq<nat> {
    es.map_values(|e: ExpertV| dist(e.2, q))
}

/// Whether expert `i` is among the `k` the router sends `q` to.
pub open spec fn routed(es: Seq<ExpertV>, q: Seq<u64>, i: int, k: int) -> bool {
    ahead(router_dists(es, q), i, es.len() as int) < k
}

/// Among the first `n` experts that are routed and claim `q`, the one whose claim is
/// nearest (ties to the expert nearer by router distance, then to the earlier expert):
/// (rule, distance, cap, expert index).
pub open spec fn best_claim(es: Seq<ExpertV>, q: Seq<u64>, k: int, n: int) -> Option<(u32, nat, u32, int)>
    decreases n,
{
    if n <= 0 {
        None
    } else {
        let prev = best_claim(es, q, k, n - 1);
        let i = n - 1;
        let ds = router_dists(es, q);
        match nearest_in(es[i].1, q) {
            Some(c) => if routed(es, q, i, k) && (prev is None || c.1 < prev.unwrap().1 || (c.1
                == prev.unwrap().1 && ds[i] < ds[prev.unwrap().3])) {
                Some((c.0, c.1, c.2, i))
            } else {
                prev
            },
            None => prev,
        }
    }
}

/// The count a frequency table records for `t` (the first entry with that key).
pub open spec fn freq_of(f: Seq<(Seq<char>, u32)>, t: Seq<char>) -> Option<u32>
    decreases f.len(),
{
    if f.len() == 0 {
        None
    } else if f[0].0 == t {
        Some(f[0].1)
    } else {
        freq_of(f.drop_first(), t)
    }
}

/// The rarest token of `w` the table knows (the first among equals), with its count.
pub open spec fn rarest(f: Seq<(Seq<char>, u32)>, w: Seq<Seq<char>>) -> Option<(Seq<char>, u32)>
    decreases w.len(),
{
    if w.len() == 0 {
        None
    } else {
        let prev = rarest(f, w.drop_last());
        match freq_of(f, w.last()) {
            Some(c) => if prev is None || c < prev.unwrap().1 {
                Some((w.last(), c))
            } else {
                prev
            },
            None => prev,
        }
    }
}

/// `w` without every occurrence of `t`.
pub open spec fn without(w: Seq<Seq<char>>, t: Seq<char>) -> Seq<Seq<char>> {
    w.filter(|x: Seq<char>| x != t)
}

/// The verdict on one window: route, take the nearest claim among the routed experts,
/// accept it outright when it lies within a third of its cap, and otherwise only when
/// dropping the window's rarest known token changes the verdict of the claiming expert.
pub open spec fn verdict(
    es: Seq<ExpertV>,
    f: Seq<(Seq<char>, u32)>,
    topk: int,
    w: Seq<Seq<char>>,
) -> Option<u32> {
    if w.len() < 2 || es.len() == 0 {
        None
    } else {
        let q = signal(w);
        let k = if topk < 1 {
            1
        } else {
            topk
        };
        match best_claim(es, q, k, es.len() as int) {
            None => None,
            Some(b) => if b.1 * 3 <= b.2 {
                Some(b.0)
            } else {
                match rarest(f, w) {
                    None => None,
                    Some(subj) => {
                        let rest = without(w, subj.0);
                        if rest.len() < 2 {
                            None
                        } else {
                            match nearest_in(es[b.3].1, signal(rest)) {
                                Some(c) => if c.0 == b.0 {
                                    None
                                } else {
                                    Some(b.0)
                                },
                                None => Some(b.0),
                            }
                        }
                    },
                }
            },
        }
    }
}

/// The routing width a model judges with: at least one expert.
pub open spec fn route_width(topk: int) -> int {
    if topk < 1 {
        1
    } else {
        topk
    }
}

/// The causation gate: a window's best routed claim (rule `r`, distance `d`, cap `c`) is
/// reported outright only when `3 * d <= c`. A farther claim is reported only when the
/// window's rarest known token exists, the window without it keeps at least two tokens, and
/// the claiming expert's nearest signal on that reduced window is absent or of another rule;
/// otherwise the window reports nothing. A window of fewer than two tokens, a model without
/// experts, or a window no routed expert claims reports nothing.
pub proof fn law_verdict_confirms_far_claims_by_their_subject(
    es: Seq<ExpertV>,
    f: Seq<(Seq<char>, u32)>,
    topk: int,
    w: Seq<Seq<char>>,
)
    ensures
        (w.len() < 2 || es.len() == 0) ==> verdict(es, f, topk, w) is None,
        w.len() >= 2 && es.len() > 0 ==> match best_claim(es, signal(w), route_width(topk), es.len() as int) {
            None => verdict(es, f, topk, w) is None,
            Some(b) => {
                &&& b.1 * 3 <= b.2 ==> verdict(es, f, topk, w) == Some(b.0)
                &&& b.1 * 3 > b.2 ==> (verdict(es, f, topk, w) == Some(b.0) <==> {
                    &&& rarest(f, w) is Some
                    &&& w.filter(|x: Seq<char>| x != rarest(f, w).unwrap().0).len() >= 2
                    &&& match nearest_in(es[b.3].1, signal(w.filter(|x: Seq<char>| x != rarest(f, w).unwrap().0))) {
                        None => true,
                        Some(c) => c.0 != b.0,
                    }
                })
                &&& b.1 * 3 > b.2 ==> (verdict(es, f, topk, w) is None || verdict(es, f, topk, w) == Some(b.0))
            },
        },
{
    if w.len() >= 2 && es.len() > 0 {
        match rarest(f, w) {
            Some(subj) => {
                assert(without(w, subj.0) == w.filter(|x: Seq<char>| x != rarest(f, w).unwrap().0));
            },
            None => {},
        }
    }
}

/// The distinct verdicts over `ws`, in order of first appearance.
pub open spec fn verdicts(
    es: Seq<ExpertV>,
    f: Seq<(Seq<char>, u32)>,
    topk: int,
    ws: Seq<Seq<Seq<char>>>,
) -> Seq<u32>
    decreases ws.len(),
{
    if ws.len() == 0 {
        Seq::empty()
    } else {
        let prev = verdicts(es, f, topk, ws.drop_last());
        match verdict(es, f, topk, ws.last()) {
            Some(r) => if prev.contains(r) {
                prev
            } else {
                prev.push(r)
            },
            None => prev,
        }
    }
}

/// The located verdicts over the tokens `toks` (text, line): the whole sequence as one
/// window when shorter than [`WIN`], else every window, each rule at the line of the first
/// window that flags it.
pub open spec fn located(
    es: Seq<ExpertV>,
    f: Seq<(Seq<char>, u32)>,
    topk: int,
    toks: Seq<(Seq<char>, int)>,
) -> Seq<(int, u32)> {
    let texts = toks.map_values(|t: (Seq<char>, int)| t.0);
    if texts.len() < WIN {
        if texts.len() >= 2 {
            match verdict(es, f, topk, texts) {
                Some(r) => seq![(toks[0].1, r)],
                None => Seq::empty(),
            }
        } else {
            Seq::empty()
        }
    } else {
        located_from(es, f, topk, toks, (texts.len() - WIN + 1) as int)
    }
}

/// The located verdicts of the first `n` windows of `toks`.
pub open spec fn located_from(
    es: Seq<ExpertV>,
    f: Seq<(Seq<char>, u32)>,
    topk: int,
    toks: Seq<(Seq<char>, int)>,
    n: int,
) -> Seq<(int, u32)>
    decreases n,
{
    if n <= 0 {
        Seq::empty()
    } else {
        let prev = located_from(es, f, topk, toks, n - 1);
        let w = toks.subrange(n - 1, n - 1 + WIN).map_values(|t: (Seq<char>, int)| t.0);
        match verdict(es, f, topk, w) {
            Some(r) => if prev.map_values(|p: (int, u32)| p.1).contains(r) {
                prev
            } else {
                prev.push((toks[n - 1].1, r))
            },
            None => prev,
        }
    }
}

impl Moe {
    /// The experts as plain values.
    pub closed spec fn experts_view(&self) -> Seq<ExpertV> {
        self.experts@.map_values(|e: Expert| expert_view(e))
    }

    /// The rule names, by rule index.
    pub closed spec fn rule_names_view(&self) -> Seq<Seq<char>> {
        self.rule_names.deep_view()
    }

    /// The token frequency table.
    pub closed spec fn freq_view(&self) -> Seq<(Seq<char>, u32)> {
        self.freq@.map_values(|p: (Vec<char>, u32)| (p.0@, p.1))
    }

    /// How many experts a window is routed to.
    pub closed spec fn topk_view(&self) -> usize {
        self.topk
    }

    /// The confident-match distance the model was trained with.
    pub closed spec fn cap_view(&self) -> u32 {
        self.cap
    }

    /// Whether every vector of the model has its full width and no token is counted
    /// under two entries.
    pub open spec fn wf(&self) -> bool {
        &&& experts_wf(self.experts_view())
        &&& keys_of(self.freq_view()).no_duplicates()
    }

    /// The verdict of the model on one window.
    pub open spec fn verdict_on(&self, w: Seq<Seq<char>>) -> Option<u32> {
        verdict(self.experts_view(), self.freq_view(), self.topk_view() as int, w)
    }
}


// ── Executable reasoning ─────────────────────────────────────────────────────

impl Expert {
    /// The nearest signal whose cap admits `q` (see [`nearest_in`]).
    fn nearest(&self, q: &Hv) -> (r: Option<(u32, u32, u32)>)
        requires
            q.wf(),
            forall|j: int| 0 <= j < self.sigs@.len() ==> (#[trigger] self.sigs@[j]).hv.wf(),
        ensures
            match nearest_in(sigs_view(self.sigs@), q@) {
                None => r is None,
                Some(c) => r is Some && r.unwrap().0 == c.0 && r.unwrap().1 as nat == c.1
                    && r.unwrap().2 == c.2,
            },
    {
        let ghost sv = sigs_view(self.sigs@);
        let mut best: Option<(u32, u32, u32)> = None;
        let mut i: usize = 0;
        while i < self.sigs.len()
            invariant
                i <= self.sigs@.len(),
                q.wf(),
                sv == sigs_view(self.sigs@),
                forall|j: int| 0 <= j < self.sigs@.len() ==> (#[trigger] self.sigs@[j]).hv.wf(),
                match nearest_in(sv.take(i as int), q@) {
                    None => best is None,
                    Some(c) => best is Some && best.unwrap().0 == c.0 && best.unwrap().1 as nat
                        == c.1 && best.unwrap().2 == c.2,
                },
            decreases self.sigs@.len() - i,
        {
            let s = &self.sigs[i];
            let d = s.hv.distance(q);
            proof {
                assert(sv.take(i + 1).drop_last() =~= sv.take(i as int));
                assert(sv.take(i + 1).last() == sig_view(self.sigs@[i as int]));
                assert(dist(q@, s.hv@) == dist(s.hv@, q@)) by {
                    lemma_dist_symmetric(s.hv@, q@, HV_WORDS as nat);
                }
            }
            let better = match best {
                None => true,
                Some(b) => d < b.1,
            };
            if d <= s.cap && better {
                best = Some((s.rule, d, s.cap));
            }
            i = i + 1;
        }
        assert(sv.take(i as int) =~= sv);
        best
    }
}

proof fn lemma_dist_symmetric(a: Seq<u64>, b: Seq<u64>, k: nat)
    ensures
        crate::hv::dist_upto(a, b, k) == crate::hv::dist_upto(b, a, k),
    decreases k,
{
    if k > 0 {
        lemma_dist_symmetric(a, b, (k - 1) as nat);
        let x = a[k - 1];
        let y = b[k - 1];
        assert(x ^ y == y ^ x) by (bit_vector);
    }
}

/// The character vectors of the window `w`.
fn window_chars(w: &[String]) -> (r: Vec<Vec<char>>)
    ensures
        views(r@) == w.deep_view(),
{
    chars_of_all(w)
}

/// Whether the table records `t`, and its count.
fn freq_lookup(f: &Vec<(Vec<char>, u32)>, t: &[char]) -> (r: Option<u32>)
    ensures
        r == freq_of(f@.map_values(|p: (Vec<char>, u32)| (p.0@, p.1)), t@),
{
    let ghost fv = f@.map_values(|p: (Vec<char>, u32)| (p.0@, p.1));
    let mut i: usize = 0;
    assert(fv.skip(0) =~= fv);
    while i < f.len()
        invariant
            i <= f@.len(),
            fv == f@.map_values(|p: (Vec<char>, u32)| (p.0@, p.1)),
            freq_of(fv, t@) == freq_of(fv.skip(i as int), t@),
        decreases f@.len() - i,
    {
        proof {
            assert(fv.skip(i as int).drop_first() =~= fv.skip(i + 1));
            assert(fv.skip(i as int)[0] == (f@[i as int].0@, f@[i as int].1));
        }
        if chars_eq(f[i].0.as_slice(), t) {
            return Some(f[i].1);
        }
        i = i + 1;
    }
    None
}

impl Moe {
    /// The verdict on one window of token texts (see [`verdict`]).
    fn verdict_chars(&self, w: &Vec<Vec<char>>) -> (r: Option<u32>)
        requires
            self.wf(),
        ensures
            r == self.verdict_on(views(w@)),
    {
        let ghost es = self.experts_view();
        let ghost wv = views(w@);
        if w.len() < 2 || self.experts.len() == 0 {
            return None;
        }
        let q = bind(w.as_slice());
        proof {
            assert(w@.map_values(|t: Vec<char>| t@) =~= wv);
            self.lemma_experts_wf();
        }
        let k: usize = if self.topk < 1 {
            1
        } else {
            self.topk
        };
        // router distances
        let ne = self.experts.len();
        let mut ds: Vec<u32> = Vec::new();
        let mut i: usize = 0;
        while i < ne
            invariant
                i <= ne,
                ne == self.experts@.len(),
                es == self.experts_view(),
                q.wf(),
                forall|e: int| 0 <= e < self.experts@.len() ==> (#[trigger] self.experts@[e]).signature.wf(),
                ds@.len() == i,
                forall|e: int| 0 <= e < i ==> ds@[e] as nat == #[trigger] router_dists(es, q@)[e],
            decreases ne - i,
        {
            let d = self.experts[i].signature.distance(&q);
            proof {
                assert(es[i as int] == expert_view(self.experts@[i as int]));
            }
            ds.push(d);
            i = i + 1;
        }
        // best claim among the routed experts
        proof {
            assert(ds@.map_values(|d: u32| d as nat) =~= router_dists(es, q@));
        }
        let mut best: Option<(u32, u32, u32, usize)> = None;
        let mut e: usize = 0;
        while e < ne
            invariant
                e <= ne,
                ne == self.experts@.len(),
                ne == es.len(),
                es == self.experts_view(),
                q.wf(),
                self.wf(),
                k >= 1,
                ds@.len() == ne,
                ds@.map_values(|d: u32| d as nat) == router_dists(es, q@),
                forall|x: int| 0 <= x < ne ==> ds@[x] as nat == #[trigger] router_dists(es, q@)[x],
                match best_claim(es, q@, k as int, e as int) {
                    None => best is None,
                    Some(b) => best is Some && best.unwrap().0 == b.0 && best.unwrap().1 as nat == b.1
                        && best.unwrap().2 == b.2 && best.unwrap().3 as int == b.3 && 0 <= b.3 < e,
                },
            decreases ne - e,
        {
            let ahead_n = rank_of(&ds, e);
            let claim = self.claim_of(e, &q);
            let ghost prev = best_claim(es, q@, k as int, e as int);
            match claim {
                Some(c) => {
                    let take = ahead_n < k && match best {
                        None => true,
                        Some(b) => c.1 < b.1 || (c.1 == b.1 && ds[e] < ds[b.3]),
                    };
                    if take {
                        best = Some((c.0, c.1, c.2, e));
                    }
                },
                None => {},
            }
            proof {
                assert(routed(es, q@, e as int, k as int) == (ahead_n < k));
            }
            e = e + 1;
        }
        let b = match best {
            None => {
                return None;
            },
            Some(b) => b,
        };
        if (b.1 as u64) * 3 <= (b.2 as u64) {
            return Some(b.0);
        }
        // causation gate: the rarest known token of the window
        let mut subj: Option<(usize, u32)> = None;
        let mut t: usize = 0;
        while t < w.len()
            invariant
                t <= w@.len(),
                wv == views(w@),
                match rarest(self.freq_view(), wv.take(t as int)) {
                    None => subj is None,
                    Some(x) => subj is Some && subj.unwrap().0 < t && wv[subj.unwrap().0 as int] == x.0
                        && subj.unwrap().1 == x.1,
                },
            decreases w@.len() - t,
        {
            proof {
                assert(wv.take(t + 1).drop_last() =~= wv.take(t as int));
                assert(wv.take(t + 1).last() == w@[t as int]@);
            }
            match freq_lookup(&self.freq, w[t].as_slice()) {
                Some(c) => {
                    let better = match subj {
                        None => true,
                        Some(sj) => c < sj.1,
                    };
                    if better {
                        subj = Some((t, c));
                    }
                },
                None => {},
            }
            t = t + 1;
        }
        proof {
            assert(wv.take(t as int) =~= wv);
        }
        let sj = match subj {
            None => {
                return None;
            },
            Some(sj) => sj,
        };
        let subject = &w[sj.0];
        let mut rest: Vec<Vec<char>> = Vec::new();
        let mut m: usize = 0;
        while m < w.len()
            invariant
                m <= w@.len(),
                sj.0 < w@.len(),
                wv == views(w@),
                *subject == w@[sj.0 as int],
                views(rest@) == without(wv.take(m as int), subject@),
            decreases w@.len() - m,
        {
            proof {
                assert(wv.take(m + 1) =~= wv.take(m as int).push(wv[m as int]));
                vstd::seq_lib::lemma_seq_skip_of_skip::<Seq<char>>(wv, 0, 0);
            }
            let ghost before = views(rest@);
            if !chars_eq(w[m].as_slice(), subject.as_slice()) {
                rest.push(copy_chars(w[m].as_slice()));
                proof {
                    assert(views(rest@) =~= before.push(wv[m as int]));
                }
            }
            proof {
                lemma_filter_push(wv.take(m as int), wv[m as int], subject@);
            }
            m = m + 1;
        }
        proof {
            assert(wv.take(m as int) =~= wv);
        }
        if rest.len() < 2 {
            return None;
        }
        let q2 = bind(rest.as_slice());
        proof {
            assert(rest@.map_values(|t: Vec<char>| t@) =~= views(rest@));
            assert(es[b.3 as int] == expert_view(self.experts@[b.3 as int]));
        }
        match self.experts[b.3].nearest(&q2) {
            Some(c2) => if c2.0 == b.0 {
                None
            } else {
                Some(b.0)
            },
            None => Some(b.0),
        }
    }

    /// The claim of expert `e` on `q` (see [`nearest_in`]).
    fn claim_of(&self, e: usize, q: &Hv) -> (r: Option<(u32, u32, u32)>)
        requires
            self.wf(),
            q.wf(),
            e < self.experts@.len(),
        ensures
            match nearest_in(self.experts_view()[e as int].1, q@) {
                None => r is None,
                Some(c) => r is Some && r.unwrap().0 == c.0 && r.unwrap().1 as nat == c.1
                    && r.unwrap().2 == c.2,
            },
    {
        proof {
            self.lemma_experts_wf();
            assert(self.experts_view()[e as int] == expert_view(self.experts@[e as int]));
        }
        self.experts[e].nearest(q)
    }

    proof fn lemma_experts_wf(&self)
        requires
            self.wf(),
        ensures
            forall|e: int| 0 <= e < self.experts@.len() ==> (#[trigger] self.experts@[e]).signature.wf(),
            forall|x: int, j: int| 0 <= x < self.experts@.len() && 0 <= j < self.experts@[x].sigs@.len() ==> (#[trigger] self.experts@[x].sigs@[j]).hv.wf(),
    {
        assert forall|e: int| 0 <= e < self.experts@.len() implies (#[trigger] self.experts@[e]).signature.wf() by {
            assert(self.experts_view()[e] == expert_view(self.experts@[e]));
        }
        assert forall|x: int, j: int| 0 <= x < self.experts@.len() && 0 <= j < self.experts@[x].sigs@.len()
            implies (#[trigger] self.experts@[x].sigs@[j]).hv.wf() by {
            assert(self.experts_view()[x] == expert_view(self.experts@[x]));
            assert(self.experts_view()[x].1[j] == sig_view(self.experts@[x].sigs@[j]));
        }
    }
}

/// How many router distances rank before position `e` (see [`ahead`]).
fn rank_of(ds: &Vec<u32>, e: usize) -> (r: usize)
    requires
        e < ds@.len(),
    ensures
        r == ahead(ds@.map_values(|d: u32| d as nat), e as int, ds@.len() as int),
{
    let ghost dn = ds@.map_values(|d: u32| d as nat);
    let mut n: usize = 0;
    let mut j: usize = 0;
    while j < ds.len()
        invariant
            j <= ds@.len(),
            e < ds@.len(),
            dn == ds@.map_values(|d: u32| d as nat),
            n == ahead(dn, e as int, j as int),
            n <= j,
        decreases ds@.len() - j,
    {
        if ds[j] < ds[e] || (ds[j] == ds[e] && j < e) {
            n = n + 1;
        }
        j = j + 1;
    }
    n
}

/// The tokens of `code`: their texts and their lines.
fn token_list(code: &str) -> (r: (Vec<Vec<char>>, Vec<usize>))
    ensures
        views(r.0@) == lex_texts(code@),
        r.1@.len() == r.0@.len(),
        forall|k: int| 0 <= k < r.1@.len() ==> r.1@[k] as int == #[trigger] lex(code@)[k].1,
{
    let cs = chars_of(code);
    let sl = cs.as_slice();
    let toks = lex_chars(sl);
    let mut texts: Vec<Vec<char>> = Vec::new();
    let mut lines: Vec<usize> = Vec::new();
    let mut i: usize = 0;
    while i < toks.len()
        invariant
            i <= toks@.len(),
            sl@ == code@,
            toks@.len() == lex(sl@).len(),
            forall|k: int|
                0 <= k < toks@.len() ==> toks@[k].0@ == #[trigger] lex(sl@)[k].0 && toks@[k].1
                    == lex(sl@)[k].1,
            views(texts@) == lex_texts(code@).take(i as int),
            lines@.len() == i,
            forall|k: int| 0 <= k < i ==> lines@[k] as int == #[trigger] lex(code@)[k].1,
        decreases toks@.len() - i,
    {
        let ghost before = views(texts@);
        texts.push(copy_chars(toks[i].0.as_slice()));
        lines.push(toks[i].1);
        proof {
            assert(views(texts@) =~= before.push(lex(code@)[i as int].0));
            assert(lex_texts(code@).take(i + 1) =~= lex_texts(code@).take(i as int).push(
                lex(code@)[i as int].0,
            ));
        }
        i = i + 1;
    }
    assert(lex_texts(code@).take(i as int) =~= lex_texts(code@));
    (texts, lines)
}

/// The window of `toks` starting at `i`, `len` tokens long.
fn window_at(toks: &Vec<Vec<char>>, i: usize, len: usize) -> (r: Vec<Vec<char>>)
    requires
        i + len <= toks@.len(),
    ensures
        views(r@) == views(toks@).subrange(i as int, i + len),
{
    let n = toks.len();
    let mut out: Vec<Vec<char>> = Vec::new();
    let mut j: usize = 0;
    while j < len
        invariant
            j <= len,
            n == toks@.len(),
            i + len <= toks@.len(),
            views(out@) == views(toks@).subrange(i as int, i + j),
        decreases len - j,
    {
        let ghost before = views(out@);
        out.push(copy_chars(toks[i + j].as_slice()));
        proof {
            assert(views(out@) =~= before.push(toks@[i + j]@));
            assert(views(toks@).subrange(i as int, i + j + 1) =~= views(toks@).subrange(i as int, i + j).push(
                toks@[i + j]@,
            ));
        }
        j = j + 1;
    }
    out
}

/// The windows of a token sequence (see [`windows_of`]).
fn windows_exec(toks: &Vec<Vec<char>>) -> (r: Vec<Vec<Vec<char>>>)
    ensures
        r@.len() == windows_of(views(toks@)).len(),
        forall|k: int| 0 <= k < r@.len() ==> views(#[trigger] r@[k]@) == windows_of(views(toks@))[k],
{
    let n = toks.len();
    let mut out: Vec<Vec<Vec<char>>> = Vec::new();
    if n < WIN {
        if n >= 2 {
            let w = window_at(toks, 0, n);
            proof {
                assert(views(toks@).subrange(0, n as int) =~= views(toks@));
            }
            out.push(w);
        }
        return out;
    }
    let last = n - WIN;
    let mut i: usize = 0;
    while i <= last
        invariant
            n == toks@.len(),
            n >= WIN,
            last == n - WIN,
            i <= last + 1,
            out@.len() == i,
            forall|k: int| 0 <= k < i ==> views(#[trigger] out@[k]@) == windows_of(views(toks@))[k],
        decreases last + 1 - i,
    {
        let w = window_at(toks, i, WIN);
        out.push(w);
        i = i + 1;
    }
    out
}

impl Moe {
    /// Reasons about one window in signal space (see [`verdict`]): the rule index, or `None`
    /// to abstain.
    pub fn judge_window(&self, w: &[String]) -> (r: Option<u32>)
        requires
            self.wf(),
        ensures
            r == self.verdict_on(w.deep_view()),
    {
        let wc = window_chars(w);
        self.verdict_chars(&wc)
    }

    /// The distinct rule indices a source violates, in order of first appearance over its
    /// windows.
    pub fn judge(&self, code: &str) -> (r: Vec<u32>)
        requires
            self.wf(),
        ensures
            r@ == verdicts(self.experts_view(), self.freq_view(), self.topk_view() as int, code_windows(code@)),
    {
        let (texts, _lines) = token_list(code);
        let ws = windows_exec(&texts);
        let ghost wv = code_windows(code@);
        proof {
            assert(views(texts@) == lex_texts(code@));
        }
        let mut hits: Vec<u32> = Vec::new();
        let mut i: usize = 0;
        while i < ws.len()
            invariant
                i <= ws@.len(),
                self.wf(),
                wv == code_windows(code@),
                ws@.len() == wv.len(),
                forall|k: int| 0 <= k < ws@.len() ==> views(#[trigger] ws@[k]@) == wv[k],
                hits@ == verdicts(self.experts_view(), self.freq_view(), self.topk_view() as int, wv.take(i as int)),
            decreases ws@.len() - i,
        {
            proof {
                assert(wv.take(i + 1).drop_last() =~= wv.take(i as int));
                assert(wv.take(i + 1).last() == wv[i as int]);
            }
            let v = self.verdict_chars(&ws[i]);
            match v {
                Some(r) => {
                    if !contains_u32(&hits, r) {
                        hits.push(r);
                    }
                },
                None => {},
            }
            i = i + 1;
        }
        assert(wv.take(i as int) =~= wv);
        hits
    }

    /// The violations of a source, each rule once, located at the 1-based line of the first
    /// window that flags it (see [`located`]).
    pub fn judge_located(&self, code: &str) -> (r: Vec<(usize, u32)>)
        requires
            self.wf(),
        ensures
            r@.len() == located(self.experts_view(), self.freq_view(), self.topk_view() as int, lex(code@)).len(),
            forall|k: int| 0 <= k < r@.len() ==> (#[trigger] r@[k]).0 as int == located(self.experts_view(), self.freq_view(),
                self.topk_view() as int, lex(code@))[k].0 && r@[k].1 == located(self.experts_view(), self.freq_view(),
                self.topk_view() as int, lex(code@))[k].1,
    {
        let ghost es = self.experts_view();
        let ghost f = self.freq_view();
        let ghost tk = self.topk_view() as int;
        let ghost toks = lex(code@);
        let (texts, lines) = token_list(code);
        let n = texts.len();
        proof {
            assert(toks.map_values(|t: (Seq<char>, int)| t.0) =~= lex_texts(code@));
        }
        let mut out: Vec<(usize, u32)> = Vec::new();
        if n < WIN {
            if n >= 2 {
                proof {
                    assert(views(texts@) == toks.map_values(|t: (Seq<char>, int)| t.0));
                }
                match self.verdict_chars(&texts) {
                    Some(r) => {
                        out.push((lines[0], r));
                    },
                    None => {},
                }
            }
            return out;
        }
        let last = n - WIN;
        let mut seen: Vec<u32> = Vec::new();
        let mut i: usize = 0;
        while i <= last
            invariant
                n == texts@.len(),
                n >= WIN,
                last == n - WIN,
                i <= last + 1,
                self.wf(),
                es == self.experts_view(),
                f == self.freq_view(),
                tk == self.topk_view() as int,
                toks == lex(code@),
                views(texts@) == lex_texts(code@),
                toks.len() == n,
                lines@.len() == n,
                forall|k: int| 0 <= k < n ==> lines@[k] as int == #[trigger] toks[k].1,
                out@.len() == located_from(es, f, tk, toks, i as int).len(),
                forall|k: int| 0 <= k < out@.len() ==> (#[trigger] out@[k]).0 as int == located_from(es, f, tk, toks, i as int)[k].0
                    && out@[k].1 == located_from(es, f, tk, toks, i as int)[k].1,
                seen@ == located_from(es, f, tk, toks, i as int).map_values(|p: (int, u32)| p.1),
            decreases last + 1 - i,
        {
            let w = window_at(&texts, i, WIN);
            proof {
                assert(views(w@) =~= toks.subrange(i as int, i + WIN).map_values(|t: (Seq<char>, int)| t.0));
            }
            let ghost prev = located_from(es, f, tk, toks, i as int);
            match self.verdict_chars(&w) {
                Some(r) => {
                    if !contains_u32(&seen, r) {
                        out.push((lines[i], r));
                        seen.push(r);
                        proof {
                            assert(located_from(es, f, tk, toks, i + 1) == prev.push((toks[i as int].1, r)));
                            assert(seen@ =~= prev.push((toks[i as int].1, r)).map_values(|p: (int, u32)| p.1));
                        }
                    }
                },
                None => {},
            }
            i = i + 1;
        }
        out
    }

    /// The rule name for an index, or `?` for an index no rule has.
    pub fn rule_name(&self, idx: u32) -> (r: &str)
        ensures
            (idx as int) < self.rule_names_view().len() ==> r@ == self.rule_names_view()[idx as int],
            (idx as int) >= self.rule_names_view().len() ==> r@ == seq!['?'],
    {
        if (idx as usize) < self.rule_names.len() {
            self.rule_names[idx as usize].as_str()
        } else {
            let q = "?";
            proof {
                reveal_strlit("?");
            }
            q
        }
    }

    /// The number of experts and of violation signals, the latter saturating at
    /// `usize::MAX`.
    pub fn stats(&self) -> (r: (usize, usize))
        ensures
            r.0 == self.experts_view().len(),
            r.1 == if total_sigs(self.experts_view()) > usize::MAX { usize::MAX as int } else {
                total_sigs(self.experts_view())
            },
    {
        let mut total: usize = 0;
        let mut i: usize = 0;
        while i < self.experts.len()
            invariant
                i <= self.experts@.len(),
                total == if total_sigs(self.experts_view().take(i as int)) > usize::MAX { usize::MAX as int } else {
                    total_sigs(self.experts_view().take(i as int))
                },
            decreases self.experts@.len() - i,
        {
            proof {
                assert(self.experts_view().take(i + 1).drop_last() =~= self.experts_view().take(i as int));
                assert(self.experts_view()[i as int] == expert_view(self.experts@[i as int]));
            }
            total = total.saturating_add(self.experts[i].sigs.len());
            i = i + 1;
        }
        assert(self.experts_view().take(i as int) =~= self.experts_view());
        (self.experts.len(), total)
    }
}

/// The total number of signals over the experts.
pub open spec fn total_sigs(es: Seq<ExpertV>) -> int
    decreases es.len(),
{
    if es.len() == 0 {
        0
    } else {
        total_sigs(es.drop_last()) + es.last().1.len()
    }
}

/// Whether `v` holds `x`.
fn contains_u32(v: &Vec<u32>, x: u32) -> (r: bool)
    ensures
        r == v@.contains(x),
{
    let mut i: usize = 0;
    while i < v.len()
        invariant
            i <= v@.len(),
            forall|k: int| 0 <= k < i ==> v@[k] != x,
        decreases v@.len() - i,
    {
        if v[i] == x {
            assert(v@[i as int] == x);
            return true;
        }
        i = i + 1;
    }
    false
}

proof fn lemma_filter_push(s: Seq<Seq<char>>, x: Seq<char>, t: Seq<char>)
    ensures
        without(s.push(x), t) == if x != t {
            without(s, t).push(x)
        } else {
            without(s, t)
        },
{
    reveal(Seq::filter);
    assert(s.push(x).drop_last() =~= s);
}


// ── Training ─────────────────────────────────────────────────────────────────

/// An example as plain values: (rule, slice, bad, good).
pub type ExampleV = (Seq<char>, Seq<char>, Seq<char>, Seq<char>);

/// A candidate violation window: (slice, rule index, window).
pub type Cand = (Seq<char>, u32, Seq<Seq<char>>);

/// A kept signal before grouping: (slice, candidate index, rule index, cap).
pub type Push = (Seq<char>, int, u32, u32);

/// The examples as plain values.
pub open spec fn examples_view(ex: Seq<Example>) -> Seq<ExampleV> {
    ex.map_values(|e: Example| (e.rule@, e.slice@, e.bad@, e.good@))
}

/// The windows of every source, sources in order.
pub open spec fn all_windows(srcs: Seq<Seq<char>>) -> Seq<Seq<Seq<char>>>
    decreases srcs.len(),
{
    if srcs.len() == 0 {
        Seq::empty()
    } else {
        all_windows(srcs.drop_last()) + code_windows(srcs.last())
    }
}

/// The good examples' code.
pub open spec fn goods(ex: Seq<ExampleV>) -> Seq<Seq<char>> {
    ex.map_values(|e: ExampleV| e.3)
}

/// The distinctiveness reference: every window of the clean code, then every window of
/// the examples' good code.
pub open spec fn reference_windows(ex: Seq<ExampleV>, clean: Seq<Seq<char>>) -> Seq<Seq<Seq<char>>> {
    all_windows(clean) + all_windows(goods(ex))
}

/// The keys of a frequency table.
pub open spec fn keys_of(f: Seq<(Seq<char>, u32)>) -> Seq<Seq<char>> {
    f.map_values(|p: (Seq<char>, u32)| p.0)
}

/// The index of the first entry of `f` keyed `t`, or -1.
pub open spec fn key_index(f: Seq<(Seq<char>, u32)>, t: Seq<char>) -> int {
    name_index(keys_of(f), t)
}

/// `f` with one more occurrence of `t` counted (counts wrap at `u32::MAX`).
pub open spec fn freq_add(f: Seq<(Seq<char>, u32)>, t: Seq<char>) -> Seq<(Seq<char>, u32)> {
    let k = key_index(f, t);
    if k >= 0 {
        f.update(k, (t, f[k].1.wrapping_add(1)))
    } else {
        f.push((t, 1))
    }
}

/// Counting a token keeps every token under one entry.
proof fn lemma_freq_add_distinct(f: Seq<(Seq<char>, u32)>, t: Seq<char>)
    requires
        keys_of(f).no_duplicates(),
    ensures
        keys_of(freq_add(f, t)).no_duplicates(),
{
    lemma_name_index(keys_of(f), t);
    let k = key_index(f, t);
    if k >= 0 {
        assert(keys_of(freq_add(f, t)) =~= keys_of(f));
    } else {
        assert(keys_of(freq_add(f, t)) =~= keys_of(f).push(t));
    }
}

/// Counting windows keeps every token under one entry.
proof fn lemma_freq_windows_distinct(f: Seq<(Seq<char>, u32)>, ws: Seq<Seq<Seq<char>>>)
    requires
        keys_of(f).no_duplicates(),
    ensures
        keys_of(freq_windows(f, ws)).no_duplicates(),
    decreases ws.len(),
{
    if ws.len() > 0 {
        lemma_freq_windows_distinct(f, ws.drop_last());
        lemma_freq_window_distinct(freq_windows(f, ws.drop_last()), ws.last());
    }
}

/// Counting one window keeps every token under one entry.
proof fn lemma_freq_window_distinct(f: Seq<(Seq<char>, u32)>, w: Seq<Seq<char>>)
    requires
        keys_of(f).no_duplicates(),
    ensures
        keys_of(freq_window(f, w)).no_duplicates(),
    decreases w.len(),
{
    if w.len() > 0 {
        lemma_freq_window_distinct(f, w.drop_last());
        lemma_freq_add_distinct(freq_window(f, w.drop_last()), w.last());
    }
}

/// `f` with every token of `w` counted.
pub open spec fn freq_window(f: Seq<(Seq<char>, u32)>, w: Seq<Seq<char>>) -> Seq<(Seq<char>, u32)>
    decreases w.len(),
{
    if w.len() == 0 {
        f
    } else {
        freq_add(freq_window(f, w.drop_last()), w.last())
    }
}

/// `f` with every token of every window of `ws` counted.
pub open spec fn freq_windows(f: Seq<(Seq<char>, u32)>, ws: Seq<Seq<Seq<char>>>) -> Seq<(Seq<char>, u32)>
    decreases ws.len(),
{
    if ws.len() == 0 {
        f
    } else {
        freq_window(freq_windows(f, ws.drop_last()), ws.last())
    }
}

/// The distinct rule ids of the examples, in order of first appearance.
pub open spec fn rule_list(ex: Seq<ExampleV>) -> Seq<Seq<char>>
    decreases ex.len(),
{
    if ex.len() == 0 {
        Seq::empty()
    } else {
        crate::text::push_unique(rule_list(ex.drop_last()), ex.last().0)
    }
}

/// The index of `x` in `names` (first occurrence), or -1.
pub open spec fn name_index(names: Seq<Seq<char>>, x: Seq<char>) -> int
    decreases names.len(),
{
    if names.len() == 0 {
        -1
    } else if name_index(names.drop_last(), x) >= 0 {
        name_index(names.drop_last(), x)
    } else if names.last() == x {
        names.len() - 1
    } else {
        -1
    }
}

/// The candidate violation windows: every window of every example's bad code, with the
/// example's slice and rule index, examples in order.
pub open spec fn cands(ex: Seq<ExampleV>, names: Seq<Seq<char>>) -> Seq<Cand>
    decreases ex.len(),
{
    if ex.len() == 0 {
        Seq::empty()
    } else {
        let e = ex.last();
        cands(ex.drop_last(), names) + code_windows(e.2).map_values(
            |w: Seq<Seq<char>>| (e.1, name_index(names, e.0) as u32, w),
        )
    }
}

/// The distance from `q` to the nearest of `refs`, or `u32::MAX` when there is none.
pub open spec fn near(q: Seq<u64>, refs: Seq<Seq<u64>>) -> nat
    decreases refs.len(),
{
    if refs.len() == 0 {
        u32::MAX as nat
    } else if refs.len() == 1 {
        dist(refs[0], q)
    } else {
        let m = near(q, refs.drop_last());
        let d = dist(refs.last(), q);
        if d < m {
            d
        } else {
            m
        }
    }
}

/// The candidates' distances to the reference.
pub open spec fn cand_dists(cs: Seq<Cand>, refs: Seq<Seq<u64>>) -> Seq<nat> {
    cs.map_values(|c: Cand| near(signal(c.2), refs))
}

/// A kept signal's cap: one below its distance to the reference, at most `cap`.
pub open spec fn sig_cap(d: nat, cap: u32) -> u32 {
    if d - 1 < cap {
        (d - 1) as u32
    } else {
        cap
    }
}

/// The signals kept for distinctiveness among the first `n` candidates: those farther
/// than `filter` from the whole reference.
pub open spec fn main_pushes(cs: Seq<Cand>, ds: Seq<nat>, filter: u32, cap: u32, n: int) -> Seq<Push>
    decreases n,
{
    if n <= 0 {
        Seq::empty()
    } else {
        let prev = main_pushes(cs, ds, filter, cap, n - 1);
        let i = n - 1;
        if ds[i] > filter {
            prev.push((cs[i].0, i, cs[i].1, sig_cap(ds[i], cap)))
        } else {
            prev
        }
    }
}

/// Whether one of the first `n` candidates of rule `r` was kept for distinctiveness.
pub open spec fn kept_upto(cs: Seq<Cand>, ds: Seq<nat>, filter: u32, r: u32, n: int) -> bool
    decreases n,
{
    if n <= 0 {
        false
    } else {
        kept_upto(cs, ds, filter, r, n - 1) || (cs[n - 1].1 == r && ds[n - 1] > filter)
    }
}

/// The most distinctive of the first `n` candidates of rule `r` (the first among equals),
/// or -1.
pub open spec fn best_upto(cs: Seq<Cand>, ds: Seq<nat>, r: u32, n: int) -> int
    decreases n,
{
    if n <= 0 {
        -1
    } else {
        let b = best_upto(cs, ds, r, n - 1);
        if cs[n - 1].1 == r && (b < 0 || ds[n - 1] > ds[b]) {
            n - 1
        } else {
            b
        }
    }
}

/// The fallback signals for the first `nr` rules: a rule none of whose windows was kept
/// keeps its most distinctive one, unless that window is identical to reference code.
pub open spec fn fallback_pushes(cs: Seq<Cand>, ds: Seq<nat>, filter: u32, cap: u32, nr: int) -> Seq<Push>
    decreases nr,
{
    if nr <= 0 {
        Seq::empty()
    } else {
        let prev = fallback_pushes(cs, ds, filter, cap, nr - 1);
        let r = (nr - 1) as u32;
        let b = best_upto(cs, ds, r, cs.len() as int);
        if b >= 0 && !kept_upto(cs, ds, filter, r, cs.len() as int) && ds[b] > 0 {
            prev.push((cs[b].0, b, r, sig_cap(ds[b], cap)))
        } else {
            prev
        }
    }
}

/// The names of the groups.
pub open spec fn group_names(gs: Seq<(Seq<char>, Seq<(int, u32, u32)>)>) -> Seq<Seq<char>> {
    gs.map_values(|g: (Seq<char>, Seq<(int, u32, u32)>)| g.0)
}

/// The index of the group named `name`, or -1.
pub open spec fn group_index(gs: Seq<(Seq<char>, Seq<(int, u32, u32)>)>, name: Seq<char>) -> int {
    name_index(group_names(gs), name)
}

/// The kept signals grouped by slice, slices in order of first appearance.
pub open spec fn grouped(ps: Seq<Push>) -> Seq<(Seq<char>, Seq<(int, u32, u32)>)>
    decreases ps.len(),
{
    if ps.len() == 0 {
        Seq::empty()
    } else {
        let gs = grouped(ps.drop_last());
        let p = ps.last();
        let g = group_index(gs, p.0);
        if g >= 0 {
            gs.update(g, (gs[g].0, gs[g].1.push((p.1, p.2, p.3))))
        } else {
            gs.push((p.0, seq![(p.1, p.2, p.3)]))
        }
    }
}

/// Every kept signal, distinctive ones first, then (with the recall fallback) the
/// fallback ones.
pub open spec fn all_pushes(
    cs: Seq<Cand>,
    ds: Seq<nat>,
    filter: u32,
    cap: u32,
    nr: int,
    recall_fallback: bool,
) -> Seq<Push> {
    main_pushes(cs, ds, filter, cap, cs.len() as int) + if recall_fallback {
        fallback_pushes(cs, ds, filter, cap, nr)
    } else {
        Seq::empty()
    }
}

/// The signals of a group as plain values.
pub open spec fn group_sigs(cs: Seq<Cand>, g: Seq<(int, u32, u32)>) -> Seq<SigV> {
    g.map_values(|m: (int, u32, u32)| (signal(cs[m.0].2), m.1, m.2))
}

/// The experts trained from the kept signals: one per slice, its signature the majority
/// bundle of its signals.
pub open spec fn trained_experts(cs: Seq<Cand>, ps: Seq<Push>) -> Seq<ExpertV> {
    grouped(ps).map_values(
        |g: (Seq<char>, Seq<(int, u32, u32)>)|
            (g.0, group_sigs(cs, g.1), bundle(group_sigs(cs, g.1).map_values(|s: SigV| s.0))),
    )
}

/// The windows of the kept signals, in order.
pub open spec fn pushed_windows(cs: Seq<Cand>, ps: Seq<Push>) -> Seq<Seq<Seq<char>>> {
    ps.map_values(|p: Push| cs[p.1].2)
}


/// What [`name_index`] returns, by its defining properties.
pub proof fn lemma_name_index(names: Seq<Seq<char>>, x: Seq<char>)
    ensures
        -1 <= name_index(names, x) < names.len(),
        name_index(names, x) >= 0 ==> names[name_index(names, x)] == x,
        forall|j: int| 0 <= j < names.len() && (name_index(names, x) < 0 || j < name_index(names, x))
            ==> names[j] != x,
    decreases names.len(),
{
    if names.len() > 0 {
        lemma_name_index(names.drop_last(), x);
        assert forall|j: int| 0 <= j < names.len() - 1 implies names.drop_last()[j] == names[j] by {}
    }
}

/// The first index of `x` in `names` (see [`name_index`]).
fn index_in(names: &Vec<Vec<char>>, x: &[char]) -> (r: Option<usize>)
    ensures
        match r {
            Some(i) => i as int == name_index(views(names@), x@) && i < names@.len(),
            None => name_index(views(names@), x@) == -1,
        },
{
    proof {
        lemma_name_index(views(names@), x@);
    }
    let mut i: usize = 0;
    while i < names.len()
        invariant
            i <= names@.len(),
            forall|j: int| 0 <= j < i ==> views(names@)[j] != x@,
            -1 <= name_index(views(names@), x@) < names@.len(),
            name_index(views(names@), x@) >= 0 ==> views(names@)[name_index(views(names@), x@)] == x@,
            forall|j: int| 0 <= j < names@.len() && (name_index(views(names@), x@) < 0 || j < name_index(views(names@), x@))
                ==> views(names@)[j] != x@,
        decreases names@.len() - i,
    {
        if chars_eq(names[i].as_slice(), x) {
            assert(views(names@)[i as int] == x@);
            return Some(i);
        }
        i = i + 1;
    }
    None
}

/// The views of a list of windows.
pub open spec fn wviews(v: Seq<Vec<Vec<char>>>) -> Seq<Seq<Seq<char>>> {
    v.map_values(|w: Vec<Vec<char>>| views(w@))
}

/// The frequency table as plain values.
pub open spec fn fview(f: Seq<(Vec<char>, u32)>) -> Seq<(Seq<char>, u32)> {
    f.map_values(|p: (Vec<char>, u32)| (p.0@, p.1))
}

/// The windows of a source text (see [`code_windows`]).
fn windows_of_str(code: &str) -> (r: Vec<Vec<Vec<char>>>)
    ensures
        wviews(r@) == code_windows(code@),
{
    let (texts, _lines) = token_list(code);
    let ws = windows_exec(&texts);
    assert(wviews(ws@) =~= code_windows(code@));
    ws
}

/// Counts one more occurrence of `t` (see [`freq_add`]).
fn count_token(f: &mut Vec<(Vec<char>, u32)>, t: &Vec<char>)
    ensures
        fview(final(f)@) == freq_add(fview(old(f)@), t@),
{
    let mut keys: Vec<Vec<char>> = Vec::new();
    let mut i: usize = 0;
    while i < f.len()
        invariant
            i <= f@.len(),
            views(keys@) == keys_of(fview(f@)).take(i as int),
        decreases f@.len() - i,
    {
        let ghost before = views(keys@);
        keys.push(copy_chars(f[i].0.as_slice()));
        proof {
            assert(views(keys@) =~= before.push(f@[i as int].0@));
            assert(keys_of(fview(f@)).take(i + 1) =~= keys_of(fview(f@)).take(i as int).push(f@[i as int].0@));
        }
        i = i + 1;
    }
    assert(keys_of(fview(f@)).take(i as int) =~= keys_of(fview(f@)));
    assert(keys@.len() == f@.len());
    match index_in(&keys, t.as_slice()) {
        Some(k) => {
            let c = f[k].1;
            let key = copy_chars(t.as_slice());
            let ghost before = fview(f@);
            f.set(k, (key, c.wrapping_add(1)));
            proof {
                assert(fview(f@) =~= before.update(k as int, (t@, before[k as int].1.wrapping_add(1))));
            }
        },
        None => {
            let ghost before = fview(f@);
            f.push((copy_chars(t.as_slice()), 1));
            proof {
                assert(fview(f@) =~= before.push((t@, 1u32)));
            }
        },
    }
}

/// Counts every token of `w` (see [`freq_window`]).
fn count_window(f: &mut Vec<(Vec<char>, u32)>, w: &Vec<Vec<char>>)
    ensures
        fview(final(f)@) == freq_window(fview(old(f)@), views(w@)),
{
    let ghost f0 = fview(f@);
    let mut i: usize = 0;
    while i < w.len()
        invariant
            i <= w@.len(),
            fview(f@) == freq_window(f0, views(w@).take(i as int)),
        decreases w@.len() - i,
    {
        proof {
            assert(views(w@).take(i + 1).drop_last() =~= views(w@).take(i as int));
            assert(views(w@).take(i + 1).last() == w@[i as int]@);
        }
        count_token(f, &w[i]);
        i = i + 1;
    }
    assert(views(w@).take(i as int) =~= views(w@));
}

/// The windows of every source (see [`all_windows`]).
fn windows_of_all(srcs: &Vec<String>) -> (r: Vec<Vec<Vec<char>>>)
    ensures
        wviews(r@) == all_windows(srcs.deep_view()),
{
    let mut out: Vec<Vec<Vec<char>>> = Vec::new();
    let mut i: usize = 0;
    while i < srcs.len()
        invariant
            i <= srcs@.len(),
            wviews(out@) == all_windows(srcs.deep_view().take(i as int)),
        decreases srcs@.len() - i,
    {
        let ws = windows_of_str(srcs[i].as_str());
        let ghost before = wviews(out@);
        let mut j: usize = 0;
        while j < ws.len()
            invariant
                j <= ws@.len(),
                wviews(out@) == before + wviews(ws@).take(j as int),
            decreases ws@.len() - j,
        {
            let ghost b2 = wviews(out@);
            let w = window_at(&ws[j], 0, ws[j].len());
            proof {
                assert(views(ws@[j as int]@).subrange(0, ws@[j as int]@.len() as int) =~= views(ws@[j as int]@));
            }
            out.push(w);
            proof {
                assert(wviews(out@) =~= b2.push(wviews(ws@)[j as int]));
                assert(wviews(ws@).take(j + 1) =~= wviews(ws@).take(j as int).push(wviews(ws@)[j as int]));
            }
            j = j + 1;
        }
        proof {
            assert(wviews(ws@).take(j as int) =~= wviews(ws@));
            assert(srcs.deep_view().take(i + 1).drop_last() =~= srcs.deep_view().take(i as int));
            assert(srcs.deep_view().take(i + 1).last() == srcs@[i as int]@);
        }
        i = i + 1;
    }
    assert(srcs.deep_view().take(i as int) =~= srcs.deep_view());
    out
}


/// The distance from `q` to the nearest of `keys` (see [`near`]).
pub fn nearest_distance(keys: &Vec<Hv>, q: &Hv) -> (r: u32)
    requires
        q.wf(),
        forall|i: int| 0 <= i < keys@.len() ==> (#[trigger] keys@[i]).wf(),
    ensures
        r as nat == near(q@, hv_views(keys@)),
{
    let ghost ks = hv_views(keys@);
    if keys.len() == 0 {
        return u32::MAX;
    }
    let mut m = keys[0].distance(q);
    proof {
        assert(ks.take(1) =~= seq![ks[0]]);
    }
    let mut i: usize = 1;
    while i < keys.len()
        invariant
            1 <= i <= keys@.len(),
            q.wf(),
            ks == hv_views(keys@),
            forall|t: int| 0 <= t < keys@.len() ==> (#[trigger] keys@[t]).wf(),
            m as nat == near(q@, ks.take(i as int)),
        decreases keys@.len() - i,
    {
        let d = keys[i].distance(q);
        proof {
            assert(ks.take(i + 1).drop_last() =~= ks.take(i as int));
            assert(ks.take(i + 1).last() == keys@[i as int]@);
        }
        if d < m {
            m = d;
        }
        i = i + 1;
    }
    assert(ks.take(i as int) =~= ks);
    m
}

/// rayon's `par_iter().map(..).collect()` over `queries`, each mapped by
/// [`nearest_distance`] against `keys`. rayon collects an indexed parallel iterator into a
/// `Vec` in the order of its items, so item `i` of the result is the distance of query `i`;
/// the closure is the verified [`nearest_distance`], and this item claims no more of it.
#[verifier::external_body]
fn par_nearest(queries: &Vec<Hv>, keys: &Vec<Hv>) -> (r: Vec<u32>)
    requires
        forall|i: int| 0 <= i < queries@.len() ==> (#[trigger] queries@[i]).wf(),
        forall|i: int| 0 <= i < keys@.len() ==> (#[trigger] keys@[i]).wf(),
    ensures
        r@.len() == queries@.len(),
        forall|i: int| 0 <= i < r@.len() ==> (#[trigger] r@[i]) as nat == near(queries@[i]@, hv_views(keys@)),
{
    queries.par_iter().map(|q| nearest_distance(keys, q)).collect()
}

/// For each query, the distance to its nearest key, or `u32::MAX` when there is no key:
/// the all-pairs distinctiveness measure training calibrates every signal against.
fn min_to_nearest(queries: &Vec<Hv>, keys: &Vec<Hv>) -> (r: Vec<u32>)
    requires
        forall|i: int| 0 <= i < queries@.len() ==> (#[trigger] queries@[i]).wf(),
        forall|i: int| 0 <= i < keys@.len() ==> (#[trigger] keys@[i]).wf(),
    ensures
        r@.len() == queries@.len(),
        forall|i: int| 0 <= i < r@.len() ==> (#[trigger] r@[i]) as nat == near(queries@[i]@, hv_views(keys@)),
{
    par_nearest(queries, keys)
}

/// The signals of windows.
fn signals_of(ws: &Vec<Vec<Vec<char>>>) -> (r: Vec<Hv>)
    ensures
        r@.len() == ws@.len(),
        forall|i: int| 0 <= i < r@.len() ==> (#[trigger] r@[i])@ == signal(views(ws@[i]@)) && r@[i].wf(),
{
    let mut out: Vec<Hv> = Vec::new();
    let mut i: usize = 0;
    while i < ws.len()
        invariant
            i <= ws@.len(),
            out@.len() == i,
            forall|t: int| 0 <= t < i ==> (#[trigger] out@[t])@ == signal(views(ws@[t]@)) && out@[t].wf(),
        decreases ws@.len() - i,
    {
        let h = bind(ws[i].as_slice());
        proof {
            assert(ws@[i as int]@.map_values(|t: Vec<char>| t@) =~= views(ws@[i as int]@));
        }
        out.push(h);
        i = i + 1;
    }
    out
}

/// The distinct rule ids of the examples (see [`rule_list`]).
fn rule_names_of(examples: &[Example]) -> (r: Vec<Vec<char>>)
    ensures
        views(r@) == rule_list(examples_view(examples@)),
{
    let ghost exv = examples_view(examples@);
    let mut names: Vec<Vec<char>> = Vec::new();
    let mut i: usize = 0;
    while i < examples.len()
        invariant
            i <= examples@.len(),
            exv == examples_view(examples@),
            views(names@) == rule_list(exv.take(i as int)),
        decreases examples@.len() - i,
    {
        proof {
            assert(exv.take(i + 1).drop_last() =~= exv.take(i as int));
            assert(exv.take(i + 1).last().0 == examples@[i as int].rule@);
        }
        add_unique(&mut names, chars_of(examples[i].rule.as_str()));
        i = i + 1;
    }
    assert(exv.take(i as int) =~= exv);
    names
}

/// Every example's rule is among the rule names.
proof fn lemma_rule_listed(ex: Seq<ExampleV>, i: int)
    requires
        0 <= i < ex.len(),
    ensures
        rule_list(ex).contains(ex[i].0),
    decreases ex.len(),
{
    let prev = rule_list(ex.drop_last());
    if i == ex.len() - 1 {
        if !prev.contains(ex[i].0) {
            assert(rule_list(ex) == prev.push(ex[i].0));
            assert(rule_list(ex)[prev.len() as int] == ex[i].0);
        }
    } else {
        lemma_rule_listed(ex.drop_last(), i);
        let k = choose|k: int| 0 <= k < prev.len() && prev[k] == ex[i].0;
        assert(rule_list(ex)[k] == ex[i].0);
    }
}

/// Appends the windows `ws` of one example as candidates of slice `slice` and rule `ridx`.
fn append_cands(
    slices: &mut Vec<Vec<char>>,
    rules: &mut Vec<u32>,
    wins: &mut Vec<Vec<Vec<char>>>,
    slice: &Vec<char>,
    ridx: u32,
    ws: &Vec<Vec<Vec<char>>>,
)
    requires
        old(rules)@.len() == old(slices)@.len(),
        old(wins)@.len() == old(slices)@.len(),
    ensures
        final(rules)@.len() == final(slices)@.len(),
        final(wins)@.len() == final(slices)@.len(),
        cands_of(final(slices)@, final(rules)@, final(wins)@) == cands_of(old(slices)@, old(rules)@, old(wins)@)
            + wviews(ws@).map_values(|w: Seq<Seq<char>>| (slice@, ridx, w)),
{
    let ghost c0 = cands_of(slices@, rules@, wins@);
    let ghost added = wviews(ws@).map_values(|w: Seq<Seq<char>>| (slice@, ridx, w));
    let mut j: usize = 0;
    while j < ws.len()
        invariant
            j <= ws@.len(),
            rules@.len() == slices@.len(),
            wins@.len() == slices@.len(),
            added == wviews(ws@).map_values(|w: Seq<Seq<char>>| (slice@, ridx, w)),
            cands_of(slices@, rules@, wins@) == c0 + added.take(j as int),
        decreases ws@.len() - j,
    {
        let w = window_at(&ws[j], 0, ws[j].len());
        proof {
            assert(views(ws@[j as int]@).subrange(0, ws@[j as int]@.len() as int) =~= views(ws@[j as int]@));
        }
        let ghost before = cands_of(slices@, rules@, wins@);
        slices.push(copy_chars(slice.as_slice()));
        rules.push(ridx);
        wins.push(w);
        proof {
            assert(cands_of(slices@, rules@, wins@) =~= before.push(added[j as int]));
            assert(added.take(j + 1) =~= added.take(j as int).push(added[j as int]));
        }
        j = j + 1;
    }
    assert(added.take(j as int) =~= added);
}

/// The candidate violation windows (see [`cands`]): their slices, rule indices and windows.
fn collect_cands(examples: &[Example], names: &Vec<Vec<char>>) -> (r: (Vec<Vec<char>>, Vec<u32>, Vec<Vec<Vec<char>>>))
    requires
        views(names@) == rule_list(examples_view(examples@)),
    ensures
        r.1@.len() == r.0@.len(),
        r.2@.len() == r.0@.len(),
        cands_of(r.0@, r.1@, r.2@) == cands(examples_view(examples@), views(names@)),
{
    let ghost exv = examples_view(examples@);
    let ghost nv = views(names@);
    let mut slices: Vec<Vec<char>> = Vec::new();
    let mut rules: Vec<u32> = Vec::new();
    let mut wins: Vec<Vec<Vec<char>>> = Vec::new();
    assert(cands_of(slices@, rules@, wins@) =~= Seq::<Cand>::empty());
    let mut i: usize = 0;
    while i < examples.len()
        invariant
            i <= examples@.len(),
            exv == examples_view(examples@),
            nv == views(names@),
            nv == rule_list(exv),
            rules@.len() == slices@.len(),
            wins@.len() == slices@.len(),
            cands_of(slices@, rules@, wins@) == cands(exv.take(i as int), nv),
        decreases examples@.len() - i,
    {
        let e = &examples[i];
        proof {
            assert(exv.take(i + 1).drop_last() =~= exv.take(i as int));
            assert(exv.take(i + 1).last() == exv[i as int]);
            lemma_rule_listed(exv, i as int);
            lemma_name_index(nv, exv[i as int].0);
        }
        let rule_chars = chars_of(e.rule.as_str());
        let ridx: u32 = match index_in(names, rule_chars.as_slice()) {
            Some(k) => k as u32,
            None => u32::MAX,
        };
        let ws = windows_of_str(e.bad.as_str());
        let slice = chars_of(e.slice.as_str());
        append_cands(&mut slices, &mut rules, &mut wins, &slice, ridx, &ws);
        proof {
            assert(ridx == name_index(nv, exv[i as int].0) as u32);
            assert(wviews(ws@).map_values(|w: Seq<Seq<char>>| (slice@, ridx, w)) =~= code_windows(exv[i as int].2).map_values(
                |w: Seq<Seq<char>>| (exv[i as int].1, name_index(nv, exv[i as int].0) as u32, w),
            ));
        }
        i = i + 1;
    }
    assert(exv.take(i as int) =~= exv);
    (slices, rules, wins)
}

/// A kept signal as plain values.
pub open spec fn pview(p: (Vec<char>, usize, u32, u32)) -> Push {
    (p.0@, p.1 as int, p.2, p.3)
}

/// The groups as plain values.
pub open spec fn gview(g: Seq<(Vec<char>, Vec<(usize, u32, u32)>)>) -> Seq<(Seq<char>, Seq<(int, u32, u32)>)> {
    g.map_values(|x: (Vec<char>, Vec<(usize, u32, u32)>)| (x.0@, x.1@.map_values(|m: (usize, u32, u32)| (m.0 as int, m.1, m.2))))
}

/// Groups kept signals by slice (see [`grouped`]).
fn group_pushes(ps: &Vec<(Vec<char>, usize, u32, u32)>) -> (r: Vec<(Vec<char>, Vec<(usize, u32, u32)>)>)
    ensures
        gview(r@) == grouped(ps@.map_values(|p: (Vec<char>, usize, u32, u32)| pview(p))),
{
    let ghost pv = ps@.map_values(|p: (Vec<char>, usize, u32, u32)| pview(p));
    let mut groups: Vec<(Vec<char>, Vec<(usize, u32, u32)>)> = Vec::new();
    let mut i: usize = 0;
    while i < ps.len()
        invariant
            i <= ps@.len(),
            pv == ps@.map_values(|p: (Vec<char>, usize, u32, u32)| pview(p)),
            gview(groups@) == grouped(pv.take(i as int)),
        decreases ps@.len() - i,
    {
        proof {
            assert(pv.take(i + 1).drop_last() =~= pv.take(i as int));
            assert(pv.take(i + 1).last() == pview(ps@[i as int]));
        }
        let mut names: Vec<Vec<char>> = Vec::new();
        let mut k: usize = 0;
        while k < groups.len()
            invariant
                k <= groups@.len(),
                views(names@) == group_names(gview(groups@)).take(k as int),
            decreases groups@.len() - k,
        {
            let ghost before = views(names@);
            names.push(copy_chars(groups[k].0.as_slice()));
            proof {
                assert(views(names@) =~= before.push(groups@[k as int].0@));
                assert(group_names(gview(groups@)).take(k + 1) =~= group_names(gview(groups@)).take(k as int).push(
                    groups@[k as int].0@,
                ));
            }
            k = k + 1;
        }
        assert(group_names(gview(groups@)).take(k as int) =~= group_names(gview(groups@)));
        let member = (ps[i].1, ps[i].2, ps[i].3);
        let ghost g0 = gview(groups@);
        match index_in(&names, ps[i].0.as_slice()) {
            Some(g) => {
                let mut members: Vec<(usize, u32, u32)> = Vec::new();
                let mut t: usize = 0;
                while t < groups[g].1.len()
                    invariant
                        g < groups@.len(),
                        t <= groups@[g as int].1@.len(),
                        members@ == groups@[g as int].1@.take(t as int),
                    decreases groups@[g as int].1@.len() - t,
                {
                    members.push(groups[g].1[t]);
                    t = t + 1;
                    assert(members@ =~= groups@[g as int].1@.take(t as int));
                }
                assert(groups@[g as int].1@.take(t as int) =~= groups@[g as int].1@);
                members.push(member);
                let name = copy_chars(groups[g].0.as_slice());
                proof {
                    assert(members@.map_values(|m: (usize, u32, u32)| (m.0 as int, m.1, m.2)) =~= g0[g as int].1.push(
                        (ps@[i as int].1 as int, ps@[i as int].2, ps@[i as int].3),
                    ));
                }
                groups.set(g, (name, members));
                proof {
                    assert(gview(groups@) =~= g0.update(g as int, (g0[g as int].0, g0[g as int].1.push(
                        (ps@[i as int].1 as int, ps@[i as int].2, ps@[i as int].3),
                    ))));
                }
            },
            None => {
                let mut members: Vec<(usize, u32, u32)> = Vec::new();
                members.push(member);
                proof {
                    assert(members@.map_values(|m: (usize, u32, u32)| (m.0 as int, m.1, m.2)) =~= seq![
                        (ps@[i as int].1 as int, ps@[i as int].2, ps@[i as int].3),
                    ]);
                }
                groups.push((copy_chars(ps[i].0.as_slice()), members));
                proof {
                    assert(gview(groups@) =~= g0.push(
                        (ps@[i as int].0@, seq![(ps@[i as int].1 as int, ps@[i as int].2, ps@[i as int].3)]),
                    ));
                }
            },
        }
        i = i + 1;
    }
    assert(pv.take(i as int) =~= pv);
    groups
}


/// The candidates as plain values, from their slices, rule indices and windows.
pub open spec fn cands_of(slices: Seq<Vec<char>>, rules: Seq<u32>, wins: Seq<Vec<Vec<char>>>) -> Seq<Cand> {
    Seq::new(slices.len(), |i: int| (slices[i]@, rules[i], views(wins[i]@)))
}

/// The candidates' distances as plain values.
pub open spec fn nat_dists(ds: Seq<u32>) -> Seq<nat> {
    ds.map_values(|d: u32| d as nat)
}

/// A kept signal's cap (see [`sig_cap`]).
fn cap_for(d: u32, cap: u32) -> (r: u32)
    requires
        d > 0,
    ensures
        r == sig_cap(d as nat, cap),
{
    if d - 1 < cap {
        d - 1
    } else {
        cap
    }
}

/// The most distinctive candidate of rule `r` and whether any candidate of it was kept
/// for distinctiveness (see [`best_upto`], [`kept_upto`]).
fn best_and_kept(
    slices: &Vec<Vec<char>>,
    rules: &Vec<u32>,
    wins: &Vec<Vec<Vec<char>>>,
    dists: &Vec<u32>,
    filter: u32,
    r: u32,
) -> (out: (Option<usize>, bool))
    requires
        rules@.len() == slices@.len(),
        wins@.len() == slices@.len(),
        dists@.len() == slices@.len(),
    ensures
        match out.0 {
            Some(b) => b as int == best_upto(cands_of(slices@, rules@, wins@), nat_dists(dists@), r, slices@.len() as int)
                && b < slices@.len(),
            None => best_upto(cands_of(slices@, rules@, wins@), nat_dists(dists@), r, slices@.len() as int) == -1,
        },
        out.1 == kept_upto(cands_of(slices@, rules@, wins@), nat_dists(dists@), filter, r, slices@.len() as int),
{
    let ghost cs = cands_of(slices@, rules@, wins@);
    let ghost ds = nat_dists(dists@);
    let mut best: Option<usize> = None;
    let mut kept = false;
    let mut i: usize = 0;
    while i < rules.len()
        invariant
            i <= rules@.len(),
            rules@.len() == slices@.len(),
            wins@.len() == slices@.len(),
            dists@.len() == slices@.len(),
            cs == cands_of(slices@, rules@, wins@),
            ds == nat_dists(dists@),
            match best {
                Some(b) => b as int == best_upto(cs, ds, r, i as int) && b < i,
                None => best_upto(cs, ds, r, i as int) == -1,
            },
            kept == kept_upto(cs, ds, filter, r, i as int),
        decreases rules@.len() - i,
    {
        if rules[i] == r {
            let better = match best {
                None => true,
                Some(b) => dists[i] > dists[b],
            };
            if better {
                best = Some(i);
            }
            if dists[i] > filter {
                kept = true;
            }
        }
        i = i + 1;
    }
    (best, kept)
}

/// The kept signals and the token counts of their windows (see [`all_pushes`]).
fn select_signals(
    slices: &Vec<Vec<char>>,
    rules: &Vec<u32>,
    wins: &Vec<Vec<Vec<char>>>,
    dists: &Vec<u32>,
    filter: u32,
    cap: u32,
    nr: usize,
    recall_fallback: bool,
    freq: &mut Vec<(Vec<char>, u32)>,
) -> (ps: Vec<(Vec<char>, usize, u32, u32)>)
    requires
        rules@.len() == slices@.len(),
        wins@.len() == slices@.len(),
        dists@.len() == slices@.len(),
    ensures
        ps@.map_values(|p: (Vec<char>, usize, u32, u32)| pview(p)) == all_pushes(
            cands_of(slices@, rules@, wins@),
            nat_dists(dists@),
            filter,
            cap,
            nr as int,
            recall_fallback,
        ),
        forall|k: int| 0 <= k < ps@.len() ==> (#[trigger] ps@[k]).1 < slices@.len(),
        fview(final(freq)@) == freq_windows(
            fview(old(freq)@),
            pushed_windows(
                cands_of(slices@, rules@, wins@),
                ps@.map_values(|p: (Vec<char>, usize, u32, u32)| pview(p)),
            ),
        ),
{
    let ghost cs = cands_of(slices@, rules@, wins@);
    let ghost ds = nat_dists(dists@);
    let ghost f0 = fview(freq@);
    let n = slices.len();
    let mut ps: Vec<(Vec<char>, usize, u32, u32)> = Vec::new();
    let mut i: usize = 0;
    while i < n
        invariant
            i <= n,
            n == slices@.len(),
            rules@.len() == n,
            wins@.len() == n,
            dists@.len() == n,
            cs == cands_of(slices@, rules@, wins@),
            ds == nat_dists(dists@),
            ps@.map_values(|p: (Vec<char>, usize, u32, u32)| pview(p)) == main_pushes(cs, ds, filter, cap, i as int),
            forall|k: int| 0 <= k < ps@.len() ==> (#[trigger] ps@[k]).1 < n,
            fview(freq@) == freq_windows(f0, pushed_windows(cs, ps@.map_values(|p: (Vec<char>, usize, u32, u32)| pview(p)))),
        decreases n - i,
    {
        let d = dists[i];
        if d > filter {
            let ghost before = ps@.map_values(|p: (Vec<char>, usize, u32, u32)| pview(p));
            count_window(freq, &wins[i]);
            let c = cap_for(d, cap);
            ps.push((copy_chars(slices[i].as_slice()), i, rules[i], c));
            proof {
                let after = ps@.map_values(|p: (Vec<char>, usize, u32, u32)| pview(p));
                assert(after =~= before.push((cs[i as int].0, i as int, cs[i as int].1, sig_cap(ds[i as int], cap))));
                assert(pushed_windows(cs, after).drop_last() =~= pushed_windows(cs, before));
                assert(pushed_windows(cs, after).last() == views(wins@[i as int]@));
            }
        }
        i = i + 1;
    }
    let ghost mains = ps@.map_values(|p: (Vec<char>, usize, u32, u32)| pview(p));
    if recall_fallback {
        let mut r: usize = 0;
        while r < nr
            invariant
                r <= nr,
                n == slices@.len(),
                rules@.len() == n,
                wins@.len() == n,
                dists@.len() == n,
                cs == cands_of(slices@, rules@, wins@),
                ds == nat_dists(dists@),
                mains == main_pushes(cs, ds, filter, cap, n as int),
                ps@.map_values(|p: (Vec<char>, usize, u32, u32)| pview(p)) == mains + fallback_pushes(cs, ds, filter, cap, r as int),
                forall|k: int| 0 <= k < ps@.len() ==> (#[trigger] ps@[k]).1 < n,
                fview(freq@) == freq_windows(f0, pushed_windows(cs, ps@.map_values(|p: (Vec<char>, usize, u32, u32)| pview(p)))),
            decreases nr - r,
        {
            let (best, kept) = best_and_kept(slices, rules, wins, dists, filter, r as u32);
            match best {
                Some(b) => {
                    if !kept && dists[b] > 0 {
                        let ghost before = ps@.map_values(|p: (Vec<char>, usize, u32, u32)| pview(p));
                        count_window(freq, &wins[b]);
                        let c = cap_for(dists[b], cap);
                        ps.push((copy_chars(slices[b].as_slice()), b, r as u32, c));
                        proof {
                            let after = ps@.map_values(|p: (Vec<char>, usize, u32, u32)| pview(p));
                            assert(after =~= before.push((cs[b as int].0, b as int, r as u32, sig_cap(ds[b as int], cap))));
                            assert(pushed_windows(cs, after).drop_last() =~= pushed_windows(cs, before));
                            assert(pushed_windows(cs, after).last() == views(wins@[b as int]@));
                            assert(mains + fallback_pushes(cs, ds, filter, cap, r + 1) =~= (mains + fallback_pushes(
                                cs,
                                ds,
                                filter,
                                cap,
                                r as int,
                            )).push((cs[b as int].0, b as int, r as u32, sig_cap(ds[b as int], cap))));
                        }
                    }
                },
                None => {},
            }
            r = r + 1;
        }
    } else {
        proof {
            assert(mains + Seq::<Push>::empty() =~= mains);
        }
    }
    ps
}

/// Whether every member of every group indexes one of `n` candidates.
pub open spec fn members_in_range(gs: Seq<(Seq<char>, Seq<(int, u32, u32)>)>, n: int) -> bool {
    forall|g: int, j: int| 0 <= g < gs.len() && 0 <= j < gs[g].1.len() ==> 0 <= (#[trigger] gs[g].1[j]).0 < n
}

proof fn lemma_grouped_range(ps: Seq<Push>, n: int)
    requires
        forall|k: int| 0 <= k < ps.len() ==> 0 <= (#[trigger] ps[k]).1 < n,
    ensures
        members_in_range(grouped(ps), n),
    decreases ps.len(),
{
    if ps.len() > 0 {
        lemma_grouped_range(ps.drop_last(), n);
        let gs = grouped(ps.drop_last());
        lemma_name_index(group_names(gs), ps.last().0);
        let g = group_index(gs, ps.last().0);
        assert forall|x: int, j: int| 0 <= x < grouped(ps).len() && 0 <= j < grouped(ps)[x].1.len()
            implies 0 <= (#[trigger] grouped(ps)[x].1[j]).0 < n by {
            if g >= 0 {
                if x == g && j == gs[g].1.len() {
                    assert(grouped(ps)[x].1[j].0 == ps.last().1);
                } else {
                    assert(grouped(ps)[x].1[j] == gs[x].1[j]);
                }
            } else {
                if x == gs.len() {
                    assert(grouped(ps)[x].1[j].0 == ps.last().1);
                } else {
                    assert(grouped(ps)[x].1[j] == gs[x].1[j]);
                }
            }
        }
    }
}

/// The experts of the groups: each signal's vector is its candidate's signal.
fn build_experts(groups: &Vec<(Vec<char>, Vec<(usize, u32, u32)>)>, sigs_hv: &Vec<Hv>, ghost_cs: Ghost<Seq<Cand>>) -> (r: Vec<Expert>)
    requires
        members_in_range(gview(groups@), sigs_hv@.len() as int),
        sigs_hv@.len() == ghost_cs@.len(),
        forall|i: int| 0 <= i < sigs_hv@.len() ==> (#[trigger] sigs_hv@[i])@ == signal(ghost_cs@[i].2) && sigs_hv@[i].wf(),
    ensures
        r@.map_values(|e: Expert| expert_view(e)) == gview(groups@).map_values(
            |g: (Seq<char>, Seq<(int, u32, u32)>)|
                (g.0, group_sigs(ghost_cs@, g.1), bundle(group_sigs(ghost_cs@, g.1).map_values(|s: SigV| s.0))),
        ),
        experts_wf(r@.map_values(|e: Expert| expert_view(e))),
{
    let ghost cs = ghost_cs@;
    let ghost gv = gview(groups@);
    let ghost target = gv.map_values(
        |g: (Seq<char>, Seq<(int, u32, u32)>)|
            (g.0, group_sigs(cs, g.1), bundle(group_sigs(cs, g.1).map_values(|s: SigV| s.0))),
    );
    let mut out: Vec<Expert> = Vec::new();
    let mut gi: usize = 0;
    while gi < groups.len()
        invariant
            gi <= groups@.len(),
            gv == gview(groups@),
            members_in_range(gv, sigs_hv@.len() as int),
            sigs_hv@.len() == cs.len(),
            forall|i: int| 0 <= i < sigs_hv@.len() ==> (#[trigger] sigs_hv@[i])@ == signal(cs[i].2) && sigs_hv@[i].wf(),
            target == gv.map_values(
                |g: (Seq<char>, Seq<(int, u32, u32)>)|
                    (g.0, group_sigs(cs, g.1), bundle(group_sigs(cs, g.1).map_values(|s: SigV| s.0))),
            ),
            out@.map_values(|e: Expert| expert_view(e)) == target.take(gi as int),
            experts_wf(out@.map_values(|e: Expert| expert_view(e))),
        decreases groups@.len() - gi,
    {
        let members = &groups[gi].1;
        let ghost gsig = group_sigs(cs, gv[gi as int].1);
        let mut sigs: Vec<Sig> = Vec::new();
        let mut hvs: Vec<Hv> = Vec::new();
        let mut j: usize = 0;
        while j < members.len()
            invariant
                j <= members@.len(),
                gi < groups@.len(),
                *members == groups@[gi as int].1,
                gv == gview(groups@),
                members_in_range(gv, sigs_hv@.len() as int),
                sigs_hv@.len() == cs.len(),
                forall|i: int| 0 <= i < sigs_hv@.len() ==> (#[trigger] sigs_hv@[i])@ == signal(cs[i].2) && sigs_hv@[i].wf(),
                gsig == group_sigs(cs, gv[gi as int].1),
                sigs_view(sigs@) == gsig.take(j as int),
                hv_views(hvs@) == gsig.take(j as int).map_values(|s: SigV| s.0),
                forall|t: int| 0 <= t < sigs@.len() ==> (#[trigger] sigs@[t]).hv.wf(),
                forall|t: int| 0 <= t < hvs@.len() ==> (#[trigger] hvs@[t]).wf(),
            decreases members@.len() - j,
        {
            let m = members[j];
            proof {
                assert(gv[gi as int].1[j as int] == (m.0 as int, m.1, m.2));
                assert(0 <= gv[gi as int].1[j as int].0 < sigs_hv@.len());
            }
            let h1 = sigs_hv[m.0].copy();
            let h2 = sigs_hv[m.0].copy();
            let ghost before_s = sigs_view(sigs@);
            let ghost before_h = hv_views(hvs@);
            sigs.push(Sig { hv: h1, rule: m.1, cap: m.2 });
            hvs.push(h2);
            proof {
                assert(gsig[j as int] == (signal(cs[m.0 as int].2), m.1, m.2));
                assert(sigs_view(sigs@) =~= before_s.push(gsig[j as int]));
                assert(gsig.take(j + 1) =~= gsig.take(j as int).push(gsig[j as int]));
                assert(hv_views(hvs@) =~= before_h.push(gsig[j as int].0));
                assert(gsig.take(j + 1).map_values(|s: SigV| s.0) =~= gsig.take(j as int).map_values(|s: SigV| s.0).push(
                    gsig[j as int].0,
                ));
            }
            j = j + 1;
        }
        proof {
            assert(gsig.take(j as int) =~= gsig);
        }
        let signature = bundle_of(&hvs);
        let name = copy_chars(groups[gi].0.as_slice());
        let name_s = string_of(name.as_slice());
        let ghost before = out@.map_values(|e: Expert| expert_view(e));
        out.push(Expert { name: name_s, sigs, signature });
        proof {
            assert(out@.map_values(|e: Expert| expert_view(e)) =~= before.push(target[gi as int]));
            assert(target.take(gi + 1) =~= target.take(gi as int).push(target[gi as int]));
        }
        gi = gi + 1;
    }
    assert(target.take(gi as int) =~= target);
    out
}


/// The clean sources as plain values.
pub open spec fn clean_view(clean: Seq<&str>) -> Seq<Seq<char>> {
    clean.map_values(|c: &str| c@)
}

/// The candidates of training on `ex`.
pub open spec fn trained_cands(ex: Seq<ExampleV>) -> Seq<Cand> {
    cands(ex, rule_list(ex))
}

/// The candidates' distances to the reference of training on `ex` and `clean`.
pub open spec fn trained_dists(ex: Seq<ExampleV>, clean: Seq<Seq<char>>) -> Seq<nat> {
    cand_dists(trained_cands(ex), reference_windows(ex, clean).map_values(|w: Seq<Seq<char>>| signal(w)))
}

/// The kept signals of training.
pub open spec fn trained_pushes(
    ex: Seq<ExampleV>,
    clean: Seq<Seq<char>>,
    filter: u32,
    cap: u32,
    recall_fallback: bool,
) -> Seq<Push> {
    all_pushes(trained_cands(ex), trained_dists(ex, clean), filter, cap, rule_list(ex).len() as int, recall_fallback)
}

/// The token counts of training: every reference window, then every kept signal's window.
pub open spec fn trained_freq(
    ex: Seq<ExampleV>,
    clean: Seq<Seq<char>>,
    filter: u32,
    cap: u32,
    recall_fallback: bool,
) -> Seq<(Seq<char>, u32)> {
    freq_windows(
        freq_windows(Seq::empty(), reference_windows(ex, clean)),
        pushed_windows(trained_cands(ex), trained_pushes(ex, clean, filter, cap, recall_fallback)),
    )
}

impl Moe {
    /// Trains from documented `examples` and known-good `clean` code with the built-in lexer,
    /// keeping the recall fallback (see [`Moe::train_with_opts`]).
    pub fn train(examples: &[Example], clean: &[&str], filter: u32, cap: u32, topk: usize) -> (m: Moe)
        ensures
            m.wf(),
            m.rule_names_view() == rule_list(examples_view(examples@)),
            m.experts_view() == trained_experts(
                trained_cands(examples_view(examples@)),
                trained_pushes(examples_view(examples@), clean_view(clean@), filter, cap, true),
            ),
            m.freq_view() == trained_freq(examples_view(examples@), clean_view(clean@), filter, cap, true),
            m.topk_view() == topk,
            m.cap_view() == cap,
    {
        Self::train_with_opts(examples, clean, filter, cap, topk, Tokenizer::Lexer, true)
    }

    /// Trains in precision-first mode: only signals genuinely far from all good code are
    /// kept, and a rule with none abstains (no recall fallback).
    pub fn train_precise(examples: &[Example], clean: &[&str], filter: u32, cap: u32, topk: usize) -> (m: Moe)
        ensures
            m.wf(),
            m.rule_names_view() == rule_list(examples_view(examples@)),
            m.experts_view() == trained_experts(
                trained_cands(examples_view(examples@)),
                trained_pushes(examples_view(examples@), clean_view(clean@), filter, cap, false),
            ),
            m.freq_view() == trained_freq(examples_view(examples@), clean_view(clean@), filter, cap, false),
            m.topk_view() == topk,
            m.cap_view() == cap,
    {
        Self::train_with_opts(examples, clean, filter, cap, topk, Tokenizer::Lexer, false)
    }

    /// Trains over the representation `tok`, keeping the recall fallback.
    pub fn train_with(
        examples: &[Example],
        clean: &[&str],
        filter: u32,
        cap: u32,
        topk: usize,
        tok: Tokenizer,
    ) -> (m: Moe)
        ensures
            m.wf(),
            m.rule_names_view() == rule_list(examples_view(examples@)),
            m.experts_view() == trained_experts(
                trained_cands(examples_view(examples@)),
                trained_pushes(examples_view(examples@), clean_view(clean@), filter, cap, true),
            ),
            m.freq_view() == trained_freq(examples_view(examples@), clean_view(clean@), filter, cap, true),
            m.topk_view() == topk,
            m.cap_view() == cap,
    {
        Self::train_with_opts(examples, clean, filter, cap, topk, tok, true)
    }

    /// The shared training core. The distinctiveness reference is every window of the
    /// clean code and of every example's good code. Every window of an example's bad code
    /// farther than `filter` from the whole reference becomes a violation signal of its
    /// rule in its slice's expert, with its own cap one below that distance (at most
    /// `cap`), so no reference window can ever fall within it. With `recall_fallback`, a
    /// rule none of whose windows cleared `filter` keeps its single most distinctive window,
    /// unless that window is identical to reference code. Each expert's router signature is
    /// the majority bundle of its signals.
    pub fn train_with_opts(
        examples: &[Example],
        clean: &[&str],
        filter: u32,
        cap: u32,
        topk: usize,
        tok: Tokenizer,
        recall_fallback: bool,
    ) -> (m: Moe)
        ensures
            m.wf(),
            m.rule_names_view() == rule_list(examples_view(examples@)),
            m.experts_view() == trained_experts(
                trained_cands(examples_view(examples@)),
                trained_pushes(examples_view(examples@), clean_view(clean@), filter, cap, recall_fallback),
            ),
            m.freq_view() == trained_freq(examples_view(examples@), clean_view(clean@), filter, cap, recall_fallback),
            m.topk_view() == topk,
            m.cap_view() == cap,
    {
        let ghost exv = examples_view(examples@);
        let ghost cl = clean_view(clean@);
        // the reference sources: clean code, then every good example
        let mut clean_srcs: Vec<String> = Vec::new();
        let mut i: usize = 0;
        while i < clean.len()
            invariant
                i <= clean@.len(),
                cl == clean_view(clean@),
                clean_srcs.deep_view() == cl.take(i as int),
            decreases clean@.len() - i,
        {
            let ghost before = clean_srcs.deep_view();
            clean_srcs.push(clean[i].to_owned());
            proof {
                assert(clean_srcs.deep_view() =~= before.push(cl[i as int]));
                assert(cl.take(i + 1) =~= cl.take(i as int).push(cl[i as int]));
            }
            i = i + 1;
        }
        assert(cl.take(i as int) =~= cl);
        let mut good_srcs: Vec<String> = Vec::new();
        let mut i: usize = 0;
        while i < examples.len()
            invariant
                i <= examples@.len(),
                exv == examples_view(examples@),
                good_srcs.deep_view() == goods(exv).take(i as int),
            decreases examples@.len() - i,
        {
            let ghost before = good_srcs.deep_view();
            good_srcs.push(examples[i].good.clone());
            proof {
                assert(good_srcs.deep_view() =~= before.push(goods(exv)[i as int]));
                assert(goods(exv).take(i + 1) =~= goods(exv).take(i as int).push(goods(exv)[i as int]));
            }
            i = i + 1;
        }
        assert(goods(exv).take(i as int) =~= goods(exv));
        let clean_wins = windows_of_all(&clean_srcs);
        let good_wins = windows_of_all(&good_srcs);
        let mut ref_wins: Vec<Vec<Vec<char>>> = Vec::new();
        let mut freq: Vec<(Vec<char>, u32)> = Vec::new();
        let ghost rw = reference_windows(exv, cl);
        let ghost cw = all_windows(cl);
        let ghost gw = all_windows(goods(exv));
        proof {
            assert(fview(freq@) =~= Seq::<(Seq<char>, u32)>::empty());
            assert(rw.take(0) =~= Seq::<Seq<Seq<char>>>::empty());
            assert(wviews(ref_wins@) =~= Seq::<Seq<Seq<char>>>::empty());
        }
        let mut k: usize = 0;
        while k < clean_wins.len()
            invariant
                k <= clean_wins@.len(),
                wviews(clean_wins@) == cw,
                rw == cw + gw,
                wviews(ref_wins@) == rw.take(k as int),
                fview(freq@) == freq_windows(Seq::empty(), rw.take(k as int)),
            decreases clean_wins@.len() - k,
        {
            let w = window_at(&clean_wins[k], 0, clean_wins[k].len());
            proof {
                assert(views(clean_wins@[k as int]@).subrange(0, clean_wins@[k as int]@.len() as int) =~= views(
                    clean_wins@[k as int]@,
                ));
                assert(rw[k as int] == wviews(clean_wins@)[k as int]);
                assert(rw.take(k + 1).drop_last() =~= rw.take(k as int));
                assert(rw.take(k + 1).last() == rw[k as int]);
            }
            count_window(&mut freq, &w);
            let ghost before = wviews(ref_wins@);
            ref_wins.push(w);
            proof {
                assert(wviews(ref_wins@) =~= before.push(rw[k as int]));
                assert(rw.take(k + 1) =~= rw.take(k as int).push(rw[k as int]));
            }
            k = k + 1;
        }
        let mut g: usize = 0;
        while g < good_wins.len()
            invariant
                g <= good_wins@.len(),
                wviews(clean_wins@) == cw,
                wviews(good_wins@) == gw,
                rw == cw + gw,
                wviews(ref_wins@) == rw.take(cw.len() + g),
                fview(freq@) == freq_windows(Seq::empty(), rw.take(cw.len() + g)),
            decreases good_wins@.len() - g,
        {
            let w = window_at(&good_wins[g], 0, good_wins[g].len());
            let ghost kk = cw.len() + g;
            proof {
                assert(views(good_wins@[g as int]@).subrange(0, good_wins@[g as int]@.len() as int) =~= views(
                    good_wins@[g as int]@,
                ));
                assert(rw[kk] == wviews(good_wins@)[g as int]);
                assert(rw.take(kk + 1).drop_last() =~= rw.take(kk));
                assert(rw.take(kk + 1).last() == rw[kk]);
            }
            count_window(&mut freq, &w);
            let ghost before = wviews(ref_wins@);
            ref_wins.push(w);
            proof {
                assert(wviews(ref_wins@) =~= before.push(rw[kk]));
                assert(rw.take(kk + 1) =~= rw.take(kk).push(rw[kk]));
            }
            g = g + 1;
        }
        let ghost k = cw.len() + g;
        assert(rw.take(k as int) =~= rw);
        let ref_sigs = signals_of(&ref_wins);
        // candidates
        let names = rule_names_of(examples);
        let (slices, rules, wins) = collect_cands(examples, &names);
        let ghost cs = trained_cands(exv);
        proof {
            assert(cands_of(slices@, rules@, wins@) == cs);
        }
        let cand_sigs = signals_of(&wins);
        let dists = min_to_nearest(&cand_sigs, &ref_sigs);
        proof {
            let refs = rw.map_values(|w: Seq<Seq<char>>| signal(w));
            assert(hv_views(ref_sigs@) =~= refs);
            assert(nat_dists(dists@) =~= trained_dists(exv, cl));
        }
        let ps = select_signals(&slices, &rules, &wins, &dists, filter, cap, names.len(), recall_fallback, &mut freq);
        let groups = group_pushes(&ps);
        proof {
            let pv = ps@.map_values(|p: (Vec<char>, usize, u32, u32)| pview(p));
            assert forall|t: int| 0 <= t < pv.len() implies 0 <= (#[trigger] pv[t]).1 < cs.len() by {
                assert(pv[t] == pview(ps@[t]));
            }
            lemma_grouped_range(pv, cs.len() as int);
            assert forall|t: int| 0 <= t < cand_sigs@.len() implies (#[trigger] cand_sigs@[t])@ == signal(cs[t].2)
                && cand_sigs@[t].wf() by {
                assert(cs[t].2 == views(wins@[t]@));
            }
        }
        let experts = build_experts(&groups, &cand_sigs, Ghost(cs));
        let rule_names = strings_of(&names);
        let m = Moe { experts, rule_names, freq, tok, cap, topk };
        proof {
            let pv = ps@.map_values(|p: (Vec<char>, usize, u32, u32)| pview(p));
            assert(m.experts_view() =~= trained_experts(cs, pv));
            assert(keys_of(Seq::<(Seq<char>, u32)>::empty()) =~= Seq::<Seq<char>>::empty());
            lemma_freq_windows_distinct(Seq::empty(), rw);
            lemma_freq_windows_distinct(freq_windows(Seq::empty(), rw), pushed_windows(cs, pv));
        }
        m
    }
}


// ── What training guarantees of the trained model ────────────────────────────

/// Whether no reference window lies within the cap of any signal of the experts.
pub open spec fn clears(es: Seq<ExpertV>, refs: Seq<Seq<Seq<char>>>) -> bool {
    forall|e: int, j: int, r: int|
        0 <= e < es.len() && 0 <= j < es[e].1.len() && 0 <= r < refs.len() ==> dist(
            #[trigger] es[e].1[j].0,
            signal(#[trigger] refs[r]),
        ) > es[e].1[j].2
}

proof fn lemma_near_le(q: Seq<u64>, refs: Seq<Seq<u64>>, r: int)
    requires
        0 <= r < refs.len(),
    ensures
        near(q, refs) <= dist(refs[r], q),
    decreases refs.len(),
{
    if refs.len() > 1 && r < refs.len() - 1 {
        lemma_near_le(q, refs.drop_last(), r);
    }
}

/// The conditions every kept signal meets: its candidate exists, lies some distance from
/// the reference, and its cap is [`sig_cap`] of that distance.
pub open spec fn member_ok(cs: Seq<Cand>, ds: Seq<nat>, cap: u32, m: (int, u32, u32)) -> bool {
    0 <= m.0 < cs.len() && m.0 < ds.len() && ds[m.0] > 0 && m.2 == sig_cap(ds[m.0], cap)
}

proof fn lemma_best_upto_range(cs: Seq<Cand>, ds: Seq<nat>, r: u32, n: int)
    requires
        0 <= n,
    ensures
        best_upto(cs, ds, r, n) < n,
        best_upto(cs, ds, r, n) >= -1,
    decreases n,
{
    if n > 0 {
        lemma_best_upto_range(cs, ds, r, n - 1);
    }
}

proof fn lemma_main_ok(cs: Seq<Cand>, ds: Seq<nat>, filter: u32, cap: u32, n: int)
    requires
        n <= cs.len(),
        ds.len() == cs.len(),
    ensures
        forall|k: int| 0 <= k < main_pushes(cs, ds, filter, cap, n).len() ==> member_ok(
            cs,
            ds,
            cap,
            ((#[trigger] main_pushes(cs, ds, filter, cap, n)[k]).1, main_pushes(cs, ds, filter, cap, n)[k].2,
            main_pushes(cs, ds, filter, cap, n)[k].3),
        ),
    decreases n,
{
    if n > 0 {
        lemma_main_ok(cs, ds, filter, cap, n - 1);
        let prev = main_pushes(cs, ds, filter, cap, n - 1);
        let cur = main_pushes(cs, ds, filter, cap, n);
        assert forall|k: int| 0 <= k < cur.len() implies member_ok(cs, ds, cap, ((#[trigger] cur[k]).1, cur[k].2, cur[k].3)) by {
            if k < prev.len() {
                assert(cur[k] == prev[k]);
            } else {
                assert(cur[k] == (cs[n - 1].0, n - 1, cs[n - 1].1, sig_cap(ds[n - 1], cap)));
            }
        }
    }
}

proof fn lemma_fallback_ok(cs: Seq<Cand>, ds: Seq<nat>, filter: u32, cap: u32, nr: int)
    requires
        ds.len() == cs.len(),
    ensures
        forall|k: int| 0 <= k < fallback_pushes(cs, ds, filter, cap, nr).len() ==> member_ok(
            cs,
            ds,
            cap,
            ((#[trigger] fallback_pushes(cs, ds, filter, cap, nr)[k]).1, fallback_pushes(cs, ds, filter, cap, nr)[k].2,
            fallback_pushes(cs, ds, filter, cap, nr)[k].3),
        ),
    decreases nr,
{
    if nr > 0 {
        lemma_fallback_ok(cs, ds, filter, cap, nr - 1);
        let r = (nr - 1) as u32;
        lemma_best_upto_range(cs, ds, r, cs.len() as int);
        let prev = fallback_pushes(cs, ds, filter, cap, nr - 1);
        let cur = fallback_pushes(cs, ds, filter, cap, nr);
        let b = best_upto(cs, ds, r, cs.len() as int);
        assert forall|k: int| 0 <= k < cur.len() implies member_ok(cs, ds, cap, ((#[trigger] cur[k]).1, cur[k].2, cur[k].3)) by {
            if k < prev.len() {
                assert(cur[k] == prev[k]);
            } else {
                assert(cur[k] == (cs[b].0, b, r, sig_cap(ds[b], cap)));
            }
        }
    }
}

proof fn lemma_grouped_ok(cs: Seq<Cand>, ds: Seq<nat>, cap: u32, ps: Seq<Push>)
    requires
        forall|k: int| 0 <= k < ps.len() ==> member_ok(cs, ds, cap, ((#[trigger] ps[k]).1, ps[k].2, ps[k].3)),
    ensures
        forall|g: int, j: int|
            0 <= g < grouped(ps).len() && 0 <= j < grouped(ps)[g].1.len() ==> member_ok(
                cs,
                ds,
                cap,
                #[trigger] grouped(ps)[g].1[j],
            ),
    decreases ps.len(),
{
    if ps.len() > 0 {
        lemma_grouped_ok(cs, ds, cap, ps.drop_last());
        let gs = grouped(ps.drop_last());
        lemma_name_index(group_names(gs), ps.last().0);
        let g = group_index(gs, ps.last().0);
        assert(member_ok(cs, ds, cap, (ps[ps.len() - 1].1, ps[ps.len() - 1].2, ps[ps.len() - 1].3)));
        assert forall|x: int, j: int| 0 <= x < grouped(ps).len() && 0 <= j < grouped(ps)[x].1.len()
            implies member_ok(cs, ds, cap, #[trigger] grouped(ps)[x].1[j]) by {
            if g >= 0 {
                if x == g && j == gs[g].1.len() {
                    assert(grouped(ps)[x].1[j] == (ps.last().1, ps.last().2, ps.last().3));
                } else {
                    assert(grouped(ps)[x].1[j] == gs[x].1[j]);
                }
            } else {
                if x == gs.len() {
                    assert(grouped(ps)[x].1[j] == (ps.last().1, ps.last().2, ps.last().3));
                } else {
                    assert(grouped(ps)[x].1[j] == gs[x].1[j]);
                }
            }
        }
    }
}

/// Training keeps no signal within whose cap any reference window falls: every window of
/// the clean code and of every good example lies strictly farther from every kept signal
/// than that signal's cap.
pub proof fn law_training_clears_reference(
    ex: Seq<ExampleV>,
    clean: Seq<Seq<char>>,
    filter: u32,
    cap: u32,
    recall_fallback: bool,
)
    ensures
        clears(
            trained_experts(trained_cands(ex), trained_pushes(ex, clean, filter, cap, recall_fallback)),
            reference_windows(ex, clean),
        ),
{
    let cs = trained_cands(ex);
    let ds = trained_dists(ex, clean);
    let ps = trained_pushes(ex, clean, filter, cap, recall_fallback);
    let rw = reference_windows(ex, clean);
    let refs = rw.map_values(|w: Seq<Seq<char>>| signal(w));
    let nr = rule_list(ex).len() as int;
    let mains = main_pushes(cs, ds, filter, cap, cs.len() as int);
    let fbs = if recall_fallback {
        fallback_pushes(cs, ds, filter, cap, nr)
    } else {
        Seq::empty()
    };
    lemma_main_ok(cs, ds, filter, cap, cs.len() as int);
    lemma_fallback_ok(cs, ds, filter, cap, nr);
    assert(ps == mains + fbs);
    assert forall|k: int| 0 <= k < ps.len() implies member_ok(cs, ds, cap, ((#[trigger] ps[k]).1, ps[k].2, ps[k].3)) by {
        if k < mains.len() {
            assert(ps[k] == mains[k]);
        } else {
            assert(ps[k] == fbs[k - mains.len()]);
        }
    }
    lemma_grouped_ok(cs, ds, cap, ps);
    let es = trained_experts(cs, ps);
    assert forall|e: int, j: int, r: int|
        0 <= e < es.len() && 0 <= j < es[e].1.len() && 0 <= r < rw.len() implies dist(
        #[trigger] es[e].1[j].0,
        signal(#[trigger] rw[r]),
    ) > es[e].1[j].2 by {
        let g = grouped(ps)[e];
        let m = g.1[j];
        assert(member_ok(cs, ds, cap, grouped(ps)[e].1[j]));
        assert(es[e].1[j] == (signal(cs[m.0].2), m.1, m.2));
        let q = signal(cs[m.0].2);
        assert(ds[m.0] == near(q, refs));
        lemma_near_le(q, refs, r);
        assert(refs[r] == signal(rw[r]));
        lemma_dist_symmetric(refs[r], q, HV_WORDS as nat);
    }
}

proof fn lemma_no_claim(sigs: Seq<SigV>, q: Seq<u64>)
    requires
        forall|j: int| 0 <= j < sigs.len() ==> dist((#[trigger] sigs[j]).0, q) > sigs[j].2,
    ensures
        nearest_in(sigs, q) is None,
    decreases sigs.len(),
{
    if sigs.len() > 0 {
        lemma_no_claim(sigs.drop_last(), q);
        assert(sigs.last() == sigs[sigs.len() - 1]);
    }
}

proof fn lemma_no_best(es: Seq<ExpertV>, q: Seq<u64>, k: int, n: int)
    requires
        n <= es.len(),
        forall|e: int| 0 <= e < n ==> (#[trigger] nearest_in(es[e].1, q)) is None,
    ensures
        best_claim(es, q, k, n) is None,
    decreases n,
{
    if n > 0 {
        lemma_no_best(es, q, k, n - 1);
        assert(nearest_in(es[n - 1].1, q) is None);
    }
}

/// A window no signal's cap admits is never flagged, whatever the router does.
pub proof fn law_cleared_window_is_never_flagged(
    es: Seq<ExpertV>,
    f: Seq<(Seq<char>, u32)>,
    topk: int,
    w: Seq<Seq<char>>,
)
    requires
        forall|e: int, j: int|
            0 <= e < es.len() && 0 <= j < es[e].1.len() ==> dist((#[trigger] es[e].1[j]).0, signal(w)) > es[e].1[j].2,
    ensures
        verdict(es, f, topk, w) is None,
{
    let q = signal(w);
    assert forall|e: int| 0 <= e < es.len() implies (#[trigger] nearest_in(es[e].1, q)) is None by {
        assert forall|j: int| 0 <= j < es[e].1.len() implies dist((#[trigger] es[e].1[j]).0, q) > es[e].1[j].2 by {}
        lemma_no_claim(es[e].1, q);
    }
    let k = if topk < 1 {
        1
    } else {
        topk
    };
    lemma_no_best(es, q, k, es.len() as int);
}

proof fn lemma_no_verdicts(es: Seq<ExpertV>, f: Seq<(Seq<char>, u32)>, topk: int, ws: Seq<Seq<Seq<char>>>)
    requires
        forall|t: int| 0 <= t < ws.len() ==> (#[trigger] verdict(es, f, topk, ws[t])) is None,
    ensures
        verdicts(es, f, topk, ws) == Seq::<u32>::empty(),
    decreases ws.len(),
{
    if ws.len() > 0 {
        lemma_no_verdicts(es, f, topk, ws.drop_last());
        assert(verdict(es, f, topk, ws[ws.len() - 1]) is None);
    }
}

proof fn lemma_windows_listed(srcs: Seq<Seq<char>>, i: int, t: int)
    requires
        0 <= i < srcs.len(),
        0 <= t < code_windows(srcs[i]).len(),
    ensures
        exists|x: int| 0 <= x < all_windows(srcs).len() && all_windows(srcs)[x] == code_windows(srcs[i])[t],
    decreases srcs.len(),
{
    let prev = all_windows(srcs.drop_last());
    if i == srcs.len() - 1 {
        assert(all_windows(srcs)[prev.len() + t] == code_windows(srcs[i])[t]);
    } else {
        lemma_windows_listed(srcs.drop_last(), i, t);
        let x = choose|x: int| 0 <= x < prev.len() && prev[x] == code_windows(srcs.drop_last()[i])[t];
        assert(all_windows(srcs)[x] == prev[x]);
    }
}

/// A trained model flags nothing in the clean code it was trained on: judging any clean
/// source yields no rule.
pub proof fn law_trained_model_never_flags_its_clean_code(
    ex: Seq<ExampleV>,
    clean: Seq<Seq<char>>,
    filter: u32,
    cap: u32,
    topk: int,
    recall_fallback: bool,
    i: int,
)
    requires
        0 <= i < clean.len(),
    ensures
        verdicts(
            trained_experts(trained_cands(ex), trained_pushes(ex, clean, filter, cap, recall_fallback)),
            trained_freq(ex, clean, filter, cap, recall_fallback),
            topk,
            code_windows(clean[i]),
        ) == Seq::<u32>::empty(),
{
    let es = trained_experts(trained_cands(ex), trained_pushes(ex, clean, filter, cap, recall_fallback));
    let f = trained_freq(ex, clean, filter, cap, recall_fallback);
    let rw = reference_windows(ex, clean);
    law_training_clears_reference(ex, clean, filter, cap, recall_fallback);
    let ws = code_windows(clean[i]);
    assert forall|t: int| 0 <= t < ws.len() implies (#[trigger] verdict(es, f, topk, ws[t])) is None by {
        lemma_windows_listed(clean, i, t);
        let x = choose|x: int| 0 <= x < all_windows(clean).len() && all_windows(clean)[x] == ws[t];
        assert(rw[x] == ws[t]);
        assert forall|e: int, j: int| 0 <= e < es.len() && 0 <= j < es[e].1.len() implies dist(
            (#[trigger] es[e].1[j]).0,
            signal(ws[t]),
        ) > es[e].1[j].2 by {
            assert(dist(es[e].1[j].0, signal(rw[x])) > es[e].1[j].2);
        }
        law_cleared_window_is_never_flagged(es, f, topk, ws[t]);
    }
    lemma_no_verdicts(es, f, topk, ws);
}


/// A trained model flags nothing in the good form of any of its examples.
pub proof fn law_trained_model_never_flags_a_good_example(
    ex: Seq<ExampleV>,
    clean: Seq<Seq<char>>,
    filter: u32,
    cap: u32,
    topk: int,
    recall_fallback: bool,
    i: int,
)
    requires
        0 <= i < ex.len(),
    ensures
        verdicts(
            trained_experts(trained_cands(ex), trained_pushes(ex, clean, filter, cap, recall_fallback)),
            trained_freq(ex, clean, filter, cap, recall_fallback),
            topk,
            code_windows(ex[i].3),
        ) == Seq::<u32>::empty(),
{
    let es = trained_experts(trained_cands(ex), trained_pushes(ex, clean, filter, cap, recall_fallback));
    let f = trained_freq(ex, clean, filter, cap, recall_fallback);
    let rw = reference_windows(ex, clean);
    let gs = goods(ex);
    law_training_clears_reference(ex, clean, filter, cap, recall_fallback);
    let ws = code_windows(ex[i].3);
    assert(gs[i] == ex[i].3);
    assert forall|t: int| 0 <= t < ws.len() implies (#[trigger] verdict(es, f, topk, ws[t])) is None by {
        lemma_windows_listed(gs, i, t);
        let x = choose|x: int| 0 <= x < all_windows(gs).len() && all_windows(gs)[x] == ws[t];
        let y = all_windows(clean).len() + x;
        assert(rw[y] == ws[t]);
        assert forall|e: int, j: int| 0 <= e < es.len() && 0 <= j < es[e].1.len() implies dist(
            (#[trigger] es[e].1[j]).0,
            signal(ws[t]),
        ) > es[e].1[j].2 by {
            assert(dist(es[e].1[j].0, signal(rw[y])) > es[e].1[j].2);
        }
        law_cleared_window_is_never_flagged(es, f, topk, ws[t]);
    }
    lemma_no_verdicts(es, f, topk, ws);
}

/// The verdicts of the windows `ws`, one for each.
pub open spec fn verdict_seq(
    es: Seq<ExpertV>,
    f: Seq<(Seq<char>, u32)>,
    topk: int,
    ws: Seq<Seq<Seq<char>>>,
) -> Seq<Option<u32>> {
    ws.map_values(|w: Seq<Seq<char>>| verdict(es, f, topk, w))
}

/// The distinct values among the `Some`s of `vs`, in order of first appearance.
pub open spec fn distinct_somes(vs: Seq<Option<u32>>) -> Seq<u32>
    decreases vs.len(),
{
    if vs.len() == 0 {
        Seq::empty()
    } else {
        let prev = distinct_somes(vs.drop_last());
        match vs.last() {
            Some(r) => if prev.contains(r) {
                prev
            } else {
                prev.push(r)
            },
            None => prev,
        }
    }
}

/// The index of the first `Some(x)` in `vs`, or -1.
pub open spec fn first_some(vs: Seq<Option<u32>>, x: u32) -> int
    decreases vs.len(),
{
    if vs.len() == 0 {
        -1
    } else {
        let p = first_some(vs.drop_last(), x);
        if p >= 0 {
            p
        } else if vs.last() == Some(x) {
            vs.len() - 1
        } else {
            -1
        }
    }
}

/// The index of the first of the windows `ws` whose verdict is `x`, or -1 when none is.
pub open spec fn first_flag(
    es: Seq<ExpertV>,
    f: Seq<(Seq<char>, u32)>,
    topk: int,
    ws: Seq<Seq<Seq<char>>>,
    x: u32,
) -> int {
    first_some(verdict_seq(es, f, topk, ws), x)
}

proof fn lemma_first_some(vs: Seq<Option<u32>>, x: u32)
    ensures
        -1 <= first_some(vs, x) < vs.len(),
        first_some(vs, x) >= 0 ==> vs[first_some(vs, x)] == Some(x),
        forall|k: int| 0 <= k < vs.len() && (k < first_some(vs, x) || first_some(vs, x) < 0) ==> #[trigger] vs[k] != Some(x),
        distinct_somes(vs).contains(x) <==> first_some(vs, x) >= 0,
    decreases vs.len(),
{
    if vs.len() > 0 {
        let d = vs.drop_last();
        lemma_first_some(d, x);
        let prev = distinct_somes(d);
        assert forall|k: int| 0 <= k < d.len() implies #[trigger] d[k] == vs[k] by {}
        match vs.last() {
            Some(r) => {
                if !prev.contains(r) {
                    assert(prev.push(r).contains(x) <==> (prev.contains(x) || r == x)) by {
                        if prev.push(r).contains(x) {
                            let q = choose|q: int| 0 <= q < prev.push(r).len() && prev.push(r)[q] == x;
                            if q < prev.len() {
                                assert(prev[q] == x);
                            }
                        }
                        if prev.contains(x) {
                            let q = choose|q: int| 0 <= q < prev.len() && prev[q] == x;
                            assert(prev.push(r)[q] == x);
                        }
                        if r == x {
                            assert(prev.push(r)[prev.len() as int] == x);
                        }
                    }
                }
            },
            None => {},
        }
        assert(vs[vs.len() - 1] == vs.last());
        assert forall|k: int| 0 <= k < vs.len() && (k < first_some(vs, x) || first_some(vs, x) < 0) implies #[trigger] vs[k]
            != Some(x) by {
            if k < d.len() {
                assert(d[k] == vs[k]);
            }
        }
    }
}

proof fn lemma_distinct_somes_order(vs: Seq<Option<u32>>)
    ensures
        forall|i: int, j: int|
            0 <= i < j < distinct_somes(vs).len() ==> #[trigger] first_some(vs, distinct_somes(vs)[i])
                < #[trigger] first_some(vs, distinct_somes(vs)[j]),
    decreases vs.len(),
{
    if vs.len() > 0 {
        let d = vs.drop_last();
        lemma_distinct_somes_order(d);
        let prev = distinct_somes(d);
        let v = distinct_somes(vs);
        assert forall|i: int, j: int| 0 <= i < j < v.len() implies #[trigger] first_some(vs, v[i])
            < #[trigger] first_some(vs, v[j]) by {
            lemma_first_some(d, v[i]);
            lemma_first_some(d, v[j]);
            assert(v[i] == prev[i]);
            assert(prev.contains(prev[i]));
            if j < prev.len() {
                assert(v[j] == prev[j]);
                assert(prev.contains(prev[j]));
                assert(first_some(d, prev[i]) < first_some(d, prev[j]));
            } else {
                assert(!prev.contains(v[j]));
                lemma_first_some(d, v[j]);
            }
        }
    }
}

proof fn lemma_verdicts_distinct_somes(
    es: Seq<ExpertV>,
    f: Seq<(Seq<char>, u32)>,
    topk: int,
    ws: Seq<Seq<Seq<char>>>,
)
    ensures
        verdicts(es, f, topk, ws) == distinct_somes(verdict_seq(es, f, topk, ws)),
    decreases ws.len(),
{
    if ws.len() > 0 {
        lemma_verdicts_distinct_somes(es, f, topk, ws.drop_last());
        assert(verdict_seq(es, f, topk, ws).drop_last() =~= verdict_seq(es, f, topk, ws.drop_last()));
        assert(verdict_seq(es, f, topk, ws).last() == verdict(es, f, topk, ws.last()));
    }
}

/// Judging reports a rule exactly when some window of the code yields it, and in the order
/// of each rule's first such window: every reported rule is the verdict of its first
/// flagging window, and a rule reported earlier was first flagged by an earlier window.
pub proof fn law_judge_reports_each_flagged_rule_in_first_window_order(
    es: Seq<ExpertV>,
    f: Seq<(Seq<char>, u32)>,
    topk: int,
    ws: Seq<Seq<Seq<char>>>,
)
    ensures
        forall|x: u32|
            #[trigger] verdicts(es, f, topk, ws).contains(x) <==> exists|k: int|
                0 <= k < ws.len() && #[trigger] verdict(es, f, topk, ws[k]) == Some(x),
        forall|i: int|
            0 <= i < verdicts(es, f, topk, ws).len() ==> 0 <= #[trigger] first_flag(
                es,
                f,
                topk,
                ws,
                verdicts(es, f, topk, ws)[i],
            ) && verdict(es, f, topk, ws[first_flag(es, f, topk, ws, verdicts(es, f, topk, ws)[i])]) == Some(
                verdicts(es, f, topk, ws)[i],
            ),
        forall|i: int, j: int|
            0 <= i < j < verdicts(es, f, topk, ws).len() ==> #[trigger] first_flag(
                es,
                f,
                topk,
                ws,
                verdicts(es, f, topk, ws)[i],
            ) < #[trigger] first_flag(es, f, topk, ws, verdicts(es, f, topk, ws)[j]),
{
    let vs = verdict_seq(es, f, topk, ws);
    lemma_verdicts_distinct_somes(es, f, topk, ws);
    lemma_distinct_somes_order(vs);
    let v = verdicts(es, f, topk, ws);
    assert forall|x: u32| #[trigger] v.contains(x) <==> exists|k: int|
        0 <= k < ws.len() && #[trigger] verdict(es, f, topk, ws[k]) == Some(x) by {
        lemma_first_some(vs, x);
        if exists|k: int| 0 <= k < ws.len() && #[trigger] verdict(es, f, topk, ws[k]) == Some(x) {
            let k = choose|k: int| 0 <= k < ws.len() && #[trigger] verdict(es, f, topk, ws[k]) == Some(x);
            assert(vs[k] == Some(x));
        }
        if v.contains(x) {
            let k = first_some(vs, x);
            assert(vs[k] == verdict(es, f, topk, ws[k]));
        }
    }
    assert forall|i: int| 0 <= i < v.len() implies 0 <= #[trigger] first_flag(es, f, topk, ws, v[i]) && verdict(
        es,
        f,
        topk,
        ws[first_flag(es, f, topk, ws, v[i])],
    ) == Some(v[i]) by {
        lemma_first_some(vs, v[i]);
        assert(v.contains(v[i]));
        let k = first_some(vs, v[i]);
        assert(vs[k] == verdict(es, f, topk, ws[k]));
    }
}

/// The texts of a token list with lines.
pub open spec fn token_texts(toks: Seq<(Seq<char>, int)>) -> Seq<Seq<char>> {
    toks.map_values(|t: (Seq<char>, int)| t.0)
}

proof fn lemma_first_flag_extend(
    es: Seq<ExpertV>,
    f: Seq<(Seq<char>, u32)>,
    topk: int,
    ws: Seq<Seq<Seq<char>>>,
    y: u32,
)
    requires
        ws.len() > 0,
    ensures
        first_flag(es, f, topk, ws.drop_last(), y) >= 0 ==> first_flag(es, f, topk, ws, y) == first_flag(
            es,
            f,
            topk,
            ws.drop_last(),
            y,
        ),
        !verdicts(es, f, topk, ws.drop_last()).contains(y) && verdict(es, f, topk, ws.last()) == Some(y)
            ==> first_flag(es, f, topk, ws, y) == ws.len() - 1,
{
    let vs = verdict_seq(es, f, topk, ws);
    assert(vs.drop_last() =~= verdict_seq(es, f, topk, ws.drop_last()));
    assert(vs.last() == verdict(es, f, topk, ws.last()));
    lemma_verdicts_distinct_somes(es, f, topk, ws.drop_last());
    lemma_first_some(vs.drop_last(), y);
}

#[verifier::spinoff_prover]
#[verifier::rlimit(100)]
proof fn lemma_located_from(es: Seq<ExpertV>, f: Seq<(Seq<char>, u32)>, topk: int, toks: Seq<(Seq<char>, int)>, m: int)
    requires
        toks.len() >= WIN,
        0 <= m <= toks.len() - WIN + 1,
    ensures
        located_from(es, f, topk, toks, m).map_values(|p: (int, u32)| p.1) == verdicts(
            es,
            f,
            topk,
            windows_of(token_texts(toks)).take(m),
        ),
        forall|k: int|
            0 <= k < located_from(es, f, topk, toks, m).len() ==> 0 <= #[trigger] first_flag(
                es,
                f,
                topk,
                windows_of(token_texts(toks)).take(m),
                located_from(es, f, topk, toks, m)[k].1,
            ) < m && located_from(es, f, topk, toks, m)[k].0 == toks[first_flag(
                es,
                f,
                topk,
                windows_of(token_texts(toks)).take(m),
                located_from(es, f, topk, toks, m)[k].1,
            )].1,
    decreases m,
{
    let ws = windows_of(token_texts(toks));
    if m == 0 {
        assert(ws.take(0) =~= Seq::<Seq<Seq<char>>>::empty());
        assert(located_from(es, f, topk, toks, 0).map_values(|p: (int, u32)| p.1) =~= Seq::<u32>::empty());
    } else {
        lemma_located_from(es, f, topk, toks, m - 1);
        let prev = located_from(es, f, topk, toks, m - 1);
        let cur = located_from(es, f, topk, toks, m);
        let w = toks.subrange(m - 1, m - 1 + WIN).map_values(|t: (Seq<char>, int)| t.0);
        assert(w =~= ws[m - 1]);
        let t = ws.take(m);
        assert(t.drop_last() =~= ws.take(m - 1));
        assert(t.last() == ws[m - 1]);
        let pv = prev.map_values(|p: (int, u32)| p.1);
        assert forall|k: int| 0 <= k < prev.len() implies #[trigger] first_flag(es, f, topk, t, prev[k].1) == first_flag(
            es,
            f,
            topk,
            ws.take(m - 1),
            prev[k].1,
        ) by {
            lemma_first_flag_extend(es, f, topk, t, prev[k].1);
        }
        match verdict(es, f, topk, w) {
            Some(r) => {
                if !pv.contains(r) {
                    lemma_first_flag_extend(es, f, topk, t, r);
                    assert(cur.map_values(|p: (int, u32)| p.1) =~= pv.push(r));
                    assert forall|k: int| 0 <= k < cur.len() implies 0 <= #[trigger] first_flag(
                        es,
                        f,
                        topk,
                        t,
                        cur[k].1,
                    ) < m && cur[k].0 == toks[first_flag(es, f, topk, t, cur[k].1)].1 by {
                        if k < prev.len() {
                            assert(cur[k] == prev[k]);
                        }
                    }
                } else {
                    assert(cur == prev);
                }
            },
            None => {
                assert(cur == prev);
            },
        }
    }
}

#[verifier::rlimit(60)]
proof fn lemma_located_short(es: Seq<ExpertV>, f: Seq<(Seq<char>, u32)>, topk: int, toks: Seq<(Seq<char>, int)>)
    requires
        toks.len() < WIN,
    ensures
        located(es, f, topk, toks).map_values(|p: (int, u32)| p.1) == verdicts(
            es,
            f,
            topk,
            windows_of(token_texts(toks)),
        ),
        forall|k: int|
            0 <= k < located(es, f, topk, toks).len() ==> 0 <= #[trigger] first_flag(
                es,
                f,
                topk,
                windows_of(token_texts(toks)),
                located(es, f, topk, toks)[k].1,
            ) && located(es, f, topk, toks)[k].0 == toks[first_flag(
                es,
                f,
                topk,
                windows_of(token_texts(toks)),
                located(es, f, topk, toks)[k].1,
            )].1,
{
    let texts = token_texts(toks);
    let ws = windows_of(texts);
    let l = located(es, f, topk, toks);
    if texts.len() >= 2 {
        assert(ws =~= seq![texts]);
        let vs = verdict_seq(es, f, topk, ws);
        let v = verdict(es, f, topk, texts);
        assert(ws.drop_last() =~= Seq::<Seq<Seq<char>>>::empty());
        assert(vs.drop_last() =~= Seq::<Option<u32>>::empty());
        assert(vs.last() == v);
        assert(verdicts(es, f, topk, ws.drop_last()) =~= Seq::<u32>::empty());
        match v {
            Some(r) => {
                assert(l == seq![(toks[0].1, r)]);
                assert(verdicts(es, f, topk, ws) =~= seq![r]);
                assert(first_some(vs.drop_last(), r) == -1);
                assert(first_flag(es, f, topk, ws, r) == 0);
                assert(l.map_values(|p: (int, u32)| p.1) =~= seq![r]);
            },
            None => {
                assert(l == Seq::<(int, u32)>::empty());
                assert(verdicts(es, f, topk, ws) =~= Seq::<u32>::empty());
                assert(l.map_values(|p: (int, u32)| p.1) =~= Seq::<u32>::empty());
            },
        }
    } else {
        assert(ws =~= Seq::<Seq<Seq<char>>>::empty());
        assert(l.map_values(|p: (int, u32)| p.1) =~= Seq::<u32>::empty());
    }
}

/// What `judge_located` reports is what `judge` reports: the rules of the located
/// verdicts over the tokens of a code, in order, are its verdicts over the code's windows,
/// and each rule stands at the line of the first token of the first window that flags it.
pub proof fn law_judge_located_reports_judge_at_first_windows(
    es: Seq<ExpertV>,
    f: Seq<(Seq<char>, u32)>,
    topk: int,
    code: Seq<char>,
)
    ensures
        located(es, f, topk, lex(code)).map_values(|p: (int, u32)| p.1) == verdicts(es, f, topk, code_windows(code)),
        forall|k: int|
            0 <= k < located(es, f, topk, lex(code)).len() ==> 0 <= #[trigger] first_flag(
                es,
                f,
                topk,
                code_windows(code),
                located(es, f, topk, lex(code))[k].1,
            ) && located(es, f, topk, lex(code))[k].0 == lex(code)[first_flag(
                es,
                f,
                topk,
                code_windows(code),
                located(es, f, topk, lex(code))[k].1,
            )].1,
{
    let toks = lex(code);
    assert(token_texts(toks) =~= lex_texts(code));
    if toks.len() < WIN {
        lemma_located_short(es, f, topk, toks);
    } else {
        let n = toks.len() - WIN + 1;
        lemma_located_from(es, f, topk, toks, n);
        let ws = windows_of(token_texts(toks));
        assert(ws.take(n) =~= ws);
    }
}

/// The token texts `tokenize` gives are the texts of the located tokens `tokenize_located`
/// gives and `judge_located` reads, in the same order.
pub proof fn law_tokenize_texts_are_located_texts(code: Seq<char>)
    ensures
        lex_texts(code) == token_texts(lex(code)),
        lex_texts(code).len() == lex(code).len(),
        forall|k: int| 0 <= k < lex(code).len() ==> #[trigger] lex_texts(code)[k] == lex(code)[k].0,
{
}

/// Judging reports each rule at most once.
pub proof fn law_verdicts_are_distinct(
    es: Seq<ExpertV>,
    f: Seq<(Seq<char>, u32)>,
    topk: int,
    ws: Seq<Seq<Seq<char>>>,
)
    ensures
        verdicts(es, f, topk, ws).no_duplicates(),
    decreases ws.len(),
{
    if ws.len() > 0 {
        law_verdicts_are_distinct(es, f, topk, ws.drop_last());
    }
}

/// The path of the saved model for language `lang` under the model directory `dir`: the
/// file `<lang>.moe.json` joined onto `dir` as `Path::join` joins (an absolute file path
/// replaces `dir`; a separator is added unless `dir` is empty or already ends in one).
pub open spec fn model_path_of(dir: Seq<char>, lang: Seq<char>) -> Seq<char> {
    let file = lang + seq!['.', 'm', 'o', 'e', '.', 'j', 's', 'o', 'n'];
    if file[0] == '/' {
        file
    } else if dir.len() == 0 || dir.last() == '/' {
        dir + file
    } else {
        dir + seq!['/'] + file
    }
}

impl Moe {
    /// The saved-model path for a language id under the model directory `dir` (see
    /// [`model_path_of`]).
    pub fn model_path(dir: &str, lang: &str) -> (r: String)
        ensures
            r@ == model_path_of(dir@, lang@),
    {
        let mut file = chars_of(lang);
        let ext = vec!['.', 'm', 'o', 'e', '.', 'j', 's', 'o', 'n'];
        crate::text::append_chars(&mut file, ext.as_slice());
        proof {
            assert(file@ =~= lang@ + seq!['.', 'm', 'o', 'e', '.', 'j', 's', 'o', 'n']);
        }
        if file[0] == '/' {
            return string_of(file.as_slice());
        }
        let mut out = chars_of(dir);
        if out.len() > 0 && out[out.len() - 1] != '/' {
            out.push('/');
        }
        let ghost o = out@;
        crate::text::append_chars(&mut out, file.as_slice());
        proof {
            if dir@.len() == 0 || dir@.last() == '/' {
                assert(out@ =~= dir@ + file@);
            } else {
                assert(out@ =~= dir@ + seq!['/'] + file@);
            }
        }
        string_of(out.as_slice())
    }
}


// ── The stored form ──────────────────────────────────────────────────────────

/// An expert in stored form: its name, its router signature's words, and its violation
/// signals as (words, rule index, cap).
pub struct ExpertParts {
    pub name: String,
    pub signature: Vec<u64>,
    pub sigs: Vec<(Vec<u64>, u32, u32)>,
}

/// A model in stored form: the confident-match distance, the routing width, the rule
/// names, the token counts and the experts.
pub struct MoeParts {
    pub cap: u32,
    pub topk: usize,
    pub rule_names: Vec<String>,
    pub freq: Vec<(String, u32)>,
    pub experts: Vec<ExpertParts>,
}

/// A model as plain values: (cap, routing width, rule names, token counts, experts).
pub type ModelV = (u32, usize, Seq<Seq<char>>, Seq<(Seq<char>, u32)>, Seq<ExpertV>);

/// A stored expert as plain values.
pub open spec fn expert_parts_view(e: ExpertParts) -> ExpertV {
    (e.name@, e.sigs@.map_values(|s: (Vec<u64>, u32, u32)| (s.0@, s.1, s.2)), e.signature@)
}

/// A stored model as plain values.
pub open spec fn parts_view(p: MoeParts) -> ModelV {
    (
        p.cap,
        p.topk,
        p.rule_names.deep_view(),
        p.freq@.map_values(|q: (String, u32)| (q.0@, q.1)),
        p.experts@.map_values(|e: ExpertParts| expert_parts_view(e)),
    )
}

impl Moe {
    /// The whole model as plain values.
    pub open spec fn model_view(&self) -> ModelV {
        (self.cap_view(), self.topk_view(), self.rule_names_view(), self.freq_view(), self.experts_view())
    }
}

/// `f` with the count of `t` set to `c`: the entry keyed `t` is replaced, or one is added.
pub open spec fn freq_set(f: Seq<(Seq<char>, u32)>, t: Seq<char>, c: u32) -> Seq<(Seq<char>, u32)> {
    let k = key_index(f, t);
    if k >= 0 {
        f.update(k, (t, c))
    } else {
        f.push((t, c))
    }
}

/// The token counts that the stored entries `ps` build, a later entry for a token
/// replacing an earlier one.
pub open spec fn freq_collect(ps: Seq<(Seq<char>, u32)>) -> Seq<(Seq<char>, u32)>
    decreases ps.len(),
{
    if ps.len() == 0 {
        Seq::empty()
    } else {
        freq_set(freq_collect(ps.drop_last()), ps.last().0, ps.last().1)
    }
}

/// The model that stored values load as: the token counts collected (see
/// [`freq_collect`]), everything else as stored.
pub open spec fn loaded_view(v: ModelV) -> ModelV {
    (v.0, v.1, v.2, freq_collect(v.3), v.4)
}

/// Collected token counts keep every token under one entry.
proof fn lemma_freq_collect_distinct(ps: Seq<(Seq<char>, u32)>)
    ensures
        keys_of(freq_collect(ps)).no_duplicates(),
    decreases ps.len(),
{
    if ps.len() == 0 {
        assert(keys_of(freq_collect(ps)) =~= Seq::<Seq<char>>::empty());
    } else {
        lemma_freq_collect_distinct(ps.drop_last());
        let f = freq_collect(ps.drop_last());
        let t = ps.last().0;
        lemma_name_index(keys_of(f), t);
        if key_index(f, t) >= 0 {
            assert(keys_of(freq_collect(ps)) =~= keys_of(f));
        } else {
            assert(keys_of(freq_collect(ps)) =~= keys_of(f).push(t));
        }
    }
}

/// Token counts with every token under one entry collect to themselves.
proof fn lemma_freq_collect_distinct_id(f: Seq<(Seq<char>, u32)>)
    requires
        keys_of(f).no_duplicates(),
    ensures
        freq_collect(f) == f,
    decreases f.len(),
{
    if f.len() > 0 {
        let g = f.drop_last();
        assert(keys_of(g) =~= keys_of(f).drop_last());
        lemma_freq_collect_distinct_id(g);
        lemma_name_index(keys_of(g), f.last().0);
        if key_index(g, f.last().0) >= 0 {
            let k = key_index(g, f.last().0);
            assert(keys_of(f)[k] == keys_of(f)[f.len() - 1]);
        }
        assert(freq_collect(f) =~= f);
    }
}

/// Sets the count of `t` to `c` (see [`freq_set`]).
fn set_count(f: &mut Vec<(Vec<char>, u32)>, t: Vec<char>, c: u32)
    ensures
        fview(final(f)@) == freq_set(fview(old(f)@), t@, c),
{
    let mut keys: Vec<Vec<char>> = Vec::new();
    let mut i: usize = 0;
    while i < f.len()
        invariant
            i <= f@.len(),
            views(keys@) == keys_of(fview(f@)).take(i as int),
        decreases f@.len() - i,
    {
        let ghost before = views(keys@);
        keys.push(copy_chars(f[i].0.as_slice()));
        proof {
            assert(views(keys@) =~= before.push(f@[i as int].0@));
            assert(keys_of(fview(f@)).take(i + 1) =~= keys_of(fview(f@)).take(i as int).push(f@[i as int].0@));
        }
        i = i + 1;
    }
    assert(keys_of(fview(f@)).take(i as int) =~= keys_of(fview(f@)));
    match index_in(&keys, t.as_slice()) {
        Some(k) => {
            let ghost before = fview(f@);
            f.set(k, (t, c));
            proof {
                assert(fview(f@) =~= before.update(k as int, (t@, c)));
            }
        },
        None => {
            let ghost before = fview(f@);
            f.push((t, c));
            proof {
                assert(fview(f@) =~= before.push((t@, c)));
            }
        },
    }
}

/// The stored signals of an expert, as vectors of full width, or `None` when one has
/// another width.
fn sigs_from_parts(v: &Vec<(Vec<u64>, u32, u32)>) -> (r: Option<Vec<Sig>>)
    ensures
        match r {
            Some(sigs) => sigs_view(sigs@) == v@.map_values(|s: (Vec<u64>, u32, u32)| (s.0@, s.1, s.2))
                && forall|j: int| 0 <= j < sigs@.len() ==> (#[trigger] sigs@[j]).hv@.len() == HV_WORDS,
            None => exists|j: int| 0 <= j < v@.len() && (#[trigger] v@[j]).0@.len() != HV_WORDS,
        },
{
    let ghost want = v@.map_values(|s: (Vec<u64>, u32, u32)| (s.0@, s.1, s.2));
    let mut out: Vec<Sig> = Vec::new();
    let mut i: usize = 0;
    while i < v.len()
        invariant
            i <= v@.len(),
            want == v@.map_values(|s: (Vec<u64>, u32, u32)| (s.0@, s.1, s.2)),
            sigs_view(out@) == want.take(i as int),
            forall|j: int| 0 <= j < out@.len() ==> (#[trigger] out@[j]).hv@.len() == HV_WORDS,
        decreases v@.len() - i,
    {
        match Hv::from_words(v[i].0.as_slice()) {
            Some(hv) => {
                let ghost before = out@;
                out.push(Sig { hv, rule: v[i].1, cap: v[i].2 });
                proof {
                    let x = Sig { hv, rule: v@[i as int].1, cap: v@[i as int].2 };
                    assert(out@ == before.push(x));
                    assert(sigs_view(out@) =~= sigs_view(before).push(sig_view(x)));
                    assert(want.take(i + 1) =~= want.take(i as int).push(want[i as int]));
                    assert(sigs_view(out@) =~= want.take(i + 1));
                }
            },
            None => {
                assert(v@[i as int].0@.len() != HV_WORDS);
                return None;
            },
        }
        i = i + 1;
    }
    assert(want.take(i as int) =~= want);
    Some(out)
}

impl Moe {
    /// The model in stored form.
    pub fn to_parts(&self) -> (r: MoeParts)
        ensures
            parts_view(r) == self.model_view(),
    {
        let mut experts: Vec<ExpertParts> = Vec::new();
        let mut i: usize = 0;
        while i < self.experts.len()
            invariant
                i <= self.experts@.len(),
                experts@.map_values(|e: ExpertParts| expert_parts_view(e)) == self.experts_view().take(i as int),
            decreases self.experts@.len() - i,
        {
            let e = &self.experts[i];
            let mut sigs: Vec<(Vec<u64>, u32, u32)> = Vec::new();
            let mut j: usize = 0;
            while j < e.sigs.len()
                invariant
                    j <= e.sigs@.len(),
                    sigs@.map_values(|s: (Vec<u64>, u32, u32)| (s.0@, s.1, s.2)) == sigs_view(e.sigs@).take(j as int),
                decreases e.sigs@.len() - j,
            {
                let ghost before = sigs@;
                let item = (e.sigs[j].hv.as_words(), e.sigs[j].rule, e.sigs[j].cap);
                sigs.push(item);
                proof {
                    assert(sigs@ == before.push(item));
                    assert(sigs@.map_values(|s: (Vec<u64>, u32, u32)| (s.0@, s.1, s.2)) =~= before.map_values(
                        |s: (Vec<u64>, u32, u32)| (s.0@, s.1, s.2),
                    ).push((item.0@, item.1, item.2)));
                    assert(sigs_view(e.sigs@).take(j + 1) =~= sigs_view(e.sigs@).take(j as int).push(
                        sig_view(e.sigs@[j as int]),
                    ));
                    assert(sigs@.map_values(|s: (Vec<u64>, u32, u32)| (s.0@, s.1, s.2)) =~= sigs_view(e.sigs@).take(j + 1));
                }
                j = j + 1;
            }
            assert(sigs_view(e.sigs@).take(j as int) =~= sigs_view(e.sigs@));
            let name = string_of(chars_of(e.name.as_str()).as_slice());
            let ep = ExpertParts { name, signature: e.signature.as_words(), sigs };
            let ghost before = experts@;
            experts.push(ep);
            proof {
                assert(expert_parts_view(ep) == expert_view(self.experts@[i as int]));
                assert(experts@ == before.push(ep));
                assert(experts@.map_values(|e: ExpertParts| expert_parts_view(e)) =~= before.map_values(
                    |e: ExpertParts| expert_parts_view(e),
                ).push(expert_parts_view(ep)));
                assert(self.experts_view().take(i + 1) =~= self.experts_view().take(i as int).push(
                    self.experts_view()[i as int],
                ));
                assert(experts@.map_values(|e: ExpertParts| expert_parts_view(e)) =~= self.experts_view().take(i + 1));
            }
            i = i + 1;
        }
        assert(self.experts_view().take(i as int) =~= self.experts_view());
        let mut freq: Vec<(String, u32)> = Vec::new();
        let mut k: usize = 0;
        while k < self.freq.len()
            invariant
                k <= self.freq@.len(),
                freq@.map_values(|q: (String, u32)| (q.0@, q.1)) == self.freq_view().take(k as int),
            decreases self.freq@.len() - k,
        {
            let ghost before = freq@;
            let item = (string_of(self.freq[k].0.as_slice()), self.freq[k].1);
            freq.push(item);
            proof {
                assert(freq@ == before.push(item));
                assert(freq@.map_values(|q: (String, u32)| (q.0@, q.1)) =~= before.map_values(
                    |q: (String, u32)| (q.0@, q.1),
                ).push((item.0@, item.1)));
                assert(self.freq_view().take(k + 1) =~= self.freq_view().take(k as int).push(self.freq_view()[k as int]));
                assert(freq@.map_values(|q: (String, u32)| (q.0@, q.1)) =~= self.freq_view().take(k + 1));
            }
            k = k + 1;
        }
        assert(self.freq_view().take(k as int) =~= self.freq_view());
        let rule_names = strings_of(&chars_of_all(self.rule_names.as_slice()));
        let r = MoeParts { cap: self.cap, topk: self.topk, rule_names, freq, experts };
        assert(parts_view(r).2 =~= self.rule_names_view());
        r
    }

    /// The model stored as `p`, or `None` when a stored vector does not have the full
    /// width. Token counts are collected as [`freq_collect`] says.
    pub fn from_parts(p: &MoeParts) -> (r: Option<Moe>)
        ensures
            r is Some <==> experts_wf(parts_view(*p).4),
            r matches Some(m) ==> m.wf() && m.model_view() == loaded_view(parts_view(*p)),
    {
        let ghost pv = parts_view(*p);
        let mut experts: Vec<Expert> = Vec::new();
        let mut i: usize = 0;
        while i < p.experts.len()
            invariant
                i <= p.experts@.len(),
                pv == parts_view(*p),
                experts@.map_values(|e: Expert| expert_view(e)) == pv.4.take(i as int),
                experts_wf(pv.4.take(i as int)),
            decreases p.experts@.len() - i,
        {
            let e = &p.experts[i];
            proof {
                assert(pv.4[i as int] == expert_parts_view(*e));
            }
            let signature = match Hv::from_words(e.signature.as_slice()) {
                Some(h) => h,
                None => {
                    assert(!experts_wf(pv.4)) by {
                        assert(pv.4[i as int].2.len() != HV_WORDS);
                    }
                    return None;
                },
            };
            let sigs = match sigs_from_parts(&e.sigs) {
                Some(s) => s,
                None => {
                    assert(!experts_wf(pv.4)) by {
                        let j = choose|j: int| 0 <= j < e.sigs@.len() && (#[trigger] e.sigs@[j]).0@.len() != HV_WORDS;
                        assert(pv.4[i as int].1[j].0.len() != HV_WORDS);
                    }
                    return None;
                },
            };
            let name = string_of(chars_of(e.name.as_str()).as_slice());
            let ex = Expert { name, sigs, signature };
            let ghost before = experts@;
            experts.push(ex);
            proof {
                assert(expert_view(ex) == pv.4[i as int]);
                assert(experts@ == before.push(ex));
                assert(experts@.map_values(|e: Expert| expert_view(e)) =~= before.map_values(|e: Expert| expert_view(e)).push(
                    expert_view(ex),
                ));
                assert(pv.4.take(i + 1) =~= pv.4.take(i as int).push(pv.4[i as int]));
                assert(experts@.map_values(|e: Expert| expert_view(e)) =~= pv.4.take(i + 1));
                assert forall|t: int| 0 <= t < i + 1 implies (#[trigger] pv.4.take(i + 1)[t]).2.len() == HV_WORDS
                    && (forall|j: int| 0 <= j < pv.4.take(i + 1)[t].1.len() ==> (#[trigger] pv.4.take(i + 1)[t].1[j]).0.len() == HV_WORDS) by {
                    if t < i {
                        assert(pv.4.take(i + 1)[t] == pv.4.take(i as int)[t]);
                    } else {
                        assert(pv.4.take(i + 1)[t] == expert_view(ex));
                        assert forall|j: int| 0 <= j < expert_view(ex).1.len() implies (#[trigger] expert_view(ex).1[j]).0.len() == HV_WORDS by {
                            assert(expert_view(ex).1[j] == sig_view(ex.sigs@[j]));
                        }
                    }
                }
            }
            i = i + 1;
        }
        assert(pv.4.take(i as int) =~= pv.4);
        let mut freq: Vec<(Vec<char>, u32)> = Vec::new();
        let mut k: usize = 0;
        assert(fview(freq@) =~= freq_collect(pv.3.take(0)));
        while k < p.freq.len()
            invariant
                k <= p.freq@.len(),
                pv == parts_view(*p),
                fview(freq@) == freq_collect(pv.3.take(k as int)),
            decreases p.freq@.len() - k,
        {
            proof {
                assert(pv.3.take(k + 1).drop_last() =~= pv.3.take(k as int));
                assert(pv.3.take(k + 1).last() == (p.freq@[k as int].0@, p.freq@[k as int].1));
            }
            set_count(&mut freq, chars_of(p.freq[k].0.as_str()), p.freq[k].1);
            k = k + 1;
        }
        assert(pv.3.take(k as int) =~= pv.3);
        let rule_names = strings_of(&chars_of_all(p.rule_names.as_slice()));
        let m = Moe { experts, rule_names, freq, tok: Tokenizer::Lexer, cap: p.cap, topk: p.topk };
        proof {
            lemma_freq_collect_distinct(pv.3);
            assert(m.model_view().2 =~= pv.2);
        }
        Some(m)
    }
}

/// What is stored of a well-formed model loads back as the same model: every stored
/// vector has its full width, so loading succeeds, and the collected token counts are
/// the counts that were stored.
pub proof fn law_stored_model_loads_back(m: &Moe)
    requires
        m.wf(),
    ensures
        experts_wf(m.model_view().4),
        loaded_view(m.model_view()) == m.model_view(),
{
    lemma_freq_collect_distinct_id(m.freq_view());
}

} // verus!
