use helpers_lint::hv::fnv_hash;
use helpers_lint::markup::{
    build, calibrated, calibration_tallies, calibration_tallies_checked, element_seed_of, learn_tag_roles, read_page, sorted_roles, stacks_nest_exec, title_ceiling,
    Lexicon, Markup,
};

fn lexicon() -> Lexicon {
    let words = "a all always and anything are before block declare else error following for from full function \
                 handling here hoists if instead introduced it let never observe of or prose raise release resources \
                 returning run scope sections sentence shows silently statement the to total use variable variables \
                 which with example failing call flag";
    Lexicon { words: words.split_whitespace().map(|w| w.to_string()).collect() }
}

fn test_markup() -> Markup {
    Markup { split_pm: 600, title_ceiling: 8, tag_roles: vec![], pages_read: 1, source_fp: 0 }
}

fn seed(name: &str) -> u64 {
    let cs: Vec<char> = name.chars().collect();
    fnv_hash(&cs)
}

fn test_markup_with_roles() -> Markup {
    let mut m = test_markup();
    m.tag_roles = vec![(seed("pre"), 1), (seed("h2"), -1)];
    m.tag_roles.sort_by_key(|(k, _)| *k);
    m
}

#[test]
fn a_shredded_code_block_reads_as_one_span_and_prose_governs_it() {
    let english = lexicon();
    let markup = test_markup();
    let body = r#"<h2>Variables</h2>
            <p>Never use the var statement to declare a variable; it hoists silently.</p>
            <div><span>var</span> <span>total</span> <span>=</span> <span>compute(items);</span>
            <span>var</span> <span>flag</span> <span>=</span> <span>!!getOpts(cfg);</span></div>
            <p>Use let or const instead, which scope to the block.</p>"#;
    let units = read_page(body, &english, &markup);
    assert_eq!(units.len(), 1, "one merged code span");
    assert!(units[0].code.contains("var total = compute(items);"), "code survives verbatim: {:?}", units[0].code);
    assert!(units[0].prose.contains("Never use the var statement"), "the governing prose is the section body: {:?}", units[0].prose);
    assert!(!units[0].prose.contains("Variables"), "the title's own words never weld into the prose");
    assert_eq!(&body[units[0].at..units[0].at + 3], "var", "the unit's offset is a byte offset into the body");
}

#[test]
fn the_authors_language_mark_is_read_as_a_hint() {
    let english = lexicon();
    let markup = test_markup();
    let body = r#"<p>The following example shows the failing call, run it and observe the error.</p>
            <pre class="language-python">raise ValueError(f"bad {x!r}") if x else compute_totals(rows[0:12], key=lambda r: r.total)</pre>"#;
    let units = read_page(body, &english, &markup);
    assert_eq!(units.len(), 1);
    assert_eq!(units[0].hint, "python", "the author's own mark declares the block's language");
    assert!(units[0].prose.starts_with("The following example"));
}

#[test]
fn a_learned_code_role_reads_english_words_inside_pre_as_code() {
    let english = lexicon();
    let markup = test_markup_with_roles();
    let body = r#"<p>Sections are introduced here with a full sentence of prose.</p>
            <h2>error handling</h2>
            <p>Always release resources before returning from the function.</p>
            <pre><code><span>goto</span> <span>cleanup;</span></code></pre>"#;
    let units = read_page(body, &english, &markup);
    assert_eq!(units.len(), 1, "the pre block is one unit");
    assert!(units[0].code.contains("goto cleanup;"), "code: {:?}", units[0].code);
    assert!(units[0].prose.contains("release resources"), "prose: {:?}", units[0].prose);
    assert!(!units[0].prose.contains("introduced here"), "the h2 role bounds the section: {:?}", units[0].prose);
}

#[test]
fn a_mid_sentence_inline_mark_never_cuts_the_governing_prose() {
    let english = lexicon();
    let markup = test_markup_with_roles();
    let body = r#"<p>Never use the <code>var</code> statement to declare anything.</p>
            <pre>var total = compute(items);</pre>"#;
    let units = read_page(body, &english, &markup);
    assert_eq!(units.len(), 1);
    assert!(
        units[0].prose.contains("Never use the") && units[0].prose.contains("statement"),
        "the whole sentence governs, uncut by the inline mark: {:?}",
        units[0].prose
    );
}

#[test]
fn an_uncalibrated_brain_reads_nothing() {
    let english = lexicon();
    let markup = Markup { split_pm: 0, title_ceiling: 8, tag_roles: vec![], pages_read: 0, source_fp: 0 };
    assert!(!markup.is_ready());
    assert!(test_markup().is_ready());
    assert!(read_page("<p>Never use it.</p><pre>x = f(y);</pre>", &english, &markup).is_empty());
    assert!(read_page("", &english, &test_markup()).is_empty());
}

#[test]
fn element_seeds_ignore_case_and_closing_marks() {
    let t = |s: &str| s.chars().collect::<Vec<char>>();
    assert_eq!(element_seed_of(&t("<PRE class=\"x\">")), seed("pre"));
    assert_eq!(element_seed_of(&t("</pre>")), seed("pre"));
    assert_eq!(element_seed_of(&t("<!-- note -->")), 0, "a comment names no element");
    assert_eq!(element_seed_of(&t("<my-widget>")), seed("my-widget"));
}

#[test]
fn governing_prose_keeps_only_its_closing_characters() {
    let english = lexicon();
    let markup = test_markup();
    let long = "never use the statement ".repeat(30);
    let body = format!("<p>{long}and avoid it.</p><pre>x = compute(items);</pre>");
    let units = read_page(&body, &english, &markup);
    assert_eq!(units.len(), 1);
    assert!(units[0].prose.chars().count() <= 320, "the cap holds: {}", units[0].prose.len());
    assert!(units[0].prose.ends_with("and avoid it."));
    assert!(!units[0].prose.starts_with(' '), "a cut snaps to a word boundary");
}

const PAGE: &str = "<h2>error handling</h2><p>Always release resources before returning from the function.</p><pre>x = compute(items);</pre>";

#[test]
fn calibration_tallies_fold_words_by_density_and_collect_title_shapes() {
    let (hist, titles) = calibration_tallies(&[PAGE.to_string()], &lexicon());
    assert_eq!(hist.len(), 101);
    assert_eq!(hist[0], 3, "the code gap's three words read at density zero");
    assert_eq!(hist[100], 10, "the heading and the prose read fully English");
    assert_eq!(hist.iter().sum::<u64>(), 13);
    assert_eq!(titles, vec![2], "only the heading is title-shaped");
}

#[test]
fn the_title_ceiling_is_a_clamped_ninetieth_percentile() {
    assert_eq!(title_ceiling(&vec![3; 49]), None, "too few candidates");
    assert_eq!(title_ceiling(&vec![3; 50]), Some(3));
    assert_eq!(title_ceiling(&vec![1; 50]), Some(2), "clamped from below");
    assert_eq!(title_ceiling(&(1..=60).collect::<Vec<u32>>()), Some(24), "clamped from above");
    let mut mixed = vec![1u32; 45];
    mixed.extend(vec![5u32; 10]);
    assert_eq!(title_ceiling(&mixed), Some(5));
}

#[test]
fn tag_roles_are_learned_from_what_the_elements_contain() {
    let lex = lexicon();
    let nine: Vec<String> = (0..9).map(|_| PAGE.to_string()).collect();
    let roles = learn_tag_roles(&nine, &lex, 600, 8);
    let mut want = vec![(seed("pre"), 1i8), (seed("h2"), -1i8)];
    want.sort_by_key(|(k, _)| *k);
    assert_eq!(roles, want, "pre carries code, h2 bounds sections, p testifies to neither");
    let seven: Vec<String> = (0..7).map(|_| PAGE.to_string()).collect();
    assert!(learn_tag_roles(&seven, &lex, 600, 8).is_empty(), "a rarely seen tag cannot testify");
}

#[test]
fn a_brain_calibrates_only_from_a_bimodal_corpus_with_enough_titles() {
    let lex = lexicon();
    let nine: Vec<String> = (0..9).map(|_| PAGE.to_string()).collect();
    let titles = vec![3u32; 50];
    assert!(calibrated(&nine, &lex, 7, None, &titles).is_none(), "no split, no brain");
    assert!(calibrated(&nine, &lex, 7, Some(600), &vec![2]).is_none(), "no ceiling, no brain");
    let m = calibrated(&nine, &lex, 7, Some(600), &titles).expect("calibrates");
    assert!(m.is_ready());
    assert_eq!((m.split_pm, m.title_ceiling, m.pages_read, m.source_fp), (600, 3, 9, 7));
    assert_eq!(m.tag_roles.len(), 2);
}

#[test]
fn units_come_in_page_order() {
    let english = lexicon();
    let body = "<p>Never use the statement here.</p><pre>x = compute(items);</pre>\
                <p>Always release resources before returning.</p><pre>y = f(x);</pre>";
    let units = read_page(body, &english, &test_markup());
    assert_eq!(units.len(), 2);
    assert!(units[0].at < units[1].at);
    assert_eq!(units[1].code, "y = f(x);");
    assert!(units[1].prose.ends_with("Always release resources before returning."), "{:?}", units[1].prose);
}

#[test]
fn the_lexicon_and_the_roles_answer_by_lookup() {
    let lex = lexicon();
    let cs = |w: &str| w.chars().collect::<Vec<char>>();
    assert!(lex.knows(&cs("Never")), "compared in lower case");
    assert!(!lex.knows(&cs("goto")));
    let m = test_markup_with_roles();
    assert_eq!(m.tag_role(seed("pre")), Some(true));
    assert_eq!(m.tag_role(seed("h2")), Some(false));
    assert_eq!(m.tag_role(seed("span")), None);
    let stack = vec![(0u32, seed("pre")), (1u32, seed("code")), (2u32, seed("span"))];
    assert_eq!(m.stack_role(&stack), Some(true), "the innermost element with a role decides");
    assert!(stacks_nest_exec(&stack[..1].to_vec(), &stack));
    assert!(!stacks_nest_exec(&vec![(5u32, seed("pre"))], &stack), "instances, not names, must match");
}

#[test]
fn building_tallies_the_corpus_itself_and_agrees_with_the_calibration() {
    let lex = lexicon();
    let nine: Vec<String> = (0..9).map(|_| PAGE.to_string()).collect();
    assert_eq!(calibration_tallies_checked(&nine, &lex), Some(calibration_tallies(&nine, &lex)));
    assert_eq!(calibration_tallies_checked(&[], &lex), Some(calibration_tallies(&[], &lex)));
    // Nine pages show nine title shapes: too few for a ceiling.
    assert!(build(&nine, &lex, 7, Some(600)).is_none(), "too few title shapes");
    let many: Vec<String> = (0..50).map(|_| PAGE.to_string()).collect();
    let (_, titles) = calibration_tallies(&many, &lex);
    let m = build(&many, &lex, 7, Some(600)).expect("builds");
    let n = calibrated(&many, &lex, 7, Some(600), &titles).expect("calibrates");
    assert_eq!((m.split_pm, m.title_ceiling, m.pages_read, m.source_fp), (n.split_pm, n.title_ceiling, n.pages_read, n.source_fp));
    assert_eq!((m.title_ceiling, m.pages_read), (2, 50));
    assert_eq!(m.tag_roles, n.tag_roles);
    assert!(m.tag_roles.iter().all(|(_, r)| *r == 1 || *r == -1));
    assert!(build(&many, &lex, 7, None).is_none(), "no split, no brain");
    assert!(build(&many, &lex, 7, Some(605)).is_none(), "a split is a multiple of ten");
    assert!(build(&many, &lex, 7, Some(1010)).is_none(), "a split is at most 1000");
    assert!(build(&[], &lex, 7, Some(600)).is_none(), "no pages, no brain");
}

#[test]
fn stored_roles_are_sorted_by_seed_keeping_the_first_role_of_each() {
    let roles = vec![(9u64, 1i8), (3, -1), (9, -1), (5, 1), (3, 1)];
    assert_eq!(sorted_roles(&roles), vec![(3, -1), (5, 1), (9, 1)]);
    assert_eq!(sorted_roles(&vec![]), Vec::<(u64, i8)>::new());
}
