use helpers_lint::moe::{Example, ExpertParts, Moe, MoeParts, Tokenizer};

fn examples() -> Vec<Example> {
    vec![
        Example {
            rule: "bool_comparison".into(),
            slice: "style".into(),
            bad: "fn f(x: bool) { if x == true {} }".into(),
            good: "fn f(x: bool) { if x {} }".into(),
        },
        Example {
            rule: "eq_op".into(),
            slice: "correctness".into(),
            bad: "fn f(a: i32) { if a == a {} }".into(),
            good: "fn f(a: i32, c: i32) { if a == c {} }".into(),
        },
    ]
}

const CLEAN: [&str; 3] = [
    "fn a(n: i32) -> i32 { n + 1 }",
    "fn b() { let s = compute(); use_it(s); }",
    "fn c(v: Vec<i32>) { for e in v { go(e) } }",
];

#[test]
fn routes_and_reasons_in_signal_space() {
    let examples = examples();
    let clean = CLEAN;
    let moe = Moe::train(&examples, &clean, 600, 1400, 2);
    assert!(moe.stats().0 >= 1, "should have experts");
    let hits = moe.judge("fn h(y: bool) { if y == true {} }");
    assert!(hits.iter().any(|&r| moe.rule_name(r) == "bool_comparison"));
    assert!(moe.judge("fn h(y: bool) { if y {} }").is_empty());
    assert!(moe.judge(r#"fn h() { let s = "if y == true"; }"#).is_empty());
}

// ── Further cases ───────────────────────────────────────────────────────────

#[test]
fn the_lexer_collapses_literals_and_keeps_operators() {
    let toks = Tokenizer::Lexer.tokenize("if x == 42 { s = \"hi\"; } // note\n'c'");
    assert_eq!(toks, vec!["if", "x", "==", "<num>", "{", "s", "=", "<str>", ";", "}", "<comment>", "<str>"]);
}

#[test]
fn located_tokens_carry_the_texts_of_tokenize_and_their_lines() {
    let code = "if x == 42 {\n  s = \"hi\";\n}";
    let located = Tokenizer::Lexer.tokenize_located(code);
    let texts: Vec<String> = located.iter().map(|(t, _)| t.clone()).collect();
    assert_eq!(texts, Tokenizer::Lexer.tokenize(code));
    let lines: Vec<usize> = located.iter().map(|(_, l)| *l).collect();
    assert_eq!(lines, vec![1, 1, 1, 1, 1, 2, 2, 2, 2, 3]);
}

#[test]
fn a_trained_model_never_flags_its_own_clean_code() {
    let examples = examples();
    for recall in [true, false] {
        let moe = Moe::train_with_opts(&examples, &CLEAN, 600, 1400, 2, Tokenizer::Lexer, recall);
        for src in CLEAN {
            assert!(moe.judge(src).is_empty(), "clean code is never flagged: {src}");
        }
        for e in &examples {
            assert!(moe.judge(&e.good).is_empty(), "a good example is never flagged: {}", e.good);
        }
    }
}

#[test]
fn judging_reports_each_rule_once_and_locates_it() {
    let examples = examples();
    let moe = Moe::train(&examples, &CLEAN, 600, 1400, 2);
    let code = "fn h(y: bool) {\n if y == true {}\n if y == true {}\n}";
    let hits = moe.judge(code);
    assert_eq!(hits.len(), 1);
    let located = moe.judge_located(code);
    assert_eq!(located.len(), 1);
    assert_eq!(located[0].0, 2, "first flagged window starts on line 2");
    assert_eq!(moe.rule_name(located[0].1), "bool_comparison");
    assert_eq!(moe.rule_name(99), "?");
}

#[test]
fn precise_training_keeps_only_distinctive_signals() {
    let examples = examples();
    let precise = Moe::train_precise(&examples, &CLEAN, 600, 1400, 2);
    let recall = Moe::train(&examples, &CLEAN, 600, 1400, 2);
    assert!(precise.stats().1 <= recall.stats().1);
    assert_eq!(Moe::model_path("/models", "rust"), "/models/rust.moe.json");
    assert_eq!(Moe::model_path("/models/", "go"), "/models/go.moe.json");
    assert_eq!(Moe::model_path("", "c"), "c.moe.json");
}

#[test]
fn a_window_is_judged_in_signal_space() {
    let examples = examples();
    let moe = Moe::train(&examples, &CLEAN, 600, 1400, 2);
    let w: Vec<String> = vec!["==".into(), "true".into(), "{".into(), "}".into()];
    let r = moe.judge_window(&w);
    assert!(r.is_some_and(|r| moe.rule_name(r) == "bool_comparison"));
    assert_eq!(moe.judge_window(&["x".to_string()]), None, "a one-token window abstains");
}

#[test]
fn a_stored_model_loads_back_and_judges_alike() {
    let examples = examples();
    let moe = Moe::train(&examples, &CLEAN, 600, 1400, 2);
    let parts = moe.to_parts();
    assert_eq!(parts.cap, 1400);
    assert_eq!(parts.topk, 2);
    assert_eq!(parts.rule_names, vec!["bool_comparison".to_string(), "eq_op".to_string()]);
    assert_eq!(parts.experts.len(), moe.stats().0);
    let back = Moe::from_parts(&parts).expect("full-width vectors load");
    assert_eq!(back.stats(), moe.stats());
    let code = "fn h(y: bool) {\n if y == true {}\n}";
    assert_eq!(back.judge_located(code), moe.judge_located(code));
    assert_eq!(back.rule_name(0), "bool_comparison");
    let again = back.to_parts();
    assert_eq!(again.freq, parts.freq);
}

#[test]
fn a_stored_vector_of_the_wrong_width_does_not_load() {
    let examples = examples();
    let moe = Moe::train(&examples, &CLEAN, 600, 1400, 2);
    let mut parts = moe.to_parts();
    parts.experts[0].signature.pop();
    assert!(Moe::from_parts(&parts).is_none());
    let empty = MoeParts {
        cap: 5,
        topk: 1,
        rule_names: vec![],
        freq: vec![("x".to_string(), 1), ("x".to_string(), 4)],
        experts: vec![ExpertParts { name: "e".to_string(), signature: vec![0; 160], sigs: vec![(vec![1; 3], 0, 9)] }],
    };
    assert!(Moe::from_parts(&empty).is_none());
    let ok = MoeParts { experts: vec![], ..empty };
    let m = Moe::from_parts(&ok).expect("no vectors to check");
    assert_eq!(m.to_parts().freq, vec![("x".to_string(), 4)], "a later count replaces an earlier one");
    assert_eq!(m.stats(), (0, 0));
}
