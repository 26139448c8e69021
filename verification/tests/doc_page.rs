use helpers_lint::doc_page::read_doc_page;
use helpers_lint::lang_layer::StatusTokens;

fn status() -> StatusTokens {
    StatusTokens {
        prohibition_class: vec!["deprecated".to_string()],
        scope_exception: vec!["except".to_string()],
        usage_form: vec!["if".to_string()],
    }
}

fn strs(v: &[&str]) -> Vec<String> {
    v.iter().map(|s| s.to_string()).collect()
}

const RULE_BODY: &str = "<h1>no-loose</h1><div class=\"incorrect\"><pre><code>if (a ~~ b) {}</code></pre></div>\
                         <div class=\"correct\"><pre><code>if (a === b) {}</code></pre></div>\
                         <div class=\"incorrect\"><pre>zap(q)</pre></div>";

#[test]
fn an_ordinary_page_reads_as_nothing() {
    let page = read_doc_page("https://x.org/guide/intro", "<p>hi</p>", "<p>hi</p>", &strs(&["Hi."]), &[vec![]], &[], &[], &status());
    assert!(!page.prohibited && !page.attested_deprecated && !page.construction_attested);
    assert!(page.governing.is_empty() && page.constructs.is_empty() && page.incorrect.is_empty());
    assert_eq!(page.url, "https://x.org/guide/intro");
}

#[test]
fn a_rule_page_names_its_prose_constructs_and_its_incorrect_operators() {
    let governing = strs(&["Disallow the `~~` operator.", "It is confusing.", "Use `===` instead."]);
    let named = vec![strs(&["~~"]), strs(&["confusing"]), strs(&["==="])];
    let page = read_doc_page("https://eslint.org/docs/rules/no-loose", RULE_BODY, RULE_BODY, &governing, &named, &[], &[], &status());
    assert!(page.prohibited);
    assert!(!page.attested_deprecated, "a rule page never attests deprecation");
    assert_eq!(page.constructs, strs(&["~~", "==="]), "unticked prose is not read; the operator is not repeated");
    assert_eq!(page.incorrect, strs(&["if (a ~~ b) {}", "zap(q)"]));
    assert_eq!(page.correct, strs(&["if (a === b) {}"]));
    assert_eq!(page.governing, governing);
}

#[test]
fn a_construction_bound_page_proposes_its_subjects_once_each() {
    let url = "https://docs.python.org/3/library/cgi.html";
    let construction = vec![(url.to_string(), strs(&["cgi", "cgi", "telnetlib"]))];
    let page = read_doc_page(url, "<p>x</p>", "<p>x</p>", &[], &[], &[], &construction, &status());
    assert!(page.prohibited && page.attested_deprecated && page.construction_attested);
    assert_eq!(page.constructs, strs(&["cgi", "telnetlib"]));
}

#[test]
fn an_attested_reference_page_proposes_its_member_shapes() {
    let url = "https://developer.mozilla.org/en-US/docs/Web/JavaScript/Reference/Global_Objects/String/substr";
    let page = read_doc_page(url, "<p>x</p>", "<p>x</p>", &[], &[], &strs(&[url]), &[], &status());
    assert!(page.prohibited && page.attested_deprecated && !page.construction_attested);
    assert_eq!(page.constructs, strs(&["String.substr", ".substr", "substr"]));
    assert!(page.marked_deprecated.is_empty() && page.counter_attested.is_empty());
}
