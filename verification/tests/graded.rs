use helpers_lint::graded::{graded_forms, GradedForm};
use helpers_lint::module::{Candidate, ReadConstruct};

fn read(c: &str, url: &str) -> ReadConstruct {
    ReadConstruct {
        page_scope: true,
        element_typography: true,
        construct: c.to_string(),
        governing: format!("The {c} member is deprecated."),
        url: url.to_string(),
        attested_deprecated: true,
    }
}

fn get<'a>(forms: &'a [(String, GradedForm)], key: &str) -> Option<&'a GradedForm> {
    forms.iter().find(|(k, _)| k == key).map(|(_, f)| f)
}

fn pairs(v: &[(&str, &str)]) -> Vec<(String, String)> {
    v.iter().map(|(a, b)| (a.to_string(), b.to_string())).collect()
}

/// The planner's answers for the corpus blocks: each form fires where the JavaScript grammar
/// finds it used.
fn fires() -> Vec<(String, String, bool)> {
    vec![
        (".deadfn".to_string(), "old.deadfn(); Legacy.deadfn();".to_string(), true),
        ("Legacy.deadfn".to_string(), "old.deadfn(); Legacy.deadfn();".to_string(), true),
        ("Legacy.alive".to_string(), "Legacy.alive();".to_string(), true),
        ("Legacy.alive".to_string(), "let x = obj.alive();\nLegacy.alive();".to_string(), true),
        ("<font>".to_string(), "<font>x</font>".to_string(), true),
    ]
}

#[test]
fn graded_forms_gates_calibrate_dedup_and_stay_flood_safe() {
    let dead = || read("Legacy.deadfn", "https://d/legacy-deadfn");
    let alive = || read("Legacy.alive", "https://d/legacy-alive");
    let roles: Vec<(String, String)> = vec![];
    let no_proven: Vec<String> = vec![];
    let corpus = pairs(&[
        ("https://d/legacy-deadfn", "old.deadfn(); Legacy.deadfn();"),
        ("https://d/legacy-alive", "Legacy.alive();"),
        ("https://d/other", "let x = obj.alive();"),
        ("https://d/other2", "const y = 1;"),
    ]);
    let forms = graded_forms(&[dead(), alive()], &[], &roles, &no_proven, &corpus, &fires());
    assert_eq!(get(&forms, "Legacy.deadfn").unwrap().fire, ".deadfn", "trusted-dead fires receiver-generic");
    assert_eq!(get(&forms, "Legacy.alive").unwrap().fire, "Legacy.alive", "alive member falls to dotted-literal");
    assert_eq!(get(&forms, "Legacy.deadfn").unwrap().severity, "low");
    let poverty = graded_forms(&[dead()], &[], &roles, &no_proven, &corpus, &fires());
    assert_eq!(get(&poverty, "Legacy.deadfn").unwrap().fire, "Legacy.deadfn", "uncalibrated death never fires receiver-generic");
    let proven = vec![".deadfn".to_string()];
    let deduped = graded_forms(&[dead(), alive()], &[], &roles, &proven, &corpus, &fires());
    assert!(get(&deduped, "Legacy.deadfn").is_none(), "a proven-covered form is never duplicated");
    assert!(get(&deduped, "Legacy.alive").is_some(), "uncovered forms still graduate");
    let contested = pairs(&[
        ("https://d/legacy-deadfn", "old.deadfn(); Legacy.deadfn();"),
        ("https://d/legacy-alive", "Legacy.alive();"),
        ("https://d/other", "let x = obj.alive();\nLegacy.alive();"),
        ("https://d/other2", "const y = 1;"),
    ]);
    let dropped = graded_forms(&[dead(), alive()], &[], &roles, &no_proven, &contested, &fires());
    assert!(get(&dropped, "Legacy.alive").is_none(), "a form firing on the corpus's own clean code is dropped");
}

#[test]
fn graded_findings_cite_the_role_the_page_and_the_basis() {
    let dead = read("Legacy.deadfn", "https://d/legacy-deadfn");
    let alive = read("Legacy.alive", "https://d/legacy-alive");
    let corpus = pairs(&[
        ("https://d/legacy-deadfn", "old.deadfn(); Legacy.deadfn();"),
        ("https://d/legacy-alive", "Legacy.alive();"),
        ("https://d/other", "let x = obj.alive();"),
        ("https://d/other", "const y = 1;"),
    ]);
    let roles = pairs(&[("Legacy.alive", "removal")]);
    let forms = graded_forms(&[dead, alive], &[], &roles, &[], &corpus, &fires());
    let d = get(&forms, "Legacy.deadfn").unwrap();
    assert_eq!(
        d.description,
        "Do not use `Legacy.deadfn`: documented deprecated \u{27e8}https://d/legacy-deadfn\u{27e9} \u{2014} its member `.deadfn` is absent from the corpus's 3 current example pages (usage-dead)."
    );
    assert_eq!(d.source, "https://d/legacy-deadfn");
    let a = get(&forms, "Legacy.alive").unwrap();
    assert_eq!(
        a.description,
        "Do not use `Legacy.alive`: documented removal \u{27e8}https://d/legacy-alive\u{27e9} \u{2014} fires only on the exact deprecated `Legacy.alive` form."
    );
}

#[test]
fn a_bare_revoked_subject_fires_as_its_element_when_the_grammar_fires_the_demo() {
    let font = || read("font", "https://d/font");
    let forms = graded_forms(&[font()], &[], &[], &[], &[], &fires());
    let f = get(&forms, "font").expect("the element tier grades a bare subject");
    assert_eq!(f.fire, "<font>");
    assert_eq!(f.severity, "low");
    assert_eq!(
        f.description,
        "Do not use `<font>`: documented deprecated \u{27e8}https://d/font\u{27e9} \u{2014} fires only at tag position, the element itself."
    );
    assert!(graded_forms(&[font()], &[], &[], &["<font>".to_string()], &[], &fires()).is_empty(), "proven elements are skipped");
    assert!(graded_forms(&[read("center", "https://d/center")], &[], &[], &[], &[], &fires()).is_empty(), "the demo must fire");
    assert!(graded_forms(&[read("font", "https://d/other")], &[], &[], &[], &[], &fires()).is_empty(), "the url must name the subject");
    let failed = Candidate {
        construct: "font".to_string(),
        understanding: "The font element is obsolete.".to_string(),
        url: "https://d/font".to_string(),
        seeds: vec![],
        page_scope: true,
        element_typography: true,
        attested_deprecated: true,
        stated: false,
    };
    let from_failed = graded_forms(&[], &[failed], &[], &[], &[], &fires());
    assert_eq!(from_failed.len(), 1);
    let both = graded_forms(&[font()], &[from_failed_candidate()], &[], &[], &[], &fires());
    assert_eq!(both.len(), 1, "a subject is graded once");
}

fn from_failed_candidate() -> Candidate {
    Candidate {
        construct: "font".to_string(),
        understanding: String::new(),
        url: "https://d/font".to_string(),
        seeds: vec![],
        page_scope: true,
        element_typography: true,
        attested_deprecated: false,
        stated: false,
    }
}
