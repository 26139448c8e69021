use helpers_lint::module::{
    construct_in_text, harvest_corpus, is_operator, member_demo_ok, member_receivers, mention_needle, mentions, mentions_checked,
    mentions_full_token, note_withhold, qualified_safe, read_not_proposed, read_pass_complete, replace_whole_token,
    rule_id, slugify, splice_construct, url_payload_equals, Binding, Candidate, Memory, ReadConstruct,
};

fn binding(url: &str, slug: &str, prose: &str, code: &str) -> Binding {
    Binding { url: url.to_string(), slug: slug.to_string(), prose: prose.to_string(), code: code.to_string() }
}

#[test]
fn member_demo_ok_accepts_own_parent_local_and_literal_receivers_rejects_foreign() {
    assert!(member_demo_ok("dt = datetime.utcnow()", ".utcnow", "datetime"));
    assert!(member_demo_ok("let s = \" hi \"; let t = s.trim_left();", ".trim_left", "method"));
    assert!(member_demo_ok("assert_eq!(\"x\", \"1x1\".trim_left_matches('1'));", ".trim_left_matches", "method"));
    assert!(!member_demo_ok("x: collections.abc.Sequence[int] = []", ".Sequence", "typing"));
    assert!(!member_demo_ok("d = collections.OrderedDict()", ".OrderedDict", "typing"));
}

#[test]
fn member_receivers_counts_distinct_receivers() {
    let corpus = vec![
        "words = text.split(',')".to_string(),
        "parts = name.split('.')".to_string(),
        "re.split(pattern, s)".to_string(),
        "dt = datetime.utcnow()".to_string(),
    ];
    assert!(member_receivers(&corpus, ".split") >= 3, "split rides many receivers");
    assert_eq!(member_receivers(&corpus, ".utcnow"), 1, "utcnow is bound to one receiver");
}

#[test]
fn qualified_safe_rejects_junk_admits_owner_member() {
    assert!(qualified_safe("typing.Sequence"));
    assert!(qualified_safe("Object.__defineGetter__"));
    assert!(qualified_safe("importlib.abc.Loader.load_module"));
    assert!(!qualified_safe(".read"), "bare leading-dot member");
    assert!(!qualified_safe("ssl.html"), "doc URL basename");
    assert!(!qualified_safe("struct.Vec.html"), "doc URL basename");
    assert!(!qualified_safe("method.foo"), "rustdoc anchor form");
    assert!(!qualified_safe("compile"), "bare generic single identifier");
}

#[test]
fn mentions_is_token_delimited_not_substring() {
    assert!(mentions("Never use the `var` keyword.", "var"));
    assert!(mentions("The var statement is old.", "var"));
    assert!(!mentions("A variable holds a value.", "var"), "must not match inside 'variable'");
    assert!(mentions("Use === instead of ==.", "=="));
}

#[test]
fn rule_id_byte_preserves_the_construct_no_collision() {
    assert_eq!(rule_id("var"), "uses-var");
    assert_eq!(rule_id("document.write"), "uses-document.write");
    assert_eq!(rule_id("=="), "uses-==");
    assert_eq!(rule_id("++"), "uses-++");
    assert_ne!(rule_id("=="), rule_id("++"), "distinct constructs must have distinct ids");
}

#[test]
fn harvest_dedups_and_gathers_bindings_and_reference() {
    let mut memory = Memory { bindings: Vec::new(), reference: Vec::new() };
    memory.bindings.push(binding("u", "s", "p", "var x = 1;"));
    memory.bindings.push(binding("u", "s", "p", "var x = 1;"));
    memory.reference.push("let y = 2;".to_string());
    let corpus = harvest_corpus(&memory);
    assert_eq!(corpus.len(), 2, "the duplicate block collapses; the reference block joins");
}

// ── Further cases ───────────────────────────────────────────────────────────

#[test]
fn a_member_construct_is_mentioned_by_its_terminal_segment() {
    assert!(mentions("The substr method is legacy.", "String.prototype.substr"));
    assert!(mentions("Avoid `substr`.", ".substr"));
    assert!(!mentions("Nothing here.", "..."));
}

#[test]
fn full_token_mentions_keep_dotted_chains_whole() {
    assert!(mentions_full_token("use ssl.sslsocket.read here", "ssl.sslsocket.read"));
    assert!(!mentions_full_token("use ssl.sslsocket.read2 here", "ssl.sslsocket.read"));
    assert!(!mentions_full_token("x.read()", "read"));
    assert!(mentions_full_token("read it", "read"));
}

#[test]
fn construct_in_text_honours_the_three_shapes() {
    assert!(construct_in_text("a == b", "=="));
    assert!(!construct_in_text("a === b", "=="));
    assert!(construct_in_text("var x = 1", "var"));
    assert!(!construct_in_text("variable = 1", "var"));
    assert!(!construct_in_text("a.var = 1", "var"));
    assert!(construct_in_text("s.substr(1)", ".substr"));
    assert!(!construct_in_text("anything", ""));
}

#[test]
fn splicing_replaces_whole_name_tokens_only() {
    assert_eq!(replace_whole_token("<p>hi</p>", "p", "marquee"), "<marquee>hi</marquee>");
    assert_eq!(replace_whole_token("span p-x p", "p", "q"), "span p-x q");
    assert_eq!(replace_whole_token("abc", "", "q"), "abc");
    let spliced = splice_construct("box-orient", "div { display: flex; }");
    assert_eq!(spliced, vec!["box-orient { display: flex; }".to_string(), "div { box-orient: flex; }".to_string(), "div { display: box-orient; }".to_string()]);
}

#[test]
fn slugs_and_url_payloads() {
    assert_eq!(slugify("Box Orient"), "box-orient");
    assert_eq!(slugify("--a__b--"), "a-b");
    assert!(url_payload_equals("https://eslint.org/docs/latest/rules/no-var/", "var"));
    assert!(url_payload_equals("https://x/Global_Objects/String/substr", ".substr"));
    assert!(!url_payload_equals("https://eslint.org/docs/latest/rules/no-delete-var", "delete"));
}

#[test]
fn operators_needles_and_read_pass() {
    assert!(is_operator("=="));
    assert!(!is_operator("="));
    assert!(!is_operator("a.b"));
    assert_eq!(mention_needle("center", true), "<center>");
    assert_eq!(mention_needle("center", false), "center");
    assert!(!read_pass_complete(&[]));
    assert!(read_pass_complete(&[("u".to_string(), "b".to_string())]));
}

#[test]
fn withhold_rows_dedup() {
    let mut rows: Vec<(String, String)> = Vec::new();
    note_withhold(&mut rows, "a".to_string(), "why");
    note_withhold(&mut rows, "a".to_string(), "why");
    note_withhold(&mut rows, "a".to_string(), "other");
    assert_eq!(rows.len(), 2);
}

#[test]
fn read_surface_minus_proposed_page_scope_first() {
    let rc = |c: &str, url: &str, scope: bool| ReadConstruct {
        construct: c.to_string(),
        governing: String::new(),
        url: url.to_string(),
        attested_deprecated: false,
        page_scope: scope,
        element_typography: false,
    };
    let cand = Candidate {
        construct: "var".to_string(),
        understanding: String::new(),
        url: String::new(),
        seeds: Vec::new(),
        page_scope: false,
        element_typography: false,
        attested_deprecated: false,
        stated: true,
    };
    let out = read_not_proposed(&[cand], vec![rc("center", "a", false), rc("var", "b", true), rc("center", "c", true), rc("blink", "d", false)]);
    let got: Vec<(String, String)> = out.iter().map(|r| (r.construct.clone(), r.url.clone())).collect();
    assert_eq!(got, vec![("center".to_string(), "c".to_string()), ("blink".to_string(), "d".to_string())]);
}

#[test]
fn checked_mentions_answers_where_the_scan_is_safe_and_none_mid_character() {
    assert_eq!(mentions_checked("Never use the `var` keyword.", "var"), Some(true));
    assert_eq!(mentions_checked("A variable holds a value.", "var"), Some(false));
    assert_eq!(mentions_checked("use foo here", "x.foo"), Some(true));
    assert_eq!(mentions_checked("Nothing here.", "..."), Some(false));
    assert_eq!(mentions_checked("x\u{e9}ab", "\u{e9}a"), None);
}
