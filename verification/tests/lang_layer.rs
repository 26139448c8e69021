use helpers_lint::lang_layer::{
    attested_item_shapes, code_interiors, code_to_backtick, example_receiver_shapes, examples_of_class, is_reference_page, is_rule_page,
    member_page_shapes, normalize_construct, note_counter_attests, operator_tokens, page_code_blocks_by_url,
    page_code_corpus, page_example_corpus, script_interior, strip_code, strip_pre_blocks, StatusTokens,
};

fn status() -> StatusTokens {
    StatusTokens {
        prohibition_class: vec!["deprecated".to_string()],
        scope_exception: vec!["except".to_string()],
        usage_form: vec!["if".to_string()],
    }
}

#[test]
fn a_bare_pre_block_is_read_as_the_pages_own_example() {
    let body = r#"<h1>zap()</h1><p>Never use zap.</p>
            <pre>zap(payload)
zap(other)</pre>
            <pre><span class="gutter">1</span><code>preferred(interior)</code></pre>
            <pre>   </pre>"#;
    let own = page_example_corpus(body, false);
    assert_eq!(own.len(), 2, "bare pre + pre>code, whitespace-only pre skipped: {own:?}");
    assert!(own[0].contains("zap(payload)") && own[0].contains("zap(other)"), "the bare <pre> interior is the example unit: {:?}", own[0]);
    assert_eq!(own[1], "preferred(interior)", "a nested <code> stays preferred; the gutter sibling is left behind");
}

#[test]
fn attested_item_shapes_reads_the_three_marker_typographies() {
    let py = r#"<dl><dt id="mod.klass.olditem"></dt><dd><p>Long description prose here.</p>
            <div class="deprecated"><p>Deprecated since version 9.9: gone.</p></div></dd>
            <dt id="mod.klass.newitem"></dt><dd><p>The replacement.</p></dd></dl>"#;
    let (groups, _) = attested_item_shapes(py, &status());
    assert_eq!(groups.len(), 1, "one marked item: {groups:?}");
    assert_eq!(groups[0], vec!["mod.klass.olditem", "klass.olditem", ".olditem"], "no bare shape");

    let rs = r#"<details class="toggle method-toggle deprecated"><summary>
            <section id="method.olditem" class="method"><h4>fn olditem()</h4></section></summary></details>"#;
    let (groups, _) = attested_item_shapes(rs, &status());
    assert_eq!(groups.len(), 1, "{groups:?}");
    assert_eq!(groups[0][0], "method.olditem");

    let rs2 = r#"<section class="method deprecated" id="method.only_v6"><h4>sig</h4></section>"#;
    assert_eq!(attested_item_shapes(rs2, &status()).0[0][0], "method.only_v6");

    let mdn = r#"<h2 id="syntax"></h2><div class="notecard deprecated"><p>Deprecated.</p></div>"#;
    assert!(attested_item_shapes(mdn, &status()).0.is_empty(), "dotless region id abstains");
    let dup = r#"<section id="method.is_ascii-1"></section><div class="stab deprecated">note</div>"#;
    assert!(attested_item_shapes(dup, &status()).0.is_empty(), "invalid dotted id abstains, never slides past");
}

#[test]
fn note_scope_registers_counter_attest_exception_and_usage_form_notes() {
    let except = r#"<dl><dt id="ssl.TLSVersion.TLSv1_3"></dt><dd><p>Enum member prose.</p>
            <div class="deprecated"><p>Deprecated since version 3.10: All TLSVersion members except
            TLSVersion.TLSv1_2 and TLSVersion.TLSv1_3 are deprecated.</p></div></dd></dl>"#;
    let (enforce, counter) = attested_item_shapes(except, &status());
    assert!(enforce.is_empty(), "excepted item leaves the enforcement view");
    assert_eq!(counter.len(), 1, "…but stays a structural read (language witness): {counter:?}");
    assert_eq!(counter[0][0], "ssl.TLSVersion.TLSv1_3");

    let cond = r#"<dl><dt id="asyncio.shield"></dt><dd><p>Prose.</p>
            <div class="deprecated"><p>Deprecated since version 3.10: Deprecation warning is emitted if
            aw is not Future-like object and there is no running event loop.</p></div></dd></dl>"#;
    let (enforce, counter) = attested_item_shapes(cond, &status());
    assert!(enforce.is_empty() && counter.len() == 1, "conditional-form note is counter-attested");

    let keep = r#"<dl><dt id="abc.SourceLoader.path_mtime"></dt><dd>
            <div class="deprecated"><p>Deprecated since version 3.3: This method is deprecated in favour
            of path_stats(). Raise OSError if the path cannot be handled.</p></div></dd></dl>"#;
    let (groups, counter) = attested_item_shapes(keep, &status());
    assert_eq!(groups.len(), 1, "remedy-sentence 'if' keeps the true deprecation: {groups:?}");
    assert_eq!(groups[0][0], "abc.SourceLoader.path_mtime");
    assert!(counter.is_empty());

    let plain = r#"<dl><dt id="mod.olditem"></dt><dd>
            <div class="deprecated"><p>Deprecated since version 9.9: use shift() or newitem() instead.
            </p></div></dd></dl>"#;
    assert_eq!(attested_item_shapes(plain, &status()).0.len(), 1, "'shift' does not read as the 'if' register");
}

#[test]
fn operator_tokens_keeps_operators_drops_punctuation_and_keywords() {
    let toks = operator_tokens("if foo ~~ bar { baz }");
    assert!(toks.contains(&"~~".to_string()), "multi-char operator kept");
    assert!(!toks.iter().any(|t| t == "{" || t == "}"), "single-char punctuation dropped (the brace-junk class)");
    assert!(!toks.iter().any(|t| t == "if"), "a keyword is NOT harvested from examples (prose names it)");
}

#[test]
fn normalize_strips_trailing_empty_call() {
    assert_eq!(normalize_construct("`qux()`"), "qux");
    assert_eq!(normalize_construct("~~"), "~~");
}

#[test]
fn script_interior_unwraps_a_lone_script_element_only() {
    assert_eq!(script_interior("<script>obj.qux(1);</script>").as_deref(), Some("obj.qux(1);"));
    assert_eq!(script_interior("  <SCRIPT>\n obj.qux(1);\n</SCRIPT>  ").as_deref(), Some("obj.qux(1);"));
    assert_eq!(script_interior("obj.qux(1);"), None, "ordinary code is not a script element");
    assert_eq!(script_interior("<script src=\"x.js\"></script>"), None, "empty interior is not JS to surface");
    assert_eq!(
        script_interior("<p>hi</p><script>obj.qux(1)</script>"),
        None,
        "HTML with other content is left whole"
    );
}

#[test]
fn example_receiver_shapes_reads_the_qualified_receiver_from_the_example() {
    let url = "https://example.org/en-US/docs/Web/API/Obj/qux";
    let ex = vec!["obj.qux(1);\nfoo.bar();".to_string()];
    assert_eq!(example_receiver_shapes(url, &ex), vec!["obj.qux".to_string()], "owner-linked, actual case");
    let ex2 = vec!["thing.qux(1);".to_string()];
    assert!(example_receiver_shapes(url, &ex2).is_empty(), "a non-owner receiver mints no shape");
}

// ── Further cases ───────────────────────────────────────────────────────────

#[test]
fn page_kind_is_read_from_the_url_path() {
    assert!(is_reference_page("https://developer.mozilla.org/en-US/docs/Web/JavaScript/Reference/Global_Objects/escape"));
    assert!(!is_reference_page("https://eslint.org/docs/latest/rules/no-var"));
    assert!(is_rule_page("https://eslint.org/docs/latest/rules/no-var"));
    assert!(!is_rule_page("https://example.org/reference/x"));
}

#[test]
fn member_page_shapes_reads_owner_and_subject() {
    let shapes = member_page_shapes("https://developer.mozilla.org/en-US/docs/Web/JavaScript/Reference/Global_Objects/String/substr");
    assert_eq!(shapes, vec!["String.substr".to_string(), ".substr".to_string(), "substr".to_string()]);
    let bare = member_page_shapes("https://developer.mozilla.org/en-US/docs/Web/JavaScript/Reference/Statements/with");
    assert_eq!(bare.last().map(String::as_str), Some("with"));
}

#[test]
fn strip_code_removes_markup_and_decodes_entities() {
    let got: String = strip_code(&"<span class=\"k\">a</span> &lt;b&gt; &amp;&quot;c&quot;&#39;".chars().collect::<Vec<_>>())
        .into_iter()
        .collect();
    assert_eq!(got, "a <b> &\"c\"'");
}

#[test]
fn strip_pre_blocks_replaces_each_block_with_a_space() {
    assert_eq!(strip_pre_blocks("a<pre>code</pre>b<pre x>more</pre>c"), "a b c");
    assert_eq!(strip_pre_blocks("a<pre>unterminated"), "a<pre>unterminated");
}

#[test]
fn a_lone_script_example_is_surfaced_as_its_interior() {
    let body = "<pre><code>&lt;script&gt;obj.qux(\"x\");&lt;/script&gt;</code></pre>";
    assert_eq!(code_interiors(body), vec!["obj.qux(\"x\");".to_string()]);
}

#[test]
fn rendered_marker_pages_widen_the_corpus_with_inline_code() {
    let body = "<p>Use <code>mod.old</code> or <code>x</code>.</p><pre><code>mod.old()</code></pre><p><code>mod.old()</code></p>";
    assert_eq!(page_example_corpus(body, false), vec!["mod.old()".to_string()]);
    assert_eq!(page_example_corpus(body, true), vec!["mod.old()".to_string(), "mod.old".to_string()]);
}

#[test]
fn page_code_corpus_dedups_and_caps() {
    let pages = vec![
        ("u1".to_string(), "<pre><code>alpha()</code></pre><pre><code>  alpha()  </code></pre>".to_string()),
        ("u2".to_string(), "<pre><code>beta()</code></pre><pre><code>xy</code></pre><pre><code>gamma()</code></pre>".to_string()),
    ];
    assert_eq!(page_code_corpus(&pages, "js", 10), vec!["alpha()".to_string(), "beta()".to_string(), "gamma()".to_string()]);
    assert_eq!(page_code_corpus(&pages, "js", 2), vec!["alpha()".to_string(), "beta()".to_string()]);
    let by_url = page_code_blocks_by_url(&pages, 10);
    assert_eq!(by_url[1], ("u2".to_string(), "beta()".to_string()));
}

#[test]
fn note_counter_attests_with_literal_anchors() {
    assert!(note_counter_attests("deprecated: all members except a.b are gone.", "x.A.B", &status()));
    assert!(!note_counter_attests("deprecated: this is gone.", "x.a.b", &status()));
    assert!(!note_counter_attests("", "x.a.b", &status()));
}

#[test]
fn paired_example_regions_yield_their_own_blocks() {
    let body = "<h1>no-loose</h1><div class=\"incorrect\"><pre><code>if (a ~~ b) {}</code></pre>\
                <pre> x </pre></div>\
                <div class=\"correct\"><pre><code>if (a === b) {}</code></pre></div>\
                <div class=\"incorrect\"><pre>zap(q)</pre></div>";
    assert_eq!(examples_of_class(body, "incorrect"), vec!["if (a ~~ b) {}".to_string(), "zap(q)".to_string()]);
    assert_eq!(examples_of_class(body, "correct"), vec!["if (a === b) {}".to_string()]);
    assert!(examples_of_class(body, "other").is_empty());
    let far = format!("<div class=\"correct\">{}<pre>late(x)</pre>", " ".repeat(9000));
    assert!(examples_of_class(&far, "correct").is_empty(), "a region reaches 8000 bytes at most");
}

#[test]
fn inline_code_becomes_one_backticked_token() {
    assert_eq!(code_to_backtick("use <code>==</code> here"), "use `==` here");
    assert_eq!(code_to_backtick("<CODE class=\"x\"><span>=</span><span>==</span></CODE>!"), "`===`!");
    assert_eq!(code_to_backtick("<code>&lt;=</code>"), "`<=`");
    assert_eq!(code_to_backtick("a<code></code>b"), "ab", "an empty element vanishes");
    assert_eq!(code_to_backtick("<code>never closed"), "<code>never closed");
    assert_eq!(code_to_backtick("caf\u{e9} <code>x</code>"), "caf\u{e9} `x`");
}
