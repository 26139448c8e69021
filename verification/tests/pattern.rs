use helpers_lint::pattern::{code_ngrams, compile_tree, is_construct_keyword, tree_of_walk, WalkEntry, ngrams_of, parse, token_role, RulePattern, Syn, MAX_EXAMPLE_BYTES};

#[test]
fn parse_reads_a_bundled_grammar_and_refuses_others() {
    let tree = parse("python", "x = 1").expect("python is bundled");
    assert_eq!(tree.kind, "module");
    assert!(tree.named);
    assert_eq!(tree.row, 0);
    assert_eq!(tree.children.len(), 1);
    assert_eq!(tree.children[0].kind, "expression_statement");
    assert!(parse("klingon", "x = 1").is_none());
}

#[test]
fn a_call_pattern_keeps_the_callee_and_generalizes_operands_and_literals() {
    let rule = RulePattern::compile("python", "x = foo(1)", "", "calling foo with a constant").expect("compiles");
    assert_eq!(rule.root_kind(), "assignment");
    assert!(rule.text_anchored());
    assert!(rule.structured());
    assert_eq!(rule.matches("y = foo(2)\nz = bar(3)\nw = foo(5)\n"), vec![1, 3]);
    assert_eq!(rule.matches("y = foo(a)\n"), Vec::<usize>::new(), "an operand is not a literal");
    assert_eq!(rule.matches("y = foo(1, 2)\n"), Vec::<usize>::new(), "the argument count is part of the shape");
}

#[test]
fn the_pattern_fires_on_its_own_bad_example() {
    let bad = "for i in range(len(xs)):\n    pass\n";
    let rule = RulePattern::compile("python", bad, "for x in xs:\n    pass\n", "use enumerate, not range(len())")
        .expect("compiles");
    assert_eq!(rule.root_kind(), "call");
    assert_eq!(rule.matches(bad), vec![1]);
}

#[test]
fn a_fix_diff_localizes_the_violation_to_the_novel_call() {
    let rule = RulePattern::compile(
        "python",
        "for i in range(len(xs)):\n    pass\n",
        "for x in xs:\n    pass\n",
        "use enumerate, not range(len())",
    )
    .expect("compiles");
    let code = "for j in range(len(ys)):\n    print(j)\nfor k in range(n):\n    pass\nz = range(len(q))\n";
    assert_eq!(rule.matches(code), vec![1, 5]);
}

#[test]
fn a_fix_of_the_same_shape_leaves_nothing_novel() {
    assert!(RulePattern::compile("python", "x = foo(1)", "x = bar(1)", "prefer bar").is_none());
}

#[test]
fn repeated_operands_must_bind_the_same_text() {
    let rule = RulePattern::compile("python", "x = foo(x, x)", "", "foo of itself").expect("compiles");
    assert_eq!(rule.matches("a = foo(a, a)\nb = foo(b, c)\nd = foo(e, e)\n"), vec![1]);
}

#[test]
fn instances_differing_only_in_literal_values_abstain() {
    let bad = "\"{\".format(foo)\n\" {} \".format(foo)\n";
    assert!(RulePattern::compile("python", bad, "", "invalid format string").is_none());
}

#[test]
fn a_sample_program_is_not_a_rule() {
    assert!(RulePattern::compile("python", "import os\nprint(os.name)\n", "", "prints the os name").is_none());
}

#[test]
fn an_example_too_long_or_in_an_unbundled_language_abstains() {
    let long = "x = foo(1)\n".repeat(MAX_EXAMPLE_BYTES / 10);
    assert!(long.len() > MAX_EXAMPLE_BYTES);
    assert!(RulePattern::compile("python", &long, "", "calling foo").is_none());
    assert!(RulePattern::compile("klingon", "x = foo(1)", "", "calling foo").is_none());
}

#[test]
fn a_pattern_without_an_identity_abstains() {
    assert!(RulePattern::compile("python", "x = y + 1", "", "adding one").is_none());
}

#[test]
fn a_description_that_names_a_literal_keeps_it_exact() {
    let rule = RulePattern::compile("python", "app.run(host=\"0.0.0.0\")", "", "Binding to 0.0.0.0 exposes the server")
        .expect("compiles");
    assert_eq!(rule.matches("app.run(host=\"0.0.0.0\")\nsrv.run(host=\"127.0.0.1\")\n"), vec![1]);
}

fn leaf(kind: &str, named: bool, text: &str, row: usize, field: &str) -> Syn {
    Syn {
        kind: kind.to_string(),
        named,
        text: text.to_string(),
        row,
        field: field.to_string(),
        start: 0,
        end: text.len(),
        children: Vec::new(),
    }
}

fn node(kind: &str, text: &str, row: usize, field: &str, children: Vec<Syn>) -> Syn {
    Syn {
        kind: kind.to_string(),
        named: true,
        text: text.to_string(),
        row,
        field: field.to_string(),
        start: 0,
        end: text.len(),
        children,
    }
}

#[test]
fn compiling_a_hand_built_tree_generalizes_operands_only() {
    // `zap(q)` as a bare expression statement.
    let call = node(
        "call",
        "zap(q)",
        0,
        "",
        vec![
            leaf("identifier", true, "zap", 0, "function"),
            node(
                "argument_list",
                "(q)",
                0,
                "arguments",
                vec![leaf("(", false, "(", 0, ""), leaf("identifier", true, "q", 0, ""), leaf(")", false, ")", 0, "")],
            ),
        ],
    );
    let tree = node("module", "zap(q)", 0, "", vec![node("expression_statement", "zap(q)", 0, "", vec![call])]);
    let pat = compile_tree(&tree, None, "").expect("anchored by the callee");
    assert_eq!(pat.kind, "call");
    assert_eq!(pat.children.len(), 2);
    assert_eq!(pat.children[0].text.as_deref(), Some("zap"));
    assert_eq!(pat.children[0].bind, None);
    assert_eq!(pat.children[1].kind, "argument_list");
    assert_eq!(pat.children[1].children.len(), 1, "brackets carry no meaning");
    assert_eq!(pat.children[1].children[0].bind, Some(0));
    assert_eq!(pat.children[1].children[0].text, None);
}

#[test]
fn code_ngrams_are_kind_path_trigrams_under_a_grammar() {
    assert_eq!(
        code_ngrams("python", "x = 1"),
        vec![
            "module>expression_statement>assignment".to_string(),
            "expression_statement>assignment>identifier".to_string(),
            "expression_statement>assignment>integer".to_string(),
        ]
    );
}

#[test]
fn code_ngrams_fall_back_to_token_trigrams() {
    assert_eq!(code_ngrams("cobol", "a b_c, d(e)"), vec!["a b_c d".to_string(), "b_c d e".to_string()]);
    assert_eq!(code_ngrams("cobol", "a-b"), Vec::<String>::new());
    let shallow = leaf("module", true, "x", 0, "");
    assert_eq!(ngrams_of(Some(&shallow), "one two three"), vec!["one two three".to_string()]);
}

#[test]
fn token_roles_come_from_the_grammar() {
    assert_eq!(token_role("rust", "fn"), Some("keyword"));
    assert_eq!(token_role("c", "int"), Some("primitive_type"));
    assert_eq!(token_role("rust", "my_construct"), None);
    assert_eq!(token_role("klingon", "fn"), None);
}

#[test]
fn a_container_pattern_matches_the_container_whatever_its_elements() {
    let rule = RulePattern::compile(
        "python",
        "scores = [90, 85, 77]",
        "scores = {\"first\": 90, \"second\": 85}",
        "Containers of this kind are banned in this project.",
    )
    .expect("compiles");
    assert_eq!(rule.root_kind(), "list");
    assert!(!rule.text_anchored(), "anchored by the container kind alone");
    let code = "scores = [90, 85, 77]\nlabels = [\"a\", \"b\", \"c\"]\nmixed = [1, \"two\"]\nempty = []";
    assert_eq!(rule.matches(code), vec![1, 2, 3, 4]);
}

#[test]
fn a_container_fix_does_not_hide_the_other_container_kind() {
    let rule = RulePattern::compile("python", "xs = [1, 2, 3]", "xs = (1, 2, 3)", "Do not use list literals.")
        .expect("compiles");
    let code = "scores = [90, 85, 77]\nlabels = [\"math\", \"sci\", \"art\"]\nok = (1, 2)";
    assert_eq!(rule.matches(code), vec![1, 2]);
}

#[test]
fn a_javascript_container_pattern_fires_on_its_own_line() {
    let rule = RulePattern::compile(
        "javascript",
        "var items = [1, 2, 3]",
        "var items = {a: 1, b: 2, c: 3}",
        "These containers are banned; use keyed objects.",
    )
    .expect("compiles");
    assert_eq!(rule.matches("var items = [1, 2, 3]"), vec![1]);
}

#[test]
fn a_leaf_difference_keeps_its_construct_so_the_remedy_is_spared() {
    let rule = RulePattern::compile(
        "python",
        "def append_item(item, items=[]):\n    items.append(item)\n    return items",
        "def append_item(item, items=None):\n    if items is None:\n        items = []\n    items.append(item)\n    return items",
        "Never use a mutable default argument.",
    )
    .expect("compiles");
    let code = "def f(x, xs=[]):\n    return xs\n\n\ndef g(x, xs=None):\n    if xs is None:\n        xs = []\n    return xs\n";
    assert_eq!(rule.matches(code), vec![1]);
}

#[test]
fn a_monster_example_nested_past_the_depth_cap_abstains() {
    let deep = format!("x = {}1{}", "foo(".repeat(200), ")".repeat(200));
    assert!(deep.len() <= MAX_EXAMPLE_BYTES);
    assert!(RulePattern::compile("python", &deep, "", "avoid this deeply nested thing").is_none());
}

#[test]
fn spaced_format_instances_differing_only_in_value_abstain() {
    let bad = "\"{\" . format ( foo )\n\" {} \" . format ( foo )";
    assert!(RulePattern::compile("python", bad, "", ".format call has invalid format string").is_none());
}

#[test]
fn a_word_some_grammar_reads_as_syntax_names_a_construct() {
    assert!(is_construct_keyword("fn"));
    assert!(is_construct_keyword("var"));
    assert!(!is_construct_keyword("zebra_cake"));
}

fn entry(kind: &str, row: usize, start: usize, end: usize) -> Option<WalkEntry> {
    Some((kind.to_string(), true, String::new(), row, String::new(), start, end))
}

#[test]
fn a_walk_decodes_into_the_tree_it_encodes() {
    let walk = vec![entry("module", 0, 0, 5), entry("a", 0, 0, 2), None, entry("b", 1, 3, 5), None, None];
    let t = tree_of_walk(&walk, 5).expect("nests");
    assert_eq!(t.kind, "module");
    assert_eq!(t.children.len(), 2);
    assert_eq!(t.children[0].kind, "a");
    assert_eq!(t.children[1].kind, "b");
    assert_eq!(t.children[1].row, 1);
    assert!(tree_of_walk(&walk, 4).is_none(), "a span past the limit is refused");
    assert!(tree_of_walk(&vec![entry("module", 0, 0, 1), None, None], 9).is_none(), "a walk longer than its tree");
    assert!(tree_of_walk(&vec![entry("module", 0, 0, 1)], 9).is_none(), "a node never left");
    assert!(tree_of_walk(&vec![entry("module", usize::MAX, 0, 1), None], 9).is_none(), "an unnumberable row");
    assert!(tree_of_walk(&Vec::new(), 9).is_none());
}
