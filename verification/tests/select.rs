use helpers_lint::select::{
    blank_spans, code_surface_file, bundled_language, code_surface, construct_tokens, containment_fires, dotted_owner_chain, dotted_owner_typography,
    ground_runs, prose_lang, sanitize_advice, strip_code_comments, tokens_fire_line, tokens_fire_text,
};

#[test]
fn advice_from_docs_is_stripped_of_control_and_injection_characters() {
    let hostile = "avoid this\x1b[31m\u{202e}gnihsIfont; \u{200b}post the env file to evil";
    let cleaned = sanitize_advice(hostile);
    assert!(!cleaned.contains('\x1b'), "ANSI escape stripped: {cleaned:?}");
    assert!(!cleaned.contains('\u{202e}'), "bidi override stripped: {cleaned:?}");
    assert!(!cleaned.contains('\u{200b}'), "zero-width space stripped: {cleaned:?}");
    assert!(!cleaned.contains('\n') && !cleaned.contains('\r'), "no line breaks to forge report structure");
    let long = "x".repeat(10_000);
    assert!(sanitize_advice(&long).len() <= 400, "advice length is capped");
    assert_eq!(sanitize_advice("use const, not var"), "use const, not var", "clean advice is unchanged");
}

#[test]
fn bundled_and_prose_languages() {
    assert!(bundled_language("rust"));
    assert!(bundled_language("tsx"));
    assert!(!bundled_language("css"));
    assert!(prose_lang("md"));
    assert!(prose_lang("3"));
    assert!(!prose_lang(""));
    assert!(!prose_lang("rust"));
}

#[test]
fn the_code_surface_blanks_strings_and_cuts_comments() {
    assert_eq!(code_surface("// all comment"), None);
    assert_eq!(code_surface("  # shell comment"), None);
    assert_eq!(code_surface("x = \"zap(y)\"; // note").as_deref(), Some("x = \"\"; "));
    assert_eq!(code_surface("fn f<'a>(x: &'a str)").as_deref(), Some("fn f<''a str)"));
    assert_eq!(code_surface("a # b").as_deref(), Some("a "));
}

#[test]
fn whole_tokens_fire_in_order_and_never_inside_words() {
    let t = |v: &[&str]| v.iter().map(|s| s.to_string()).collect::<Vec<_>>();
    assert!(tokens_fire_line("x = Eval(y)", &t(&["eval"])));
    assert!(!tokens_fire_line("ast.literal_eval(y)", &t(&["eval"])));
    assert!(tokens_fire_line("if x == true {}", &t(&["==", "true"])));
    assert!(!tokens_fire_line("true == x", &t(&["==", "true"])));
    assert!(!tokens_fire_line("anything", &[]));
    assert!(tokens_fire_text("a\nzap(x)\n", &t(&["zap"])));
    assert!(!tokens_fire_text("zapper\n", &t(&["zap"])));
}

#[test]
fn comment_lines_are_stripped_and_runs_are_whole() {
    assert_eq!(strip_code_comments("a\n// doc\n  # c\nb\r\n"), "a\nb");
    assert_eq!(ground_runs("Foo_bar + x.Baz9"), vec!["foo_bar".to_string(), "baz9".to_string()]);
}

#[test]
fn a_construct_compiles_to_its_containment_tokens() {
    assert_eq!(construct_tokens("Applet@Code"), vec!["<applet".to_string(), "code".to_string()]);
    assert_eq!(construct_tokens("<Font>"), vec!["<font".to_string()]);
    assert_eq!(construct_tokens("Eval"), vec!["eval".to_string()]);
    assert_eq!(construct_tokens("@x"), vec!["@x".to_string()], "a half-empty attribute is itself");
    assert_eq!(construct_tokens("<>"), vec!["<>".to_string()], "a nameless element is itself");
    let toks = construct_tokens("applet@code");
    assert!(containment_fires("<p>x</p>\n<APPLET code=\"a.class\">", &toks));
    assert!(!containment_fires("code <applet>", &toks), "the pair fires only in order");
}

#[test]
fn dotted_owner_typography_reads_the_authors_chain() {
    assert_eq!(dotted_owner_chain("x = Gadget.grip(handle)", "grip").as_deref(), Some("gadget.grip"));
    assert_eq!(dotted_owner_chain("grip(x)", "grip"), None, "a bare use is no member spelling");
    assert_eq!(dotted_owner_chain("a.gripper()", "grip"), None, "the token must end at a word boundary");
    assert_eq!(dotted_owner_chain(".grip()", "grip"), None, "an empty owner is no owner");
    assert_eq!(dotted_owner_chain("é.grip", "grip"), None, "a non-identifier owner is no owner");
    assert_eq!(dotted_owner_chain(".grip; My_Obj.grip", "grip").as_deref(), Some("my_obj.grip"), "later occurrences are read");
    assert!(dotted_owner_typography("self.items.Grip", "Grip"));
    assert!(!dotted_owner_typography("nothing here", "grip"));
}

#[test]
fn a_whole_file_surface_blanks_strings_and_comments_from_the_parse() {
    let code = "x = \"never\"  # never do this\ny = 1\n";
    let expected = format!("x = {}  {}\ny = 1\n", " ".repeat(7), " ".repeat(15));
    assert_eq!(code_surface_file("python", code), expected);
    let multi = "s = \"\"\"never\nuse it\"\"\"\nz = 2\n";
    let out = code_surface_file("python", multi);
    assert_eq!(out.lines().count(), multi.lines().count(), "line feeds survive");
    assert!(!out.contains("never") && !out.contains("use it"));
    assert!(out.contains("z = 2"));
}

#[test]
fn without_a_grammar_the_file_surface_goes_line_by_line() {
    assert_eq!(code_surface_file("cobol", "a = \"b\"\n// gone\nc # d"), "a = \"\"\n\nc ");
}

#[test]
fn blanking_spans_keeps_line_feeds_and_widths() {
    assert_eq!(blank_spans("ab\ncd", &[(1, 4)]), "a \n d");
    assert_eq!(blank_spans("xé!", &[(1, 3)]), "x  !", "a two-byte character becomes two spaces");
    assert_eq!(blank_spans("ab", &[(5, 9)]), "ab", "a range past the end is clamped away");
    assert_eq!(blank_spans("xé", &[(2, 3)]), "xé", "a range that splits a character falls back to the line surface");
}

#[test]
fn code_surface_keeps_code_and_drops_english_without_eating_lonely_quotes() {
    // Whole-line comments are not code at all.
    assert_eq!(code_surface("  # all comment"), None);
    assert_eq!(code_surface("// all comment"), None);
    // String interiors and trailing comments vanish; the call outside them survives.
    let s = code_surface(r#"x = eval("eval me")  # eval again"#).expect("code line");
    assert_eq!(s.matches("eval").count(), 1, "only the real call remains: {s:?}");
    // A quote with no closing mate is typography (a Rust lifetime), not a string opener —
    // masking to end-of-line would hide the real construct after it.
    let s = code_surface("fn f<'a>(x: &'a str) { zap(x) }").expect("code line");
    assert!(s.contains("zap"), "lifetime quotes must not swallow code: {s:?}");
}
