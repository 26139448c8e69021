# helpers_lint

Structural readers for documentation pages and code, verified with Verus.

- `src/text.rs` — character-level helpers (finding, trimming, splitting, UTF-8 widths) and
  the std character classes the readers rely on.
- `src/lexer.rs` — the code-aware lexer (strings, numbers and comments collapse to class
  tokens).
- `src/hv.rs` — 10240-bit hypervectors: token binding, Hamming distance, majority bundles.
- `src/moe.rs` — the mixture-of-experts judge: training from documented examples, judging
  windows, code and located hits, and the stored form of a model.
- `src/lang_layer.rs` — reading a language's documentation pages: construct shapes from URLs,
  worked-example code, deprecation markers and their notes.
- `src/markup.rs` — reading a raw page into code units and the prose that governs them, and
  calibrating the reader from a corpus.
- `src/module.rs` — the construct-module helpers: mentions, receivers, harvests, rule ids.
- `src/doc_page.rs` — reading one language-doc page into propose material.
- `src/graded.rs` — the graded low-severity firing forms of revoked constructs.
- `src/select.rs` — the code surface of a line and of a whole file, whole-token firing,
  detector tokens, advice bounds.
- `src/pattern.rs` — parse trees from the bundled tree-sitter grammars; compiling a rule's
  bad/good examples into a generalized sub-tree pattern and matching it against code;
  structural fingerprints and grammar token roles.
- `app/lib.rs` — where models and the markup brain live on disk, their JSON forms, and the
  floating-point split of the calibration.

Contracts state each function's result over spec functions; the `law_*` proof functions
state what holds across calls.

## What this library does not hold

Some of the linter's parts are not here, because they rest on components that are not part
of this code base (the tracing planner, the English and meaning readers, the character
dictionary, attestation and corroboration, the codec and byte-pair tokenizer, the web and
graph layers, the self-test, the construct and docs crawlers, the trainer and probes, the
model bridge, the HTML layer and the linter driver):

- `RuleSet` and its methods, `Grounding`, `Finding`: building, running and over-fire gating a
  rule set goes through the tracing planner and the probe and reader modules.
- `governing_sentences`, `word_carries_anchor`, `gerund_of_known_verb`: these read prose
  through the English reader and the section model. `read_doc_page` (`src/doc_page.rs`)
  takes the governing sentences, and the constructs the bridge names in each, as arguments.
- `graduate`, `graduated_rules`, `GraduatedModule`, `Outcome`, `proposed`, `propose`,
  `pass37_attestations`, `reference_subjects`, `self_referee`, `prove_blind`: these run the
  planner, the attestation, graph, self-test and corroboration modules, and the web layer.
  `graded_forms` (`src/graded.rs`) takes the planner's firing answers as an argument, and the
  ungraduated proposals as a list of candidates.
- `ensure_built` and loading a grammar from a shared library at run time: these build and
  open files on disk and start child processes. The grammars the library parses with are the
  bundled ones.
- The learned (byte-pair) tokenizer variant of the judge: its vocabulary comes from the
  byte-pair module. The judge here reads code through the code-aware lexer.
- The meaning-dictionary and gerund widening of a note's counter-attestation: both come from
  the dictionary readers. A note's anchors here are the words it names directly.

What the parser returns for a grammar and a piece of code is named, not stated: the
contracts of `parse`, `RulePattern::compile`, `RulePattern::matches`, `code_ngrams`,
`token_role`, `is_construct_keyword` and `code_surface_file` are exact over that name
(`parse_walk`, with `grammar_kind_id` and `grammar_kind_count` for a grammar's symbol table).
