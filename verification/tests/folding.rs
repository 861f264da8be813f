//! Folds, symbols and tokens of whole documents.

use latte_lens::folding::{normalize_regions, FoldKind, FoldLimits, RawRegion};
use latte_lens::paths::PathStyle;
use latte_lens::snapshot::{
    fold_regions_with_limits, structure_snapshot, structure_snapshot_with_limits,
};
use latte_lens::source::{byte_range_to_lines, line_starts, SourceRange};
use latte_lens::structure::{StructureLimits, SymbolKind};

fn lines(source: &str) -> Vec<String> {
    source.lines().map(ToOwned::to_owned).collect()
}

fn token_text(source_lines: &[String], range: SourceRange) -> &str {
    assert_eq!(range.start.line, range.end.line);
    &source_lines[range.start.line][range.start.byte..range.end.byte]
}

#[test]
fn markdown_headings_and_fences_are_nested() {
    let source = "# Top\nintro\n## Child\n```rs\nfn main() {}\n```\ntail";
    let regions = fold_regions_with_limits(
        PathStyle::Unix,
        b"README.md",
        &lines(source),
        FoldLimits::default(),
    );
    assert!(
        regions
            .iter()
            .any(|region| (region.start_line, region.end_line, region.kind)
                == (0, 6, FoldKind::Heading))
    );
    assert!(
        regions
            .iter()
            .any(|region| (region.start_line, region.end_line, region.kind)
                == (2, 6, FoldKind::Heading))
    );
    assert!(
        regions
            .iter()
            .any(|region| (region.start_line, region.end_line, region.kind)
                == (3, 5, FoldKind::CodeBlock))
    );
}

#[test]
fn nested_rust_and_python_functions_keep_method_classification_direct_only() {
    let rust = lines("impl Thing {\n fn method() {\n  fn nested() {\n  }\n }\n}");
    let regions = fold_regions_with_limits(PathStyle::Unix, b"lib.rs", &rust, FoldLimits::default());
    assert!(
        regions
            .iter()
            .any(|region| region.start_line == 1 && region.kind == FoldKind::Method)
    );
    assert!(
        regions
            .iter()
            .any(|region| region.start_line == 2 && region.kind == FoldKind::Function)
    );

    let python =
        lines("class Thing:\n def method(self):\n  def nested():\n   pass\n  return nested\n");
    let regions =
        fold_regions_with_limits(PathStyle::Unix, b"thing.py", &python, FoldLimits::default());
    assert!(
        regions
            .iter()
            .any(|region| region.start_line == 1 && region.kind == FoldKind::Method)
    );
    assert!(
        regions
            .iter()
            .any(|region| region.start_line == 2 && region.kind == FoldKind::Function)
    );
}

#[test]
fn python_methods_follow_the_nearest_semantic_ancestor() {
    for (label, source, start_line, expected) in [
        (
            "decorated class method",
            "class Thing:\n @decorator\n def method(self):\n  pass",
            2,
            FoldKind::Method,
        ),
        (
            "conditional class method",
            "class Thing:\n if enabled:\n  def method(self):\n   pass",
            2,
            FoldKind::Method,
        ),
        (
            "nested local function",
            "def outer():\n def local():\n  pass\n return local",
            1,
            FoldKind::Function,
        ),
        (
            "nested class method",
            "def outer():\n class Inner:\n  def method(self):\n   pass\n return Inner",
            2,
            FoldKind::Method,
        ),
    ] {
        let regions = fold_regions_with_limits(
            PathStyle::Unix,
            b"fixture.py",
            &lines(source),
            FoldLimits::default(),
        );
        assert!(
            regions
                .iter()
                .any(|region| region.start_line == start_line && region.kind == expected),
            "{label}: {regions:?}"
        );
    }
}

#[test]
fn supported_language_declarations_produce_semantic_regions() {
    for (path, source, expected) in [
        (
            "main.ts",
            "class Thing {\n method() {\n  return 1;\n }\n}",
            FoldKind::Type,
        ),
        (
            "main.js",
            "function run() {\n return true;\n}",
            FoldKind::Function,
        ),
        (
            "main.go",
            "package main\nfunc run() {\n println(1)\n}",
            FoldKind::Function,
        ),
    ] {
        let regions =
            fold_regions_with_limits(PathStyle::Unix, path.as_bytes(), &lines(source), FoldLimits::default());
        assert!(
            regions.iter().any(|region| region.kind == expected),
            "{path}: {regions:?}"
        );
    }
}

#[test]
fn cancellation_and_caps_fail_closed() {
    let source = lines("fn main() {\n let x = 1;\n}");
    let mut limits = FoldLimits {
        cancel_after_work: Some(0),
        ..FoldLimits::default()
    };
    assert!(fold_regions_with_limits(PathStyle::Unix, b"main.rs", &source, limits).is_empty());
    limits = FoldLimits {
        max_nodes: 1,
        ..FoldLimits::default()
    };
    assert!(fold_regions_with_limits(PathStyle::Unix, b"main.rs", &source, limits).is_empty());
    limits = FoldLimits {
        max_regions: 0,
        ..FoldLimits::default()
    };
    assert!(fold_regions_with_limits(PathStyle::Unix, b"main.rs", &source, limits).is_empty());
}

#[test]
fn exclusive_end_at_column_zero_and_error_descendants_are_safe() {
    let starts = line_starts(b"one\ntwo\nthree");
    assert_eq!(
        byte_range_to_lines(0, 4, 13, &starts),
        None,
        "an exclusive end at the next line's column zero must not include it"
    );

    let broken = lines("fn still_folded() {\n let value = ;\n return value;\n}");
    let regions =
        fold_regions_with_limits(PathStyle::Unix, b"broken.rs", &broken, FoldLimits::default());
    assert!(regions.iter().any(|region| {
        region.start_line == 0 && region.end_line == 3 && region.kind == FoldKind::Function
    }));
}

#[test]
fn normalization_keeps_widest_same_start_and_discards_crossing_before_anchors() {
    let source = lines("a\nb\nc\nd\ne");
    let regions = normalize_regions(
        &vec![
            RawRegion {
                start_line: 0,
                end_line: 2,
                kind: FoldKind::Function,
            },
            RawRegion {
                start_line: 0,
                end_line: 4,
                kind: FoldKind::Type,
            },
            RawRegion {
                start_line: 2,
                end_line: 4,
                kind: FoldKind::Function,
            },
            RawRegion {
                start_line: 1,
                end_line: 3,
                kind: FoldKind::Method,
            },
        ],
        &source,
        10,
    );
    assert_eq!(regions.len(), 2);
    assert_eq!((regions[0].start_line, regions[0].end_line), (0, 4));
    assert_eq!((regions[1].start_line, regions[1].end_line), (1, 3));
}

#[test]
fn code_symbols_follow_exact_language_mappings_and_hierarchy() {
    let rust = lines(
        "mod outer {\n trait Service {\n  fn required() {}\n }\n impl Thing {\n  fn method() {}\n }\n type Alias = usize;\n}\n",
    );
    let snapshot = structure_snapshot(PathStyle::Unix, b"lib.rs", &rust);
    assert!(snapshot.symbols_complete);
    let outer = snapshot
        .symbols
        .iter()
        .find(|symbol| symbol.name == "outer")
        .unwrap();
    let service = snapshot
        .symbols
        .iter()
        .find(|symbol| symbol.name == "Service")
        .unwrap();
    let required = snapshot
        .symbols
        .iter()
        .find(|symbol| symbol.name == "required")
        .unwrap();
    let method = snapshot
        .symbols
        .iter()
        .find(|symbol| symbol.name == "method")
        .unwrap();
    assert_eq!(outer.kind, SymbolKind::Module);
    assert_eq!(service.parent, Some(outer.id));
    assert_eq!(required.kind, SymbolKind::Method);
    assert_eq!(required.parent, Some(service.id));
    assert_eq!(method.kind, SymbolKind::Method);
    assert_eq!(method.parent, Some(outer.id));
    assert!(method.range.start < method.selection_range.start);
    assert!(method.selection_range.end <= method.range.end);

    let typescript = lines(
        "namespace Outer {\n interface Service { run(): void; }\n class Impl { method() {} }\n function execute() {}\n type Alias = string;\n}",
    );
    let snapshot = structure_snapshot(PathStyle::Unix, b"main.ts", &typescript);
    assert!(snapshot.symbols_complete);
    let namespace = snapshot
        .symbols
        .iter()
        .find(|symbol| symbol.name == "Outer")
        .unwrap();
    for (name, kind) in [
        ("Service", SymbolKind::Type),
        ("run", SymbolKind::Method),
        ("Impl", SymbolKind::Type),
        ("method", SymbolKind::Method),
        ("execute", SymbolKind::Function),
        ("Alias", SymbolKind::Type),
    ] {
        let symbol = snapshot
            .symbols
            .iter()
            .find(|symbol| symbol.name == name)
            .unwrap_or_else(|| panic!("missing {name}: {:?}", snapshot.symbols));
        assert_eq!(symbol.kind, kind);
        assert!(symbol.parent.is_some());
    }
    assert_eq!(namespace.kind, SymbolKind::Module);

    let python = lines(
        "class Outer:\n @decorator\n def method(self):\n  def local():\n   pass\n class Inner:\n  pass",
    );
    let snapshot = structure_snapshot(PathStyle::Unix, b"main.py", &python);
    let outer = &snapshot.symbols[0];
    let method = &snapshot.symbols[1];
    let local = &snapshot.symbols[2];
    let inner = &snapshot.symbols[3];
    assert_eq!(method.kind, SymbolKind::Method);
    assert_eq!(method.parent, Some(outer.id));
    assert_eq!(local.kind, SymbolKind::Function);
    assert_eq!(local.parent, Some(method.id));
    assert_eq!(inner.parent, Some(outer.id));

    let go =
        lines("package main\ntype Thing struct {}\nfunc (Thing) Run() {}\nfunc Start() {}");
    let snapshot = structure_snapshot(PathStyle::Unix, b"main.go", &go);
    assert!(snapshot.symbols_complete);
    assert_eq!(
        snapshot
            .symbols
            .iter()
            .map(|symbol| (symbol.name.as_str(), symbol.kind, symbol.parent))
            .collect::<Vec<_>>(),
        vec![
            ("Thing", SymbolKind::Type, None),
            ("Run", SymbolKind::Method, None),
            ("Start", SymbolKind::Function, None),
        ]
    );
}

#[test]
fn anonymous_declarations_are_excluded_without_making_symbols_incomplete() {
    let source = lines(
        "const arrow = () => 1;\nconst expression = function() {};\nconst anonymous = class {};",
    );
    let snapshot = structure_snapshot(PathStyle::Unix, b"main.js", &source);
    assert!(snapshot.symbols_complete);
    assert!(snapshot.symbols.is_empty());
    assert!(snapshot.recognizable_tokens.complete);
    assert!(!snapshot.recognizable_tokens.ranges.is_empty());
}

#[test]
fn markdown_symbols_collapse_names_and_preserve_rank_hierarchy() {
    let source =
        lines("# Top *bold* `code`\nintro\n## Child\nbody\n### Deep\ntext\n## Sibling\nend");
    let snapshot = structure_snapshot(PathStyle::Unix, b"README.md", &source);
    assert!(snapshot.symbols_complete);
    assert!(snapshot.recognizable_tokens.complete);
    assert!(snapshot.recognizable_tokens.ranges.is_empty());
    assert_eq!(
        snapshot
            .symbols
            .iter()
            .map(|symbol| (symbol.name.as_str(), symbol.kind, symbol.parent))
            .collect::<Vec<_>>(),
        vec![
            ("Top bold code", SymbolKind::Heading, None),
            ("Child", SymbolKind::Heading, Some(snapshot.symbols[0].id)),
            ("Deep", SymbolKind::Heading, Some(snapshot.symbols[1].id)),
            ("Sibling", SymbolKind::Heading, Some(snapshot.symbols[0].id)),
        ]
    );
    assert_eq!(snapshot.symbols[1].range.start.line, 2);
    assert_eq!(snapshot.symbols[1].range.end.line, 6);
    assert_eq!(snapshot.symbols[0].range.end.line, 7);
    assert_eq!(snapshot.symbols[0].range.end.byte, 3);
    assert_eq!(snapshot.symbols[0].selection_range.start.line, 0);
}

#[test]
fn fold_symbol_and_token_projection_failures_are_isolated() {
    let source = lines("fn main() {\n let value = Thing::new();\n println!(\"{value:?}\");\n}");
    let baseline = structure_snapshot(PathStyle::Unix, b"main.rs", &source);
    assert!(!baseline.folds.is_empty());
    assert!(baseline.symbols_complete);
    assert!(baseline.recognizable_tokens.complete);

    let symbols_failed = structure_snapshot_with_limits(
        PathStyle::Unix,
        b"main.rs",
        &source,
        StructureLimits {
            max_symbol_nodes: 0,
            ..StructureLimits::default()
        },
    );
    assert!(!symbols_failed.symbols_complete);
    assert!(symbols_failed.symbols.is_empty());
    assert_eq!(symbols_failed.folds, baseline.folds);
    assert_eq!(
        symbols_failed.recognizable_tokens,
        baseline.recognizable_tokens
    );

    let tokens_failed = structure_snapshot_with_limits(
        PathStyle::Unix,
        b"main.rs",
        &source,
        StructureLimits {
            max_token_nodes: 0,
            ..StructureLimits::default()
        },
    );
    assert!(!tokens_failed.recognizable_tokens.complete);
    assert!(tokens_failed.recognizable_tokens.ranges.is_empty());
    assert_eq!(tokens_failed.folds, baseline.folds);
    assert_eq!(tokens_failed.symbols, baseline.symbols);
    assert!(tokens_failed.symbols_complete);

    let folds_failed = structure_snapshot_with_limits(
        PathStyle::Unix,
        b"main.rs",
        &source,
        StructureLimits {
            fold: FoldLimits {
                max_nodes: 0,
                ..FoldLimits::default()
            },
            ..StructureLimits::default()
        },
    );
    assert!(folds_failed.folds.is_empty());
    assert_eq!(folds_failed.symbols, baseline.symbols);
    assert_eq!(
        folds_failed.recognizable_tokens,
        baseline.recognizable_tokens
    );
}

#[test]
fn recognizable_token_allowlists_include_typescript_shorthand_forms() {
    let source = lines(
        "const value = 1;\nconst object = { value };\nconst { object: alias, value: renamed = 2, shorthand } = input;",
    );
    let snapshot = structure_snapshot(PathStyle::Unix, b"main.ts", &source);
    assert!(snapshot.recognizable_tokens.complete);
    let token_texts = snapshot
        .recognizable_tokens
        .ranges
        .iter()
        .map(|range| token_text(&source, *range))
        .collect::<Vec<_>>();
    assert!(token_texts.contains(&"value"), "{token_texts:?}");
    assert!(token_texts.contains(&"shorthand"), "{token_texts:?}");
    assert!(token_texts.contains(&"alias"), "{token_texts:?}");

    let shorthand = snapshot
        .recognizable_tokens
        .ranges
        .iter()
        .copied()
        .find(|range| token_text(&source, *range) == "shorthand")
        .unwrap();
    assert_eq!(
        snapshot.recognizable_tokens.containing(shorthand.start),
        Some(shorthand)
    );
    assert_eq!(snapshot.recognizable_tokens.containing(shorthand.end), None);

    let exact_count = snapshot.recognizable_tokens.ranges.len();
    let exact = structure_snapshot_with_limits(
        PathStyle::Unix,
        b"main.ts",
        &source,
        StructureLimits {
            max_tokens: exact_count,
            ..StructureLimits::default()
        },
    );
    assert!(exact.recognizable_tokens.complete);
    let overflow = structure_snapshot_with_limits(
        PathStyle::Unix,
        b"main.ts",
        &source,
        StructureLimits {
            max_tokens: exact_count - 1,
            ..StructureLimits::default()
        },
    );
    assert!(!overflow.recognizable_tokens.complete);
    assert!(overflow.recognizable_tokens.ranges.is_empty());
}

#[test]
fn recognizable_token_allowlists_cover_every_supported_family_and_zero_tokens() {
    for (path, source, expected) in [
        (
            "lib.rs",
            "fn run(input: Thing) { input.field; }",
            &["run", "input", "Thing", "field"][..],
        ),
        (
            "main.ts",
            "function run(input: Thing) { return input.field; }",
            &["run", "input", "Thing", "field"][..],
        ),
        (
            "main.py",
            "def run(value):\n return value.field",
            &["run", "value", "field"][..],
        ),
        (
            "main.go",
            "package sample\ntype Thing struct { Field int }\nfunc (value Thing) Run() { _ = value.Field }",
            &["sample", "Thing", "Field", "value", "Run"][..],
        ),
    ] {
        let source = lines(source);
        let snapshot = structure_snapshot(PathStyle::Unix, path.as_bytes(), &source);
        assert!(snapshot.recognizable_tokens.complete, "{path}");
        let token_texts = snapshot
            .recognizable_tokens
            .ranges
            .iter()
            .map(|range| token_text(&source, *range))
            .collect::<Vec<_>>();
        for expected in expected {
            assert!(token_texts.contains(expected), "{path}: {token_texts:?}");
        }
        assert!(
            snapshot
                .recognizable_tokens
                .ranges
                .windows(2)
                .all(|pair| pair[0].end <= pair[1].start),
            "{path}: {:?}",
            snapshot.recognizable_tokens.ranges
        );
    }

    let comment_only = lines("// no named source token");
    let snapshot = structure_snapshot(PathStyle::Unix, b"empty.rs", &comment_only);
    assert!(snapshot.recognizable_tokens.complete);
    assert!(snapshot.recognizable_tokens.ranges.is_empty());
}

#[test]
fn markdown_symbol_budget_failure_keeps_folds_and_code_symbol_cap_fails_whole() {
    let markdown = lines("# Top\nbody\n## Child\ntext");
    let baseline = structure_snapshot(PathStyle::Unix, b"README.md", &markdown);
    let failed = structure_snapshot_with_limits(
        PathStyle::Unix,
        b"README.md",
        &markdown,
        StructureLimits {
            max_markdown_symbol_events: 0,
            ..StructureLimits::default()
        },
    );
    assert!(!failed.symbols_complete);
    assert!(failed.symbols.is_empty());
    assert_eq!(failed.folds, baseline.folds);
    assert!(failed.recognizable_tokens.complete);

    let code = lines("fn first() {}\nfn second() {}");
    let snapshot = structure_snapshot_with_limits(
        PathStyle::Unix,
        b"lib.rs",
        &code,
        StructureLimits {
            max_symbols: 1,
            ..StructureLimits::default()
        },
    );
    assert!(!snapshot.symbols_complete);
    assert!(snapshot.symbols.is_empty());
    assert!(snapshot.recognizable_tokens.complete);
}
