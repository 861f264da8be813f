//! Languages, positions, settings and targets.

use latte_lens::document::{
    ContentIdentity, DocumentError, DocumentVersion, NavigationDocument, NavigationSource,
};
use latte_lens::git::ContentPathKind;
use latte_lens::language::{language_for_path, LanguageFamily};
use latte_lens::paths::{
    absolute, directories_above, join_path, link_checkpoints, path_below, path_extension,
    path_file_name, path_lies_under, path_names, path_parts, PathFault, PathStyle,
};
use latte_lens::payload::{GlobalPayloadBudget, PayloadBudget, PayloadError};
use latte_lens::positions::{
    LineIndex, Position, PositionError, Range, MAX_NAVIGATION_LINES, MAX_NAVIGATION_TEXT_BYTES,
};
use latte_lens::settings::{
    absolute_env_path, assemble_settings, check_command, check_executable_entry,
    check_executable_target, clean_warning, default_language_server_command, missing_config,
    parse_raw_config, plan_settings, resolve_basename, resolve_program, user_config_path,
    validate_args, validate_string, AppOptions, ConfigError,
    ExecutableIdentity, LanguagePlan, NavigationSettings, ProgramPlan, RawCodeNavigation,
    RawConfig, RawLanguage, RawLanguages, TrustedServer, ValidatedExecutable, MAX_ARGS,
    MAX_ARG_BYTES, MAX_CONFIG_BYTES, MAX_PROGRAM_BYTES,
};
use latte_lens::snapshot::StructureSnapshot;
use latte_lens::source::{SourcePosition, SourceRange};
use latte_lens::targets::{
    dependency_candidates, dependency_manifest, dependency_target_for_path, judge_directory,
    lsp_uri_to_file_path, lsp_uri_to_navigation_target, lsp_uri_to_safe_path, path_to_lsp_uri,
    url_to_file_path, url_to_lsp_uri, DependencyError, DependencyTarget, DirectoryVerdict, Inspection,
    NavigationFileTarget, UriError, UrlParts,
};
use latte_lens::windows::{
    after_forced_count, after_forced_wait, normalize_lsp_target_path, quote_command_line,
    retained_failure, tree_is_gone, wide_nul, ProcessStringError, WaitOutcome,
    WindowsTargetError,
};
use std::sync::Arc;

#[test]
fn line_index_round_trips_utf16_and_rejects_half_surrogate() {
    let index = LineIndex::new("a中😀e\u{301}\r\n\nlast").unwrap();
    for source in [
        SourcePosition { line: 0, byte: 0 },
        SourcePosition { line: 0, byte: 1 },
        SourcePosition { line: 0, byte: 4 },
        SourcePosition { line: 0, byte: 8 },
        SourcePosition { line: 0, byte: 11 },
        SourcePosition { line: 1, byte: 0 },
        SourcePosition { line: 2, byte: 4 },
    ] {
        let protocol = index.to_utf16(source).unwrap();
        assert_eq!(index.source_position_for_utf16(protocol).unwrap(), source);
    }
    let at = |line, character| Position { line, character };
    assert!(index.source_position_for_utf16(at(0, 3)).is_err());
    assert!(index.source_position_for_utf16(at(0, 99)).is_err());
    assert!(index.to_utf16(SourcePosition { line: 0, byte: 2 }).is_err());
    assert_eq!(
        index.source_position_for_utf16(at(0, 3)).unwrap_err(),
        PositionError::InsideSurrogatePair
    );
    assert_eq!(
        index.source_position_for_utf16(at(0, 99)).unwrap_err(),
        PositionError::BeyondLineEnd
    );
    assert_eq!(
        index.source_position_for_utf16(at(9, 0)).unwrap_err(),
        PositionError::OutsideDocument
    );
    assert_eq!(
        index.to_utf16(SourcePosition { line: 0, byte: 2 }).unwrap_err(),
        PositionError::NotABoundary
    );
    assert_eq!(
        index.to_utf16(SourcePosition { line: 0, byte: 8 }).unwrap(),
        at(0, 4)
    );
    assert_eq!(index.line_count(), 3);
}

#[test]
fn language_mapping_keeps_semantic_families_explicit() {
    for (extension, family, language_id) in [
        ("rs", Some(LanguageFamily::Rust), "rust"),
        ("ts", Some(LanguageFamily::TypeScript), "typescript"),
        ("mts", Some(LanguageFamily::TypeScript), "typescript"),
        ("cts", Some(LanguageFamily::TypeScript), "typescript"),
        ("tsx", Some(LanguageFamily::TypeScript), "typescriptreact"),
        ("js", Some(LanguageFamily::TypeScript), "javascript"),
        ("mjs", Some(LanguageFamily::TypeScript), "javascript"),
        ("cjs", Some(LanguageFamily::TypeScript), "javascript"),
        ("jsx", Some(LanguageFamily::TypeScript), "javascriptreact"),
        ("py", Some(LanguageFamily::Python), "python"),
        ("pyi", Some(LanguageFamily::Python), "python"),
        ("go", Some(LanguageFamily::Go), "go"),
        ("md", None, "markdown"),
        ("markdown", None, "markdown"),
    ] {
        let descriptor = language_for_path(PathStyle::Unix, format!("x.{extension}").as_bytes()).unwrap();
        assert_eq!(descriptor.family, family);
        assert_eq!(descriptor.language_id, language_id);
        assert!(descriptor.local_structure);
    }
    for (family, key, name) in [
        (LanguageFamily::Rust, "rust", "Rust"),
        (
            LanguageFamily::TypeScript,
            "typescript",
            "TypeScript/JavaScript",
        ),
        (LanguageFamily::Python, "python", "Python"),
        (LanguageFamily::Go, "go", "Go"),
    ] {
        assert_eq!(family.config_key(), key);
        assert_eq!(family.display_name(), name);
    }
    assert!(language_for_path(PathStyle::Unix, b"x.txt").is_none());
    assert!(language_for_path(PathStyle::Unix, b"README").is_none());
}

fn identity() -> ContentIdentity {
    ContentIdentity {
        bytes: b"main.rs".to_vec(),
    }
}

fn source(words: &str, structure: StructureSnapshot) -> Result<NavigationSource, PositionError> {
    NavigationSource::new(
        identity(),
        PathStyle::Unix,
        b"/w/main.rs".to_vec(),
        b"/w".to_vec(),
        words.len() as u64,
        b"/w".to_vec(),
        language_for_path(PathStyle::Unix, b"/w/main.rs").unwrap(),
        words.to_string(),
        structure,
    )
}

fn many_tokens() -> StructureSnapshot {
    let mut huge = StructureSnapshot::unavailable();
    for _ in 0..200_000 {
        huge.recognizable_tokens.ranges.push(SourceRange {
            start: SourcePosition { line: 0, byte: 0 },
            end: SourcePosition { line: 0, byte: 1 },
        });
    }
    huge
}

#[test]
fn navigation_documents_own_budget_and_reject_text_line_and_token_overflow() {
    let words = "fn main() {}\r\n";
    let mut global = GlobalPayloadBudget::default();
    let mut budget = PayloadBudget::session();
    let document = NavigationDocument::new(
        identity(),
        PathStyle::Unix,
        b"/w/main.rs".to_vec(),
        b"/w".to_vec(),
        words.len() as u64,
        b"/w".to_vec(),
        language_for_path(PathStyle::Unix, b"/w/main.rs").unwrap(),
        DocumentVersion(7),
        words.to_string(),
        StructureSnapshot::unavailable(),
        &mut budget,
        &mut global,
    )
    .unwrap();
    assert_eq!(document.version, DocumentVersion(7));
    assert_eq!(
        document.source.line_index.end_position(),
        SourcePosition { line: 1, byte: 0 }
    );
    assert_eq!(budget.session.used(), document.permit.bytes());
    let shared = Arc::clone(&document.source);
    let cloned = NavigationDocument::from_source(
        Arc::clone(&shared),
        DocumentVersion(8),
        &mut budget,
        &mut global,
    )
    .unwrap();
    assert_eq!(cloned.version, DocumentVersion(8));
    assert!(Arc::ptr_eq(&cloned.source, &shared));

    assert!(LineIndex::new(&"x".repeat(MAX_NAVIGATION_TEXT_BYTES + 1)).is_err());
    assert!(LineIndex::new(&"\n".repeat(MAX_NAVIGATION_LINES + 1)).is_err());
    let at = |line, character| Position { line, character };
    let lines = &cloned.source.line_index;
    let backwards = Range {
        start: at(0, 2),
        end: at(0, 1),
    };
    assert_eq!(
        lines.range_from_utf16(backwards).unwrap_err(),
        PositionError::Reversed
    );
    assert!(lines.to_utf16(SourcePosition { line: 99, byte: 0 }).is_err());

    let used = budget.session.used();
    let huge = Arc::new(source(words, many_tokens()).unwrap());
    assert!(matches!(
        NavigationDocument::from_source(huge, DocumentVersion(9), &mut budget, &mut global),
        Err(DocumentError::TooLarge)
    ));
    assert!(matches!(
        NavigationDocument::new(
            identity(),
            PathStyle::Unix,
            b"/w/main.rs".to_vec(),
            b"/w".to_vec(),
            words.len() as u64,
            b"/w".to_vec(),
            language_for_path(PathStyle::Unix, b"/w/main.rs").unwrap(),
            DocumentVersion(9),
            words.to_string(),
            many_tokens(),
            &mut budget,
            &mut global,
        ),
        Err(DocumentError::TooLarge)
    ));
    assert_eq!(budget.session.used(), used);
    let lines = "\n".repeat(MAX_NAVIGATION_LINES + 1);
    assert!(matches!(
        source(&lines, StructureSnapshot::unavailable()),
        Err(PositionError::TooManyLines)
    ));
}

#[test]
fn documents_do_not_go_over_the_budget() {
    let mut global = GlobalPayloadBudget::default();
    let mut budget = PayloadBudget::session();
    let held = budget.reserve(&mut global, 32 * 1024 * 1024).unwrap();
    let shared = Arc::new(source("fn main() {}", StructureSnapshot::unavailable()).unwrap());
    let refused =
        NavigationDocument::from_source(shared, DocumentVersion(1), &mut budget, &mut global);
    assert!(matches!(
        refused,
        Err(DocumentError::Payload(PayloadError::Exhausted))
    ));
    budget.release(&mut global, held);
    assert_eq!(budget.session.used(), 0);
}

#[test]
fn jsonc_accepts_comments_trailing_commas_and_comment_markers_in_strings() {
    let parsed = parse_raw_config(
        br#"{
                // Product configuration, not an LSP-specific file.
                "code_navigation": {
                    "enabled": true,
                    "languages": {
                        "rust": {
                            "enabled": true,
                            "engine": {
                                "type": "language_server",
                                "command": ["https://example.invalid//server",],
                            },
                        },
                    },
                },
                /* Future product domains live beside code_navigation. */
            }"#,
    )
    .unwrap();
    let parsed: serde_json::Value = serde_json::from_slice(&parsed).unwrap();
    assert_eq!(
        parsed["code_navigation"]["languages"]["rust"]["engine"]["command"][0],
        "https://example.invalid//server"
    );
    assert!(parse_raw_config(br#"{} /* unterminated"#).is_err());
    assert_eq!(
        parse_raw_config(br#"{} /* unterminated"#).unwrap_err(),
        ConfigError::UnterminatedComment
    );
}

#[test]
fn config_bytes_enforce_exact_size_utf8_and_bom_boundaries() {
    let mut exact = br#"{}"#.to_vec();
    exact.resize(MAX_CONFIG_BYTES, b' ');
    assert!(parse_raw_config(&exact).is_ok());
    exact.push(b' ');
    assert_eq!(parse_raw_config(&exact).unwrap_err(), ConfigError::TooLarge);
    assert_eq!(
        parse_raw_config(b"\xef\xbb\xbf{}").unwrap_err(),
        ConfigError::ByteOrderMark
    );
    assert_eq!(parse_raw_config(&[0xff]).unwrap_err(), ConfigError::NotUtf8);
}

#[test]
fn default_config_path_uses_the_cross_platform_latte_home() {
    let (path, explicit) =
        user_config_path(PathStyle::Unix, None, "HOME", Some(b"/home/me".to_vec())).unwrap();
    assert!(!explicit);
    assert_eq!(path, b"/home/me/.latte/latte-lens.jsonc");
    let (path, explicit) =
        user_config_path(PathStyle::Unix, Some(b"/c.jsonc".to_vec()), "HOME", None).unwrap();
    assert!(explicit);
    assert_eq!(path, b"/c.jsonc");
    assert!(user_config_path(PathStyle::Unix, Some(b"c.jsonc".to_vec()), "HOME", None).is_err());
    assert!(user_config_path(PathStyle::Unix, None, "HOME", None).is_err());
    assert!(user_config_path(PathStyle::Unix, None, "HOME", Some(b"home".to_vec())).is_err());
    assert_eq!(absolute_env_path(PathStyle::Unix, "X", Some(b"/a".to_vec())).unwrap(), b"/a");
    assert!(missing_config(b"/c.jsonc", false).is_none());
    assert_eq!(
        missing_config(b"/c.jsonc", true).unwrap(),
        "explicit Latte Lens config does not exist: /c.jsonc"
    );
}

#[test]
fn built_in_navigation_commands_cover_every_supported_language() {
    assert_eq!(
        default_language_server_command(LanguageFamily::Rust),
        ["rust-analyzer"]
    );
    assert_eq!(
        default_language_server_command(LanguageFamily::TypeScript),
        ["typescript-language-server", "--stdio"]
    );
    assert_eq!(
        default_language_server_command(LanguageFamily::Python),
        ["pyright-langserver", "--stdio"]
    );
    assert_eq!(
        default_language_server_command(LanguageFamily::Go),
        ["gopls", "serve"]
    );
}

#[test]
fn args_and_program_bounds_are_fail_closed() {
    assert!(validate_string("program", "", MAX_PROGRAM_BYTES).is_err());
    assert!(validate_string("program", "bad\0name", MAX_PROGRAM_BYTES).is_err());
    assert!(validate_string(
        "program",
        &"x".repeat(MAX_PROGRAM_BYTES + 1),
        MAX_PROGRAM_BYTES
    )
    .is_err());
    assert!(validate_args(&vec!["a".into(); MAX_ARGS + 1]).is_err());
    assert!(validate_args(&vec!["x".repeat(MAX_ARG_BYTES + 1)]).is_err());
    assert!(validate_args(&vec!["x".repeat(MAX_ARG_BYTES); 5]).is_err());
    assert!(validate_args(&vec!["x".repeat(MAX_ARG_BYTES); 4]).is_ok());
    assert!(resolve_program(PathStyle::Unix, "./server").is_err());
    assert!(resolve_program(PathStyle::Unix, "../server").is_err());
    assert!(resolve_program(PathStyle::Unix, "nested\\server").is_err());
    assert!(matches!(
        resolve_program(PathStyle::Unix, "/bin/server"),
        Ok(ProgramPlan::At(path)) if path == b"/bin/server"
    ));
    assert!(matches!(
        resolve_program(PathStyle::Unix, "server"),
        Ok(ProgramPlan::Search(name)) if name == b"server"
    ));
}

#[test]
fn commands_are_split_into_program_and_arguments() {
    let command = vec!["gopls".to_string(), "serve".to_string()];
    let checked = check_command(&command, LanguageFamily::Go).unwrap();
    assert_eq!(checked.program, "gopls");
    assert_eq!(checked.args, vec!["serve".to_string()]);
    assert!(check_command(&vec![], LanguageFamily::Go).is_err());
}

#[test]
fn programs_are_looked_for_in_absolute_directories() {
    let directories = vec![b"/usr/bin".to_vec(), b"bin".to_vec(), b"/bin".to_vec()];
    assert_eq!(
        resolve_basename(PathStyle::Unix, &directories, b"gopls").unwrap(),
        vec![b"/usr/bin/gopls".to_vec(), b"/bin/gopls".to_vec()]
    );
    let directories = vec![br"C:\bin".to_vec(), br"\bin".to_vec(), b"D:/tools/".to_vec()];
    assert_eq!(
        resolve_basename(PathStyle::Windows, &directories, b"gopls").unwrap(),
        vec![
            br"C:\bin\gopls".to_vec(),
            br"C:\bin\gopls.exe".to_vec(),
            b"D:/tools/gopls".to_vec(),
            b"D:/tools/gopls.exe".to_vec()
        ]
    );
    assert_eq!(
        resolve_basename(PathStyle::Windows, &directories, b"a.EXE").unwrap().len(),
        2
    );
    assert!(resolve_basename(PathStyle::Windows, &directories, b"server.CMD").is_err());
}

fn server(program: &[u8]) -> TrustedServer {
    TrustedServer {
        program: program.to_vec(),
        args: vec![],
        identity: ExecutableIdentity::Unix {
            device: 1,
            inode: 2,
            mode: 0o755,
        },
    }
}

#[test]
fn settings_follow_what_the_user_configured() {
    let plan = plan_settings(None).unwrap();
    assert!(matches!(plan.rust, LanguagePlan::BuiltIn(_)));
    let off = RawConfig {
        code_navigation: Some(RawCodeNavigation {
            enabled: Some(false),
            languages: None,
        }),
    };
    assert!(plan_settings(Some(off)).is_none());
    let language = |enabled, engine| Some(RawLanguage { enabled, engine });
    let raw = RawConfig {
        code_navigation: Some(RawCodeNavigation {
            enabled: None,
            languages: Some(RawLanguages {
                rust: language(Some(true), Some(vec!["/bin/ra".to_string()])),
                typescript: language(Some(false), None),
                python: language(None, None),
                go: None,
            }),
        }),
    };
    let plan = plan_settings(Some(raw)).unwrap();
    assert!(matches!(&plan.rust, LanguagePlan::Configured(command) if command[0] == "/bin/ra"));
    assert!(matches!(plan.typescript, LanguagePlan::Skip));
    assert!(matches!(plan.python, LanguagePlan::BuiltIn(_)));
    let none = || Err("missing".to_string());
    let settings =
        assemble_settings(&plan, Ok(server(b"/bin/ra")), none(), none(), none()).unwrap();
    assert!(settings.is_enabled());
    assert_eq!(
        settings.server(LanguageFamily::Rust).unwrap().program(),
        b"/bin/ra"
    );
    assert!(settings.server(LanguageFamily::Python).is_none());
    assert!(assemble_settings(&plan, none(), none(), none(), none()).is_err());
    assert!(!NavigationSettings::disabled().is_enabled());
    assert!(AppOptions::default().navigation_config_warning.is_none());
}

#[test]
fn unusable_settings_leave_a_warning() {
    let loaded = NavigationSettings::load_user_config(Err("bad\u{7}".to_string()));
    assert!(!loaded.settings.is_enabled());
    assert!(loaded.warning.unwrap().contains("bad"));
    let mut settings = NavigationSettings::disabled();
    settings.go = Some(server(b"/bin/gopls"));
    let loaded = NavigationSettings::load_user_config(Ok(settings));
    assert!(loaded.settings.is_enabled());
    assert!(loaded.warning.is_none());
}

#[test]
fn executables_lie_outside_of_the_workspace() {
    assert!(check_executable_entry(PathStyle::Unix, b"/bin/ra", b"/w").is_ok());
    assert!(check_executable_entry(PathStyle::Unix, b"bin/ra", b"/w").is_err());
    assert!(check_executable_entry(PathStyle::Unix, b"/w/ra", b"/w").is_err());
    assert!(check_executable_target(PathStyle::Unix, b"/bin/ra", b"/w", true, Some(0o755)).is_ok());
    assert!(check_executable_target(PathStyle::Unix, b"/bin/ra", b"/w", true, Some(0o644)).is_err());
    assert!(check_executable_target(PathStyle::Unix, b"/bin/ra", b"/w", false, Some(0o755)).is_err());
    assert!(check_executable_target(PathStyle::Unix, b"/w/ra", b"/w", true, Some(0o755)).is_err());
    let found = |inode| ValidatedExecutable {
        path: b"/bin/ra".to_vec(),
        identity: ExecutableIdentity::Unix {
            device: 1,
            inode,
            mode: 0o755,
        },
    };
    assert!(server(b"/bin/ra").revalidate_before_spawn(PathStyle::Unix, &found(2)).is_ok());
    assert!(server(b"/bin//ra").revalidate_before_spawn(PathStyle::Unix, &found(2)).is_ok());
    assert!(server(b"/bin/rb").revalidate_before_spawn(PathStyle::Unix, &found(2)).is_err());
    assert_eq!(
        server(b"/bin/ra").revalidate_before_spawn(PathStyle::Unix, &found(3)).unwrap_err(),
        "Configured language server changed since validation."
    );
}

#[test]
fn file_uri_round_trip_preserves_spaces_and_unicode() {
    let path = "/w/空 格.rs";
    let uri = path_to_lsp_uri(PathStyle::Unix, path.as_bytes()).unwrap();
    assert_eq!(uri, "file:///w/%E7%A9%BA%20%E6%A0%BC.rs");
    assert_eq!(lsp_uri_to_file_path(PathStyle::Unix, &uri).unwrap(), path.as_bytes());
    let query = format!("{uri}?x=1");
    assert_eq!(lsp_uri_to_file_path(PathStyle::Unix, &query).unwrap_err(), UriError::Qualified);
    assert_eq!(
        lsp_uri_to_file_path(PathStyle::Unix, "untitled:a").unwrap_err(),
        UriError::Qualified
    );
    assert_eq!(path_to_lsp_uri(PathStyle::Unix, b"main.rs").unwrap_err(), UriError::NoFileUrl);
    assert_eq!(url_to_lsp_uri(None).unwrap_err(), UriError::NoFileUrl);
    let inspection = |kind| Inspection {
        kind,
        same_path: true,
    };
    assert_eq!(
        lsp_uri_to_safe_path(path.as_bytes().to_vec(), inspection(ContentPathKind::Regular))
            .unwrap(),
        path.as_bytes()
    );
    assert!(
        lsp_uri_to_safe_path(path.as_bytes().to_vec(), inspection(ContentPathKind::SymbolicLink))
            .is_err()
    );
}

#[test]
fn dependencies_are_found_by_their_manifests() {
    let inspection = |kind, same_path| Inspection { kind, same_path };
    let directories = dependency_candidates(PathStyle::Unix, b"/deps/serde/src/lib.rs");
    assert_eq!(
        directories,
        vec![
            b"/deps/serde/src".to_vec(),
            b"/deps/serde".to_vec(),
            b"/deps".to_vec(),
            b"/".to_vec(),
        ]
    );
    let names: Vec<&str> = (0..5).map(dependency_manifest).collect();
    assert_eq!(
        names,
        ["go.mod", "Cargo.toml", "package.json", "pyproject.toml", "setup.py"]
    );
    let directory = || inspection(ContentPathKind::Directory, true);
    let manifest = || Some(inspection(ContentPathKind::Regular, true));
    let found = vec![manifest(), None, None, None, None];
    assert!(matches!(
        judge_directory(directory(), &found),
        DirectoryVerdict::Package(0)
    ));
    let nothing = vec![None, None, None, None, None];
    assert!(matches!(
        judge_directory(directory(), &nothing),
        DirectoryVerdict::Climb
    ));
    let link = vec![
        Some(inspection(ContentPathKind::SymbolicLink, true)),
        None,
        None,
        None,
        None,
    ];
    assert!(matches!(
        judge_directory(directory(), &link),
        DirectoryVerdict::UnsafeManifest
    ));
    let file = || inspection(ContentPathKind::Regular, true);
    let target = dependency_target_for_path(
        PathStyle::Unix,
        b"/deps/serde".to_vec(),
        b"/deps/serde/src/lib.rs",
        file(),
        file(),
    )
    .unwrap();
    assert_eq!(target.root, b"/deps/serde");
    assert_eq!(target.relative, b"src/lib.rs");
    assert_eq!(
        dependency_target_for_path(PathStyle::Unix, b"/deps/serde".to_vec(), b"/deps/x.rs", file(), file())
            .unwrap_err(),
        DependencyError::Escaped
    );
    let dependency = || DependencyTarget {
        root: b"/d".to_vec(),
        relative: b"a.rs".to_vec(),
    };
    assert!(matches!(
        lsp_uri_to_navigation_target(Some(b"/w/a.rs".to_vec()), Ok(dependency())),
        Ok(NavigationFileTarget::Workspace(path)) if path == b"/w/a.rs"
    ));
    assert!(matches!(
        lsp_uri_to_navigation_target(None, Ok(dependency())),
        Ok(NavigationFileTarget::Dependency(target)) if target.root == b"/d"
    ));
    assert_eq!(
        lsp_uri_to_navigation_target(None, Err("no".to_string())).unwrap_err(),
        "no"
    );
}

#[test]
fn windows_lsp_targets_match_verbatim_workspace_prefixes() {
    let disk_root = br"\\?\C:\Work\Repo";
    let disk_target = br"c:\work\repo\src\main.rs";
    assert_eq!(
        normalize_lsp_target_path(disk_root, disk_target).unwrap(),
        br"\\?\C:\Work\Repo\src\main.rs"
    );

    let unc_root = br"\\?\UNC\Server\Share\Repo";
    let unc_target = br"\\server\share\repo\src\main.rs";
    assert_eq!(
        normalize_lsp_target_path(unc_root, unc_target).unwrap(),
        br"\\?\UNC\Server\Share\Repo\src\main.rs"
    );

    assert!(normalize_lsp_target_path(disk_root, br"C:\Work\Other\main.rs").is_err());
    let fault = |path: &[u8]| normalize_lsp_target_path(disk_root, path).unwrap_err();
    assert_eq!(fault(br"C:\Work\Other\main.rs"), WindowsTargetError::Outside);
    assert_eq!(fault(br"work\main.rs"), WindowsTargetError::NotAbsolute);
    assert_eq!(fault(br"C:\Work\Repo\..\x.rs"), WindowsTargetError::NotNormal);
    assert_eq!(fault(br"\\.\pipe\x"), WindowsTargetError::UnsupportedPrefix);
}

fn wide(words: &str) -> Vec<u16> {
    words.encode_utf16().collect()
}

#[test]
fn arguments_are_quoted_for_windows() {
    let quoted = quote_command_line(
        &wide(r#"C:\Program Files\server.exe"#),
        &vec![wide(r#"a"b"#), wide(r#"a\"b"#), wide(r#"tail\"#), wide("")],
    )
    .unwrap();
    let decoded = String::from_utf16(&quoted[..quoted.len() - 1]).unwrap();
    assert_eq!(
        decoded,
        r#""C:\Program Files\server.exe" "a\"b" "a\\\"b" "tail\\" """#
    );
    assert_eq!(
        quote_command_line(&wide("a"), &vec![wide("\0")]).unwrap_err(),
        ProcessStringError::ArgumentHoldsZero
    );
    assert_eq!(
        quote_command_line(&wide("a"), &vec![wide(&"x".repeat(40_000))]).unwrap_err(),
        ProcessStringError::CommandTooLong
    );
    assert_eq!(wide_nul(&wide("ab")).unwrap(), vec![97, 98, 0]);
    assert_eq!(
        wide_nul(&wide("a\0b")).unwrap_err(),
        ProcessStringError::StringHoldsZero
    );
    assert_eq!(
        wide_nul(&wide(&"x".repeat(40_000))).unwrap_err(),
        ProcessStringError::StringTooLong
    );
}

#[test]
fn post_create_cleanup_preserves_original_and_secondary_errors() {
    let message = retained_failure(
        "cannot resume language server thread",
        "cannot terminate language server Job Object",
    );
    let original = message.find("cannot resume language server thread").unwrap();
    let secondary = message
        .find("secondary cleanup failure: cannot terminate")
        .unwrap();
    assert!(original < secondary);
}

#[test]
fn forced_processes_have_to_be_gone() {
    assert!(tree_is_gone(true, 0));
    assert!(!tree_is_gone(true, 1));
    assert!(!tree_is_gone(false, 0));
    assert!(after_forced_wait(WaitOutcome::Signaled, 0, "").is_ok());
    assert!(after_forced_wait(WaitOutcome::TimedOut, 0, "")
        .unwrap_err()
        .contains("did not terminate after Job cleanup"));
    assert!(after_forced_wait(WaitOutcome::Failed, 5, "denied").is_err());
    assert!(after_forced_wait(WaitOutcome::Other(7), 7, "").is_err());
    assert!(after_forced_count(Ok(0)).is_ok());
    assert!(after_forced_count(Ok(1)).is_err());
    assert_eq!(after_forced_count(Err("x".to_string())).unwrap_err(), "x");
}

#[test]
fn warning_cleanup_is_bounded_and_control_free() {
    let warning = clean_warning(&format!("\u{1b}[31m{}", "x".repeat(300)));
    assert!(warning.len() <= 240);
    assert!(!warning.contains('\u{1b}'));
}

#[test]
fn source_range_is_end_exclusive() {
    let range = SourceRange {
        start: SourcePosition { line: 1, byte: 2 },
        end: SourcePosition { line: 1, byte: 5 },
    };
    assert!(range.contains(SourcePosition { line: 1, byte: 2 }));
    assert!(!range.contains(SourcePosition { line: 1, byte: 5 }));
    assert!(!range.is_empty());
}

#[test]
fn paths_that_are_no_text_have_uris() {
    assert_eq!(
        path_to_lsp_uri(PathStyle::Unix, b"/w/a\xff b%.rs").unwrap(),
        "file:///w/a%FF%20b%25.rs"
    );
    assert_eq!(path_to_lsp_uri(PathStyle::Unix, b"/\xfe/../\xe9").unwrap(), "file:///%FE/../%E9");
    assert_eq!(
        path_to_lsp_uri(PathStyle::Unix, b"a\xff").unwrap_err(),
        UriError::NoFileUrl
    );
    assert_eq!(
        path_to_lsp_uri(PathStyle::Windows, b"C:\\a\xff").unwrap_err(),
        UriError::NoFileUrl
    );
    let uri = path_to_lsp_uri(PathStyle::Unix, b"/w/a\xff.rs").unwrap();
    assert_eq!(lsp_uri_to_file_path(PathStyle::Unix, &uri).unwrap(), b"/w/a\xff.rs");
    let mut text = b"/w/".to_vec();
    text.extend((1u8..0x7f).filter(|byte| !b"/[]^|".contains(byte)));
    let uri = path_to_lsp_uri(PathStyle::Unix, &text).unwrap();
    text.push(0xff);
    assert_eq!(path_to_lsp_uri(PathStyle::Unix, &text).unwrap(), format!("{uri}%FF"));
}

#[test]
fn absolute_paths_follow_the_style() {
    assert!(absolute(PathStyle::Unix, b"/a"));
    assert!(!absolute(PathStyle::Unix, br"C:\a"));
    for path in [
        &br"C:\a"[..],
        b"c:/a",
        br"\\server\share",
        br"\\server\share\a",
        br"\\?\C:\a",
        br"\\?\UNC\server\share",
        br"\\.\COM1",
        b"//./COM1",
    ] {
        assert!(absolute(PathStyle::Windows, path));
    }
    for path in [&b"/a"[..], br"\a", b"a", b"C:", b"C:a", b"", br"\\server", br"\\"] {
        assert!(!absolute(PathStyle::Windows, path));
    }
}

#[test]
fn names_follow_the_style() {
    let names = path_names(PathStyle::Windows, br"C:\a/b\.\..\c");
    assert_eq!(names, [&b"a"[..], b"b", b"..", b"c"]);
    assert_eq!(path_names(PathStyle::Unix, br"/a\b/./c"), [&br"a\b"[..], b"c"]);
    assert_eq!(
        path_names(PathStyle::Windows, br"\\?\C:\verbatim\a/b\.\c"),
        [&b"verbatim"[..], b"a/b", b".", b"c"]
    );
    assert_eq!(
        path_file_name(PathStyle::Windows, br"my.dir\Makefile"),
        Some(&b"Makefile"[..])
    );
    assert_eq!(path_extension(PathStyle::Windows, br"my.dir\Makefile"), None);
    assert_eq!(path_extension(PathStyle::Windows, br"C:\a.b\c.rs"), Some(&b"rs"[..]));
    assert_eq!(path_file_name(PathStyle::Windows, b"C:"), None);
    assert_eq!(path_file_name(PathStyle::Windows, b"C:x"), Some(&b"x"[..]));
    assert_eq!(path_file_name(PathStyle::Unix, b"/a/.."), None);
    assert_eq!(path_parts(PathStyle::Windows, br"C:\a").len(), 3);
    assert_eq!(path_parts(PathStyle::Windows, br".\a").len(), 2);
    assert!(language_for_path(PathStyle::Windows, br"src\main.rs").is_some());
    assert!(language_for_path(PathStyle::Windows, br"x.rs\main").is_none());
}

#[test]
fn windows_paths_lie_under_others_by_their_parts() {
    let under = |path: &[u8], base: &[u8]| path_lies_under(PathStyle::Windows, path, base);
    assert!(under(br"c:\w\a", b"C:/w"));
    assert!(!under(br"C:\work", br"C:\w"));
    assert!(!under(br"D:\w\a", br"C:\w"));
    assert!(!under(br"\\?\C:\w\a", br"C:\w"));
    assert!(!under(b"C:w", br"C:\w"));
    assert_eq!(
        path_below(PathStyle::Windows, br"C:\deps\serde\src/lib.rs", br"C:\deps\serde").unwrap(),
        br"src\lib.rs"
    );
    assert_eq!(path_below(PathStyle::Windows, br"C:\x", br"C:\deps"), None);
    assert_eq!(
        directories_above(PathStyle::Windows, br"C:\a\b\c", 2),
        vec![br"C:\a\b".to_vec(), br"C:\a".to_vec()]
    );
}

#[test]
fn windows_paths_are_put_behind_directories() {
    let join = |directory: &[u8], path: &[u8]| join_path(PathStyle::Windows, directory, path);
    assert_eq!(join(br"C:\a", b"b"), br"C:\a\b");
    assert_eq!(join(b"C:/a/", b"b"), b"C:/a/b");
    assert_eq!(join(b"C:", b"b"), b"C:b");
    assert_eq!(join(br"C:\a", br"\b"), br"C:\b");
    assert_eq!(join(br"C:\a", br"D:\b"), br"D:\b");
    assert_eq!(join(br"C:\a", b"D:b"), b"D:b");
    assert_eq!(join(b"", b"b"), b"b");
    assert_eq!(join(br"\\?\C:\a\b", br"..\.\c/d"), br"\\?\C:\a\c\d");
    assert_eq!(join(br"\\?\C:\a", br"\x"), br"\\?\C:\x");
    assert_eq!(join_path(PathStyle::Unix, b"/a", b"/b"), b"/b");
    assert_eq!(join_path(PathStyle::Unix, b"/a", b"b"), b"/a/b");
}

#[test]
fn links_are_looked_for_on_the_way() {
    assert_eq!(
        link_checkpoints(PathStyle::Windows, br"\\?\C:\a\b").unwrap(),
        vec![br"\\?\C:\a".to_vec(), br"\\?\C:\a\b".to_vec()]
    );
    assert_eq!(
        link_checkpoints(PathStyle::Windows, br"\\?\C:\a\.\b").unwrap_err(),
        PathFault::Relative
    );
    assert_eq!(
        link_checkpoints(PathStyle::Windows, br"\a").unwrap_err(),
        PathFault::NotAbsolute
    );
    assert_eq!(
        link_checkpoints(PathStyle::Unix, b"/a/b").unwrap(),
        vec![b"/a".to_vec(), b"/a/b".to_vec()]
    );
    assert_eq!(link_checkpoints(PathStyle::Unix, b"/a/..").unwrap_err(), PathFault::Relative);
}

#[test]
fn windows_settings_are_resolved() {
    assert_eq!(
        user_config_path(
            PathStyle::Windows,
            None,
            "USERPROFILE",
            Some(br"C:\Users\me".to_vec())
        )
        .unwrap(),
        (br"C:\Users\me\.latte/latte-lens.jsonc".to_vec(), false)
    );
    assert!(user_config_path(PathStyle::Windows, Some(b"/c.jsonc".to_vec()), "X", None).is_err());
    assert!(matches!(
        resolve_program(PathStyle::Windows, r"C:\bin\gopls.exe"),
        Ok(ProgramPlan::At(path)) if path == br"C:\bin\gopls.exe"
    ));
    assert!(resolve_program(PathStyle::Windows, "C:gopls").is_err());
    assert!(matches!(
        resolve_program(PathStyle::Windows, "gopls"),
        Ok(ProgramPlan::Search(name)) if name == b"gopls"
    ));
    let windows = PathStyle::Windows;
    assert!(check_executable_entry(windows, br"C:\bin\a.exe", br"C:\w").is_ok());
    assert!(check_executable_entry(windows, br"c:/w/a.exe", br"C:\w").is_err());
    assert!(check_executable_target(windows, br"C:\bin\a.EXE", br"C:\w", true, None).is_ok());
    assert_eq!(
        check_executable_target(windows, br"C:\bin\a.cmd", br"C:\w", true, None).unwrap_err(),
        "Windows language server must be a native .exe"
    );
}

#[test]
fn windows_targets_are_absolute_files() {
    let url = |path: &[u8]| {
        Some(UrlParts {
            scheme: "file".to_string(),
            has_query: false,
            has_fragment: false,
            path: Some(path.to_vec()),
        })
    };
    assert_eq!(url_to_file_path(PathStyle::Windows, url(br"C:\a")).unwrap(), br"C:\a");
    assert_eq!(
        url_to_file_path(PathStyle::Windows, url(br"\a")).unwrap_err(),
        UriError::NotAbsolute
    );
    assert_eq!(
        url_to_file_path(PathStyle::Unix, url(br"C:\a")).unwrap_err(),
        UriError::NotAbsolute
    );
}
