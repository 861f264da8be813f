//! Previews of files.

use latte_lens::folding::FoldSource;
use latte_lens::git::ContentPathKind;
use latte_lens::highlight::{HighlightKind, Highlighter, MAX_HIGHLIGHT_LINE_BYTES};
use latte_lens::paths::PathStyle;
use latte_lens::preview::{
    InspectedPath, OpenRegular, OpenedFile, Preview, PreviewAnswer, PreviewContent, PreviewError,
    PreviewFile, PreviewProvider, PreviewRegistry, PreviewRequest, PreviewResolution,
    TextPreviewProvider,
};

fn file(content: &[u8]) -> OpenedFile {
    Ok(Some(PreviewFile {
        length: content.len() as u64,
        content: content.to_vec(),
    }))
}

fn inspected(
    request: &PreviewRequest<'_>,
    kind: ContentPathKind,
) -> Result<InspectedPath, String> {
    Ok(InspectedPath {
        kind,
        path: request.absolute_path.to_vec(),
    })
}

fn preview(request: &PreviewRequest<'_>, content: &[u8]) -> Option<Preview> {
    PreviewRegistry::with_builtins()
        .preview(
            request,
            inspected(request, ContentPathKind::Regular),
            &file(content),
        )
        .unwrap()
}

fn highlight_contains(
    preview: &Preview,
    line_index: usize,
    expected: &str,
    kind: HighlightKind,
) -> bool {
    let Some(line) = preview.lines.get(line_index) else {
        return false;
    };
    preview
        .highlights
        .get(line_index)
        .into_iter()
        .flatten()
        .any(|highlight| {
            highlight.kind == kind && line.get(highlight.range.clone()) == Some(expected)
        })
}

#[test]
fn previews_code_and_extensionless_utf8_text() {
    let request = PreviewRequest::new(PathStyle::Unix, b"/w/main.rs", b"src/main.rs");
    let code_preview = preview(&request, b"fn main() {\n    println!(\"latte\");\n}\n")
        .expect("Rust source should be previewable");
    assert_eq!(code_preview.provider_id, "text");
    assert_eq!(code_preview.lines[0], "fn main() {");
    assert!(code_preview.show_line_numbers);
    assert!(
        highlight_contains(&code_preview, 0, "fn", HighlightKind::Keyword),
        "{:?}",
        code_preview.highlights
    );
    assert!(highlight_contains(
        &code_preview,
        0,
        "main",
        HighlightKind::Function
    ));
    assert!(highlight_contains(
        &code_preview,
        1,
        "\"latte\"",
        HighlightKind::String
    ));

    let request = PreviewRequest::new(PathStyle::Unix, b"/w/README", b"README");
    let text_preview = preview(&request, "Latte Lens\n看清每一次修改\n".as_bytes())
        .expect("extensionless UTF-8 should be previewable");
    assert_eq!(text_preview.lines, ["Latte Lens", "看清每一次修改"]);
    assert!(text_preview.highlights.iter().all(Vec::is_empty));
    assert!(!text_preview.truncated);
}

#[test]
fn declines_binary_content_with_a_nul_byte() {
    let request = PreviewRequest::new(PathStyle::Unix, b"/w/image.bin", b"image.bin");
    assert!(preview(&request, b"looks textual\0but is binary").is_none());
}

#[test]
fn unusually_long_source_lines_fall_back_to_plain_text() {
    let lines = vec!["x".repeat(MAX_HIGHLIGHT_LINE_BYTES + 1)];
    assert!(Highlighter::new().syntax_highlights(PathStyle::Unix, b"main.rs", &lines).is_none());
}

#[test]
fn deeply_nested_comments_are_comments_throughout() {
    let opened = "/* ".repeat(5_000);
    let lines = vec![opened.clone(); 5];
    let spans = Highlighter::new()
        .syntax_highlights(PathStyle::Unix, b"main.rs", &lines)
        .expect("comments can be nested");
    assert_eq!(spans.len(), 5);
    for line in &spans[1..] {
        assert_eq!(line.len(), 1);
        assert_eq!(line[0].kind, HighlightKind::Comment);
        assert_eq!(line[0].range, 0..opened.len());
    }
}

#[test]
fn highlights_typescript_and_tsx_sources() {
    let request = PreviewRequest::new(PathStyle::Unix, b"/w/greet.ts", b"src/greet.ts");
    let typescript = preview(
        &request,
        b"export function greet(name: string): string {\n    return `Hello ${name}`;\n}\n",
    )
    .expect("TypeScript should be previewable");
    let request = PreviewRequest::new(PathStyle::Unix, b"/w/app.tsx", b"src/app.tsx");
    let tsx = preview(
        &request,
        b"export function App(): JSX.Element {\n    return <main>Hello</main>;\n}\n",
    )
    .expect("TSX should be previewable");
    assert!(highlight_contains(
        &typescript,
        0,
        "function",
        HighlightKind::Keyword
    ));
    assert!(highlight_contains(
        &typescript,
        0,
        "greet",
        HighlightKind::Function
    ));
    assert!(typescript.highlights.iter().any(|line| !line.is_empty()));
    assert!(tsx.highlights.iter().any(|line| !line.is_empty()));
}

#[test]
fn marks_byte_limited_previews_as_truncated() {
    let request = PreviewRequest::new(PathStyle::Unix, b"/w/notes.txt", b"notes.txt").with_limits(3, 50);
    let found = preview(&request, b"abcdef\nsecond line\n").expect("text should be previewable");
    assert_eq!(found.lines, ["abc"]);
    assert!(found.truncated);
}

#[test]
fn marks_line_limited_previews_as_truncated() {
    let request = PreviewRequest::new(PathStyle::Unix, b"/w/notes.txt", b"notes.txt").with_limits(1_024, 2);
    let found = preview(&request, b"one\ntwo\nthree\n").expect("text should be previewable");
    assert_eq!(found.lines, ["one", "two"]);
    assert!(found.truncated);
}

#[test]
fn trims_a_codepoint_split_by_the_byte_limit() {
    let request = PreviewRequest::new(PathStyle::Unix, b"/w/utf8.txt", b"utf8.txt").with_limits(2, 10);
    let found = preview(&request, "a拿b".as_bytes())
        .expect("a valid UTF-8 prefix should be previewable");
    assert_eq!(found.lines, ["a"]);
    assert!(found.truncated);
}

struct FakePdfProvider;

impl PreviewProvider for FakePdfProvider {
    fn id(&self) -> &'static str {
        "fake-pdf"
    }

    fn preview(&self, request: &PreviewRequest<'_>, _: &OpenedFile) -> PreviewAnswer {
        if request.absolute_path.ends_with(b".pdf") {
            return Ok(Some(PreviewContent::new(vec![
                "rendered PDF page".to_owned()
            ])));
        }
        Ok(None)
    }
}

#[test]
fn last_registered_provider_overrides_the_text_builtin() {
    let mut registry = PreviewRegistry::with_builtins();
    registry.register(Box::new(FakePdfProvider));
    let content = file(b"%PDF-1.7 textual test fixture");
    let request = PreviewRequest::new(PathStyle::Unix, b"/w/spec.pdf", b"docs/spec.pdf");
    let found = registry
        .preview(
            &request,
            inspected(&request, ContentPathKind::Regular),
            &content,
        )
        .unwrap()
        .expect("fake PDF provider should handle the file");
    assert_eq!(found.provider_id, "fake-pdf");
    assert_eq!(found.lines, ["rendered PDF page"]);
    assert!(!found.show_line_numbers);

    let request = PreviewRequest::new(PathStyle::Unix, b"/w/spec.txt", b"docs/spec.txt");
    let found = registry
        .preview(
            &request,
            inspected(&request, ContentPathKind::Regular),
            &content,
        )
        .unwrap()
        .expect("the text provider is asked next");
    assert_eq!(found.provider_id, "text");
}

struct CustomText;

impl PreviewProvider for CustomText {
    fn id(&self) -> &'static str {
        "text"
    }

    fn preview(&self, _: &PreviewRequest<'_>, _: &OpenedFile) -> PreviewAnswer {
        Ok(Some(PreviewContent::new(vec![
            "fn deceptive() {".to_owned(),
            "}".to_owned(),
        ])))
    }
}

#[test]
fn custom_provider_named_text_does_not_gain_builtin_folding_capability() {
    let mut registry = PreviewRegistry::with_builtins();
    registry.register(Box::new(CustomText));
    let request = PreviewRequest::new(PathStyle::Unix, b"/w/fake.rs", b"fake.rs");
    let resolution = registry.resolve(
        &request,
        inspected(&request, ContentPathKind::Regular),
        &file(b"ignored"),
    );
    assert!(matches!(
        resolution.unwrap(),
        PreviewResolution::Preview {
            fold_source: FoldSource::Absent,
            ..
        }
    ));
}

#[test]
fn the_builtin_text_is_folded() {
    let request = PreviewRequest::new(PathStyle::Unix, b"/w/a.rs", b"a.rs");
    let resolution = PreviewRegistry::default().resolve(
        &request,
        inspected(&request, ContentPathKind::Regular),
        &file(b"fn main() {}\n"),
    );
    match resolution.unwrap() {
        PreviewResolution::Preview { fold_source, .. } => assert!(fold_source.allows_folding()),
        _ => panic!("expected a preview"),
    }
}

#[test]
fn unsafe_paths_are_not_looked_into() {
    let request = PreviewRequest::new(PathStyle::Unix, b"/w/a.rs", b"a.rs").within_root(b"/w");
    let content = file(b"fn main() {}\n");
    let registry = PreviewRegistry::with_builtins();
    for kind in [ContentPathKind::SymbolicLink, ContentPathKind::Special] {
        let resolution = registry.resolve(&request, inspected(&request, kind), &content);
        assert!(matches!(
            resolution.unwrap(),
            PreviewResolution::Unsafe { offending_path, .. } if offending_path == b"/w/a.rs"
        ));
    }
    let elsewhere = InspectedPath {
        kind: ContentPathKind::Regular,
        path: b"/x/a.rs".to_vec(),
    };
    assert!(matches!(
        registry.resolve(&request, Ok(elsewhere), &content).unwrap(),
        PreviewResolution::Unsafe { offending_path, .. } if offending_path == b"/x/a.rs"
    ));
    let rewritten = InspectedPath {
        kind: ContentPathKind::Regular,
        path: b"/w//a.rs".to_vec(),
    };
    assert!(matches!(
        registry.resolve(&request, Ok(rewritten), &content).unwrap(),
        PreviewResolution::Preview { .. }
    ));
    let nothing = PreviewRegistry::empty().resolve(
        &request,
        inspected(&request, ContentPathKind::Regular),
        &content,
    );
    assert!(matches!(nothing.unwrap(), PreviewResolution::Unsupported));
}

#[test]
fn opened_files_say_how_long_they_are() {
    let request = PreviewRequest::new(PathStyle::Unix, b"/w/notes.txt", b"notes.txt");
    let opened = request
        .open_regular(OpenRegular::Opened {
            length: 5,
            content: b"latte".to_vec(),
        })
        .unwrap()
        .expect("regular file should pass the content-safety gate");
    assert_eq!(opened.len(), 5);
    assert!(!opened.is_empty());
    let empty = request
        .open_regular(OpenRegular::Opened {
            length: 0,
            content: vec![],
        })
        .unwrap()
        .expect("empty regular file should still be openable");
    assert!(empty.is_empty());
    assert!(request.open_regular(OpenRegular::Declined).unwrap().is_none());
    let failed = OpenRegular::OpenFailed("permission denied".to_owned());
    assert_eq!(
        request.open_regular(failed).unwrap_err().message,
        "cannot safely open preview file notes.txt: permission denied"
    );
    let failed = OpenRegular::ReadFailed("disk gone".to_owned());
    assert_eq!(
        request.open_regular(failed).unwrap_err().message,
        "cannot read preview file notes.txt: disk gone"
    );
}

#[test]
fn text_provider_declines_malformed_utf8() {
    let request = PreviewRequest::new(PathStyle::Unix, b"/w/invalid.txt", b"invalid.txt");
    let content = file(&[0xff, 0xfe, 0xfd]);
    assert!(TextPreviewProvider::new()
        .preview(&request, &content)
        .unwrap()
        .is_none());
}

#[test]
fn reports_a_missing_file_as_an_error() {
    let request = PreviewRequest::new(PathStyle::Unix, b"/w/missing.txt", b"docs/missing.txt");
    let error = PreviewRegistry::with_builtins()
        .preview(&request, Err("not found".to_owned()), &Ok(None))
        .expect_err("a missing file must not look merely unsupported");
    assert!(error
        .message
        .contains("cannot inspect preview file docs/missing.txt"));
}

struct Broken;

impl PreviewProvider for Broken {
    fn id(&self) -> &'static str {
        "broken"
    }

    fn preview(&self, _: &PreviewRequest<'_>, _: &OpenedFile) -> PreviewAnswer {
        Err(PreviewError {
            message: "cannot render".to_owned(),
        })
    }
}

#[test]
fn the_error_of_a_provider_ends_the_search() {
    let request = PreviewRequest::new(PathStyle::Unix, b"/w/a.pdf", b"a.pdf");
    let content = file(b"text");
    let seen = || inspected(&request, ContentPathKind::Regular);
    let mut registry = PreviewRegistry::with_builtins();
    registry.register(Box::new(Broken));
    assert_eq!(
        registry.preview(&request, seen(), &content).unwrap_err().message,
        "cannot render"
    );
    registry.register(Box::new(FakePdfProvider)).register(Box::new(CustomText));
    let found = registry.preview(&request, seen(), &content).unwrap().unwrap();
    assert_eq!(found.provider_id, "text");
    assert_eq!(found.lines[0], "fn deceptive() {");
    assert_eq!(registry.providers.len(), 4);
    let unreadable = Err(PreviewError {
        message: "cannot read".to_owned(),
    });
    assert_eq!(
        PreviewRegistry::with_builtins()
            .preview(&request, seen(), &unreadable)
            .unwrap_err()
            .message,
        "cannot read"
    );
}

struct LastByte;

impl PreviewProvider for LastByte {
    fn id(&self) -> &'static str {
        "last"
    }

    fn preview(&self, _: &PreviewRequest<'_>, file: &OpenedFile) -> PreviewAnswer {
        let Ok(Some(file)) = file else {
            return Ok(None);
        };
        let last = file.content.last().map(|byte| format!("{byte}"));
        Ok(Some(PreviewContent::new(last.into_iter().collect())))
    }
}

#[test]
fn providers_see_the_whole_file_and_texts_are_cut() {
    let request = PreviewRequest::new(PathStyle::Unix, b"/w/a", b"a").with_limits(4, 10);
    let opened = request.open_regular(OpenRegular::Opened {
        length: 10,
        content: b"abcdefghi\0".to_vec(),
    });
    let seen = || inspected(&request, ContentPathKind::Regular);
    let mut registry = PreviewRegistry::with_builtins();
    let found = registry.preview(&request, seen(), &opened).unwrap().unwrap();
    assert_eq!(found.lines, ["abcd"]);
    assert!(found.truncated);
    registry.register(Box::new(LastByte));
    let found = registry.preview(&request, seen(), &opened).unwrap().unwrap();
    assert_eq!(found.lines, ["0"]);
    assert_eq!(found.provider_id, "last");
}
