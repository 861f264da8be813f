//! Read-only previews of files.
//!
//! Providers are asked from the last registered to the first, so a provider for
//! a special format gets its chance before the built-in text provider.

use crate::folding::FoldSource;
use crate::git::{holds_zero, ContentPathKind};
use crate::highlight::{
    chosen_syntax, highlighted, line_records, lines_are_short, no_scopes, HighlightSpan,
    Highlighter, SpanRecord,
};
use crate::paths::{paths_equal, same_path, PathStyle};
use crate::text::{
    chars_of, copy_text, lines_of, lossy, lossy_text, string_views, text_between, text_lines,
    utf8_text,
};
use syntect::parsing::ScopeStack;
use vstd::prelude::*;
use vstd::slice::slice_subrange;

verus! {

pub const DEFAULT_MAX_BYTES: usize = 256 * 1024;

pub const DEFAULT_MAX_LINES: usize = 10_000;

/// What a provider is asked to show.
#[derive(Clone, Copy, Debug)]
pub struct PreviewRequest<'a> {
    /// How the paths are written.
    pub style: PathStyle,
    /// The path that is read.
    pub absolute_path: &'a [u8],
    /// The path that the user sees.
    pub display_path: &'a [u8],
    /// The directory that the path may not leave.
    pub content_root: Option<&'a [u8]>,
    pub max_bytes: usize,
    pub max_lines: usize,
}

/// What came of opening the path of a request.
#[derive(Debug)]
pub enum OpenRegular {
    /// A regular file of this length, and its bytes.
    Opened { length: u64, content: Vec<u8> },
    /// Something else stood there.
    Declined,
    /// The path could not be opened, and why.
    OpenFailed(String),
    /// The file could not be read, and why.
    ReadFailed(String),
}

/// Why there is no preview.
#[derive(Debug, PartialEq, Eq)]
pub struct PreviewError {
    pub message: String,
}

/// What is said of a path with which something failed.
pub open spec fn failure_words(
    what: Seq<char>,
    display_path: Seq<u8>,
    cause: Seq<char>,
) -> Seq<char> {
    what + lossy(display_path) + ": "@ + cause
}

fn failed(what: &str, display_path: &[u8], cause: &str) -> (error: PreviewError)
    ensures
        error.message@ == failure_words(what@, display_path@, cause@),
{
    let mut message = copy_text(what);
    let shown = lossy_text(display_path);
    message.push_str(shown.as_str());
    message.push_str(": ");
    message.push_str(cause);
    assert(message@ =~= failure_words(what@, display_path@, cause@));
    PreviewError { message }
}

impl<'a> PreviewRequest<'a> {
    pub fn new(style: PathStyle, absolute_path: &'a [u8], display_path: &'a [u8]) -> (request: Self)
        ensures
            request.style == style,
            request.absolute_path@ == absolute_path@,
            request.display_path@ == display_path@,
            request.content_root is None,
            request.max_bytes == DEFAULT_MAX_BYTES,
            request.max_lines == DEFAULT_MAX_LINES,
    {
        PreviewRequest {
            style,
            absolute_path,
            display_path,
            content_root: None,
            max_bytes: DEFAULT_MAX_BYTES,
            max_lines: DEFAULT_MAX_LINES,
        }
    }

    pub fn within_root(self, content_root: &'a [u8]) -> (request: Self)
        ensures
            request == (PreviewRequest { content_root: Some(content_root), ..self }),
    {
        PreviewRequest {
            style: self.style,
            absolute_path: self.absolute_path,
            display_path: self.display_path,
            content_root: Some(content_root),
            max_bytes: self.max_bytes,
            max_lines: self.max_lines,
        }
    }

    pub fn with_limits(self, max_bytes: usize, max_lines: usize) -> (request: Self)
        ensures
            request == (PreviewRequest { max_bytes, max_lines, ..self }),
    {
        PreviewRequest {
            style: self.style,
            absolute_path: self.absolute_path,
            display_path: self.display_path,
            content_root: self.content_root,
            max_bytes,
            max_lines,
        }
    }

    /// How many bytes of a text are looked at: one more than are shown, so that
    /// a cut can be told from an end.
    pub open spec fn read_limit(&self) -> int {
        if self.max_bytes < usize::MAX {
            self.max_bytes + 1
        } else {
            self.max_bytes as int
        }
    }

    /// The file that was opened for the request, if it was a regular one.
    pub fn open_regular(&self, outcome: OpenRegular) -> (result: Result<
        Option<PreviewFile>,
        PreviewError,
    >)
        ensures
            match outcome {
                OpenRegular::Declined => result matches Ok(None),
                OpenRegular::Opened { length, content } => {
                    &&& result matches Ok(Some(found))
                    &&& found.length == length
                    &&& found.content@ == content@
                },
                OpenRegular::OpenFailed(cause) => {
                    &&& result matches Err(error)
                    &&& error.message@ == failure_words(
                        "cannot safely open preview file "@,
                        self.display_path@,
                        cause@,
                    )
                },
                OpenRegular::ReadFailed(cause) => {
                    &&& result matches Err(error)
                    &&& error.message@ == failure_words(
                        "cannot read preview file "@,
                        self.display_path@,
                        cause@,
                    )
                },
            },
    {
        match outcome {
            OpenRegular::Declined => Ok(None),
            OpenRegular::Opened { length, content } => Ok(Some(PreviewFile { length, content })),
            OpenRegular::OpenFailed(cause) => Err(
                failed("cannot safely open preview file ", self.display_path, cause.as_str()),
            ),
            OpenRegular::ReadFailed(cause) => Err(
                failed("cannot read preview file ", self.display_path, cause.as_str()),
            ),
        }
    }
}

/// A file that was opened for a preview: its length, and its bytes.
#[derive(Debug)]
pub struct PreviewFile {
    pub length: u64,
    pub content: Vec<u8>,
}

impl PreviewFile {
    pub fn len(&self) -> (length: u64)
        ensures
            length == self.length,
    {
        self.length
    }

    pub fn is_empty(&self) -> (empty: bool)
        ensures
            empty == (self.length == 0),
    {
        self.length == 0
    }
}

/// What a provider shows.
#[derive(Debug, PartialEq, Eq)]
pub struct PreviewContent {
    pub lines: Vec<String>,
    pub highlights: Vec<Vec<HighlightSpan>>,
    pub truncated: bool,
    pub show_line_numbers: bool,
}

/// As many lines without spans.
pub open spec fn bare_lines(count: nat) -> Seq<Seq<SpanRecord>> {
    Seq::new(count, |i: int| Seq::empty())
}

impl PreviewContent {
    /// There are spans for each line.
    pub open spec fn well_formed(&self) -> bool {
        self.highlights@.len() == self.lines@.len()
    }

    pub fn new(lines: Vec<String>) -> (content: Self)
        ensures
            content.lines@ == lines@,
            line_records(content.highlights@) == bare_lines(lines@.len()),
            !content.truncated,
            !content.show_line_numbers,
            content.well_formed(),
    {
        let mut highlights: Vec<Vec<HighlightSpan>> = Vec::new();
        let mut index: usize = 0;
        while index < lines.len()
            invariant
                index <= lines@.len(),
                highlights@.len() == index,
                forall|i: int| 0 <= i < index ==> (#[trigger] highlights@[i])@.len() == 0,
            decreases lines@.len() - index,
        {
            highlights.push(Vec::new());
            index = index + 1;
        }
        proof {
            assert forall|i: int| 0 <= i < lines@.len() implies line_records(highlights@)[i]
                == bare_lines(lines@.len())[i] by {
                assert(highlights@[i]@.len() == 0);
                assert(line_records(highlights@)[i] =~= Seq::<SpanRecord>::empty());
            }
            assert(line_records(highlights@) =~= bare_lines(lines@.len()));
        }
        PreviewContent { lines, highlights, truncated: false, show_line_numbers: false }
    }

    pub fn with_truncated(self, truncated: bool) -> (content: Self)
        ensures
            content == (PreviewContent { truncated, ..self }),
    {
        PreviewContent {
            lines: self.lines,
            highlights: self.highlights,
            truncated,
            show_line_numbers: self.show_line_numbers,
        }
    }

    pub fn with_line_numbers(self, show_line_numbers: bool) -> (content: Self)
        ensures
            content == (PreviewContent { show_line_numbers, ..self }),
    {
        PreviewContent {
            lines: self.lines,
            highlights: self.highlights,
            truncated: self.truncated,
            show_line_numbers,
        }
    }

    /// Spans that do not fit the lines are left out.
    pub fn with_highlights(self, highlights: Vec<Vec<HighlightSpan>>) -> (content: Self)
        ensures
            content == (if highlights@.len() == self.lines@.len() {
                PreviewContent { highlights, ..self }
            } else {
                self
            }),
    {
        if highlights.len() == self.lines.len() {
            PreviewContent {
                lines: self.lines,
                highlights,
                truncated: self.truncated,
                show_line_numbers: self.show_line_numbers,
            }
        } else {
            self
        }
    }
}

/// A preview, and the provider it came from.
#[derive(Debug, PartialEq, Eq)]
pub struct Preview {
    pub provider_id: String,
    pub lines: Vec<String>,
    pub highlights: Vec<Vec<HighlightSpan>>,
    pub truncated: bool,
    pub show_line_numbers: bool,
}

/// What opening the path of a request came to for the providers.
pub type OpenedFile = Result<Option<PreviewFile>, PreviewError>;

/// What a provider answers: a preview, nothing, or why it failed.
pub type PreviewAnswer = Result<Option<PreviewContent>, PreviewError>;

/// A source of previews. `Ok(None)` passes the request on to the next provider.
pub trait PreviewProvider: Send + Sync {
    /// What the provider is called. One that does not say so here has an empty `id`.
    open spec fn name(&self) -> Seq<char> {
        Seq::empty()
    }

    /// What the provider may answer: anything, if it does not say more.
    open spec fn may_answer(
        &self,
        request: PreviewRequest<'_>,
        file: OpenedFile,
        answer: PreviewAnswer,
    ) -> bool {
        true
    }

    fn id(&self) -> (id: &'static str)
        ensures
            id@ == self.name(),
    ;

    fn preview(&self, request: &PreviewRequest<'_>, file: &OpenedFile) -> (answer: PreviewAnswer)
        ensures
            self.may_answer(*request, *file, answer),
    ;
}

/// The built-in provider, or one that was registered.
pub enum RegisteredProvider {
    Text(TextPreviewProvider),
    Other(Box<dyn PreviewProvider>),
}

impl RegisteredProvider {
    pub open spec fn name(&self) -> Seq<char> {
        match self {
            RegisteredProvider::Text(text) => text.name(),
            RegisteredProvider::Other(other) => other.name(),
        }
    }

    pub open spec fn may_answer(
        &self,
        request: PreviewRequest<'_>,
        file: OpenedFile,
        answer: PreviewAnswer,
    ) -> bool {
        match self {
            RegisteredProvider::Text(text) => text.may_answer(request, file, answer),
            RegisteredProvider::Other(other) => other.may_answer(request, file, answer),
        }
    }

    fn id(&self) -> (id: &'static str)
        ensures
            id@ == self.name(),
    {
        match self {
            RegisteredProvider::Text(text) => text.id(),
            RegisteredProvider::Other(other) => other.id(),
        }
    }

    fn preview(&self, request: &PreviewRequest<'_>, file: &OpenedFile) -> (answer: PreviewAnswer)
        ensures
            self.may_answer(*request, *file, answer),
    {
        match self {
            RegisteredProvider::Text(text) => text.preview(request, file),
            RegisteredProvider::Other(other) => other.preview(request, file),
        }
    }
}

/// A registered provider. Only the built-in text can be folded.
pub struct ProviderEntry {
    pub provider: RegisteredProvider,
    pub fold_source: FoldSource,
}

/// What a path turned out to be when it was looked at without following it.
#[derive(Debug)]
pub struct InspectedPath {
    pub kind: ContentPathKind,
    pub path: Vec<u8>,
}

/// What becomes of a request.
#[derive(Debug)]
pub enum PreviewResolution {
    Preview { preview: Preview, fold_source: FoldSource },
    Unsupported,
    Unsafe { kind: ContentPathKind, offending_path: Vec<u8> },
}

/// The preview that a provider's answer makes.
pub fn preview_of(id: &str, content: PreviewContent) -> (preview: Preview)
    ensures
        preview.provider_id@ == id@,
        shows(preview, content),
{
    Preview {
        provider_id: copy_text(id),
        lines: content.lines,
        highlights: content.highlights,
        truncated: content.truncated,
        show_line_numbers: content.show_line_numbers,
    }
}

/// What an answer means: nothing if the provider passes, the resolution if it has a
/// preview, and its error if it failed.
pub fn answer_of(id: &str, fold_source: FoldSource, answer: PreviewAnswer) -> (result: Option<
    Result<PreviewResolution, PreviewError>,
>)
    ensures
        match answer {
            Ok(None) => result is None,
            Ok(Some(content)) => {
                &&& result matches Some(Ok(PreviewResolution::Preview {
                    preview,
                    fold_source: source,
                }))
                &&& source == fold_source
                &&& preview.provider_id@ == id@
                &&& shows(preview, content)
            },
            Err(error) => result == Some(Err::<PreviewResolution, _>(error)),
        },
{
    match answer {
        Ok(None) => None,
        Ok(Some(content)) => Some(
            Ok(PreviewResolution::Preview { preview: preview_of(id, content), fold_source }),
        ),
        Err(error) => Some(Err(error)),
    }
}

/// The providers behind the first `count` may all pass.
pub open spec fn all_pass(
    providers: Seq<ProviderEntry>,
    count: int,
    request: PreviewRequest<'_>,
    file: OpenedFile,
) -> bool {
    forall|j: int|
        count <= j < providers.len() ==> (#[trigger] providers[j]).provider.may_answer(
            request,
            file,
            Ok(None),
        )
}

/// The preview shows the content.
pub open spec fn shows(preview: Preview, content: PreviewContent) -> bool {
    &&& preview.lines@ == content.lines@
    &&& preview.highlights@ == content.highlights@
    &&& preview.truncated == content.truncated
    &&& preview.show_line_numbers == content.show_line_numbers
}

/// The preview is the answer of the provider at `index`, under its name, and all behind
/// it passed.
pub open spec fn is_answer(
    providers: Seq<ProviderEntry>,
    index: int,
    request: PreviewRequest<'_>,
    file: OpenedFile,
    preview: Preview,
) -> bool {
    &&& 0 <= index < providers.len()
    &&& preview.provider_id@ == providers[index].provider.name()
    &&& exists|content: PreviewContent|
        providers[index].provider.may_answer(request, file, Ok(Some(content))) && #[trigger] shows(
            preview,
            content,
        )
    &&& all_pass(providers, index + 1, request, file)
}

/// The provider at `index` failed with the error, and all behind it passed.
pub open spec fn is_failure(
    providers: Seq<ProviderEntry>,
    index: int,
    request: PreviewRequest<'_>,
    file: OpenedFile,
    error: PreviewError,
) -> bool {
    &&& 0 <= index < providers.len()
    &&& providers[index].provider.may_answer(request, file, Err(error))
    &&& all_pass(providers, index + 1, request, file)
}

/// The preview is the answer of some provider, and all behind it passed.
pub open spec fn is_answered(
    providers: Seq<ProviderEntry>,
    request: PreviewRequest<'_>,
    file: OpenedFile,
    preview: Preview,
) -> bool {
    exists|index: int| #[trigger] is_answer(providers, index, request, file, preview)
}

/// Some provider failed with the error, and all behind it passed.
pub open spec fn is_failed(
    providers: Seq<ProviderEntry>,
    request: PreviewRequest<'_>,
    file: OpenedFile,
    error: PreviewError,
) -> bool {
    exists|index: int| #[trigger] is_failure(providers, index, request, file, error)
}

/// The path was a regular file, and the very path that was asked for.
pub open spec fn is_safe(request: PreviewRequest<'_>, inspected: InspectedPath) -> bool {
    inspected.kind == ContentPathKind::Regular && same_path(
        request.style,
        inspected.path@,
        request.absolute_path@,
    )
}

/// Providers in the order in which they were registered.
pub struct PreviewRegistry {
    pub providers: Vec<ProviderEntry>,
}

impl PreviewRegistry {
    pub fn empty() -> (registry: Self)
        ensures
            registry.providers@.len() == 0,
    {
        PreviewRegistry { providers: Vec::new() }
    }

    /// A registry with the built-in text provider.
    pub fn with_builtins() -> (registry: Self)
        ensures
            registry.providers@.len() == 1,
            registry.providers@[0].fold_source == FoldSource::BuiltinText,
            registry.providers@[0].provider is Text,
    {
        let entry = ProviderEntry {
            provider: RegisteredProvider::Text(TextPreviewProvider::new()),
            fold_source: FoldSource::BuiltinText,
        };
        let mut providers: Vec<ProviderEntry> = Vec::new();
        providers.push(entry);
        PreviewRegistry { providers }
    }

    /// Registers a provider that is asked before all others.
    pub fn register(&mut self, provider: Box<dyn PreviewProvider>) -> (registry: &mut Self)
        ensures
            registry.providers@ == old(self).providers@.push(
                ProviderEntry {
                    provider: RegisteredProvider::Other(provider),
                    fold_source: FoldSource::Absent,
                },
            ),
            *final(self) == *final(registry),
    {
        self.providers.push(
            ProviderEntry {
                provider: RegisteredProvider::Other(provider),
                fold_source: FoldSource::Absent,
            },
        );
        self
    }

    /// Asks the providers, the last registered first, until one answers or fails. A path
    /// that is not safe is not shown to any of them, and one that could not be looked at
    /// is an error. What the providers answer is theirs to say; what an answer means is
    /// what `answer_of` makes of it.
    pub fn resolve(
        &self,
        request: &PreviewRequest<'_>,
        inspected: Result<InspectedPath, String>,
        file: &OpenedFile,
    ) -> (result: Result<PreviewResolution, PreviewError>)
        ensures
            match inspected {
                Err(cause) => {
                    &&& result matches Err(error)
                    &&& error.message@ == failure_words(
                        "cannot inspect preview file "@,
                        request.display_path@,
                        cause@,
                    )
                },
                Ok(inspected) => match result {
                    Ok(PreviewResolution::Unsafe { kind, offending_path }) => !is_safe(
                        *request,
                        inspected,
                    ) && kind == inspected.kind && offending_path@ == inspected.path@,
                    Ok(PreviewResolution::Unsupported) => is_safe(*request, inspected) && all_pass(
                        self.providers@,
                        0,
                        *request,
                        *file,
                    ),
                    Ok(PreviewResolution::Preview { preview, fold_source }) => is_safe(
                        *request,
                        inspected,
                    ) && exists|index: int| #[trigger]
                        is_answer(self.providers@, index, *request, *file, preview)
                            && self.providers@[index].fold_source == fold_source,
                    Err(error) => is_safe(*request, inspected) && is_failed(
                        self.providers@,
                        *request,
                        *file,
                        error,
                    ),
                },
            },
    {
        let seen = match inspected {
            Err(cause) => {
                return Err(
                    failed("cannot inspect preview file ", request.display_path, cause.as_str()),
                );
            },
            Ok(seen) => seen,
        };
        if seen.kind != ContentPathKind::Regular || !paths_equal(
            request.style,
            seen.path.as_slice(),
            request.absolute_path,
        ) {
            return Ok(
                PreviewResolution::Unsafe {
                    kind: seen.kind,
                    offending_path: seen.path,
                },
            );
        }
        let mut index: usize = self.providers.len();
        while index > 0
            invariant
                index <= self.providers@.len(),
                inspected == Ok::<InspectedPath, String>(seen),
                is_safe(*request, seen),
                all_pass(self.providers@, index as int, *request, *file),
            decreases index,
        {
            index = index - 1;
            let entry = &self.providers[index];
            let answer = entry.provider.preview(request, file);
            let ghost given = answer;
            match answer_of(entry.provider.id(), entry.fold_source, answer) {
                Some(Ok(resolution)) => {
                    proof {
                        let preview = resolution->preview;
                        assert(shows(preview, given->Ok_0->0));
                        assert(is_answer(
                            self.providers@,
                            index as int,
                            *request,
                            *file,
                            preview,
                        ));
                    }
                    return Ok(resolution);
                },
                Some(Err(error)) => {
                    assert(is_failure(self.providers@, index as int, *request, *file, error));
                    return Err(error);
                },
                None => {},
            }
        }
        Ok(PreviewResolution::Unsupported)
    }

    /// The preview of a request, if a provider has one and the path is safe.
    pub fn preview(
        &self,
        request: &PreviewRequest<'_>,
        inspected: Result<InspectedPath, String>,
        file: &OpenedFile,
    ) -> (result: Result<Option<Preview>, PreviewError>)
        ensures
            match inspected {
                Err(cause) => {
                    &&& result matches Err(error)
                    &&& error.message@ == failure_words(
                        "cannot inspect preview file "@,
                        request.display_path@,
                        cause@,
                    )
                },
                Ok(inspected) => match result {
                    Ok(None) => !is_safe(*request, inspected) || all_pass(
                        self.providers@,
                        0,
                        *request,
                        *file,
                    ),
                    Ok(Some(preview)) => is_safe(*request, inspected) && is_answered(
                        self.providers@,
                        *request,
                        *file,
                        preview,
                    ),
                    Err(error) => is_safe(*request, inspected) && is_failed(
                        self.providers@,
                        *request,
                        *file,
                        error,
                    ),
                },
            },
    {
        match self.resolve(request, inspected, file) {
            Ok(PreviewResolution::Preview { preview, fold_source: _ }) => {
                assert(is_answered(self.providers@, *request, *file, preview));
                Ok(Some(preview))
            },
            Ok(PreviewResolution::Unsupported) => Ok(None),
            Ok(PreviewResolution::Unsafe { kind: _, offending_path: _ }) => Ok(None),
            Err(error) => Err(error),
        }
    }
}

impl Default for PreviewRegistry {
    fn default() -> (registry: Self)
        ensures
            registry.providers@.len() == 1,
            registry.providers@[0].fold_source == FoldSource::BuiltinText,
            registry.providers@[0].provider is Text,
    {
        PreviewRegistry::with_builtins()
    }
}

// Text ------------------------------------------------------------------------------------

/// The second byte may follow the first in a character of several bytes.
pub open spec fn may_follow(first: u8, second: u8) -> bool {
    if first == 0xe0 {
        0xa0 <= second <= 0xbf
    } else if first == 0xed {
        0x80 <= second <= 0x9f
    } else if first == 0xf0 {
        0x90 <= second <= 0xbf
    } else if first == 0xf4 {
        0x80 <= second <= 0x8f
    } else {
        0x80 <= second <= 0xbf
    }
}

/// The bytes begin a character that more bytes would complete.
pub open spec fn is_cut_character(tail: Seq<u8>) -> bool {
    ||| tail.len() == 1 && 0xc2 <= tail[0] <= 0xf4
    ||| tail.len() == 2 && 0xe0 <= tail[0] <= 0xf4 && may_follow(tail[0], tail[1])
    ||| tail.len() == 3 && 0xf0 <= tail[0] <= 0xf4 && may_follow(tail[0], tail[1]) && 0x80
        <= tail[2] <= 0xbf
}

/// The bytes are valid text but for a cut character of `cut` bytes at their end.
pub open spec fn is_cut_text(bytes: Seq<u8>, cut: int) -> bool {
    &&& cut <= bytes.len()
    &&& vstd::utf8::valid_utf8(bytes.subrange(0, bytes.len() - cut))
    &&& is_cut_character(bytes.subrange(bytes.len() - cut, bytes.len() as int))
}

/// The text of bytes. Where they were cut off, the character at the cut is left out.
pub open spec fn text_prefix(bytes: Seq<u8>, cut_off: bool) -> Option<Seq<u8>> {
    if vstd::utf8::valid_utf8(bytes) {
        Some(bytes)
    } else if cut_off && is_cut_text(bytes, 1) {
        Some(bytes.subrange(0, bytes.len() - 1))
    } else if cut_off && is_cut_text(bytes, 2) {
        Some(bytes.subrange(0, bytes.len() - 2))
    } else if cut_off && is_cut_text(bytes, 3) {
        Some(bytes.subrange(0, bytes.len() - 3))
    } else {
        None
    }
}

fn follows(first: u8, second: u8) -> (may: bool)
    ensures
        may == may_follow(first, second),
{
    if first == 0xe0 {
        0xa0 <= second && second <= 0xbf
    } else if first == 0xed {
        0x80 <= second && second <= 0x9f
    } else if first == 0xf0 {
        0x90 <= second && second <= 0xbf
    } else if first == 0xf4 {
        0x80 <= second && second <= 0x8f
    } else {
        0x80 <= second && second <= 0xbf
    }
}

fn cut_character(tail: &[u8]) -> (cut: bool)
    ensures
        cut == is_cut_character(tail@),
{
    if tail.len() == 1 {
        0xc2 <= tail[0] && tail[0] <= 0xf4
    } else if tail.len() == 2 {
        0xe0 <= tail[0] && tail[0] <= 0xf4 && follows(tail[0], tail[1])
    } else if tail.len() == 3 {
        0xf0 <= tail[0] && tail[0] <= 0xf4 && follows(tail[0], tail[1]) && 0x80 <= tail[2]
            && tail[2] <= 0xbf
    } else {
        false
    }
}

fn cut_text<'a>(bytes: &'a [u8], cut: usize) -> (found: Option<&'a str>)
    ensures
        match found {
            Some(words) => is_cut_text(bytes@, cut as int) && crate::bytes::text(words)
                == bytes@.subrange(0, bytes@.len() - cut),
            None => !is_cut_text(bytes@, cut as int),
        },
{
    if cut > bytes.len() {
        return None;
    }
    let at: usize = bytes.len() - cut;
    if !cut_character(slice_subrange(bytes, at, bytes.len())) {
        return None;
    }
    utf8_text(slice_subrange(bytes, 0, at))
}

/// The text of bytes; `cut_off` says that more bytes followed them.
pub fn utf8_prefix<'a>(bytes: &'a [u8], cut_off: bool) -> (found: Option<&'a str>)
    ensures
        match text_prefix(bytes@, cut_off) {
            None => found is None,
            Some(prefix) => found matches Some(words) && crate::bytes::text(words) == prefix,
        },
{
    if let Some(words) = utf8_text(bytes) {
        return Some(words);
    }
    if !cut_off {
        return None;
    }
    if let Some(words) = cut_text(bytes, 1) {
        return Some(words);
    }
    if let Some(words) = cut_text(bytes, 2) {
        return Some(words);
    }
    cut_text(bytes, 3)
}

/// A text without a byte order mark at its start.
pub open spec fn without_mark(s: Seq<char>) -> Seq<char> {
    if s.len() > 0 && s[0] == '\u{feff}' {
        s.subrange(1, s.len() as int)
    } else {
        s
    }
}

/// The lines of a text without its byte order mark.
pub fn marked_lines(words: &str) -> (lines: Vec<String>)
    ensures
        string_views(lines@) == text_lines(without_mark(words@)),
{
    let characters = chars_of(words);
    if characters.len() > 0 && characters[0] == '\u{feff}' {
        let rest = text_between(&characters, 1, characters.len());
        lines_of(rest.as_str())
    } else {
        lines_of(words)
    }
}

/// The text that is shown of a file's first bytes: none if they hold a zero
/// byte or are not text.
pub open spec fn shown_text(content: Seq<u8>, max_bytes: usize) -> Option<Seq<char>> {
    let cut_off = content.len() > max_bytes;
    let kept = if cut_off {
        content.subrange(0, max_bytes as int)
    } else {
        content
    };
    if content.contains(0) {
        None
    } else {
        match text_prefix(kept, cut_off) {
            None => None,
            Some(prefix) => Some(without_mark(vstd::utf8::decode_utf8(prefix))),
        }
    }
}

/// The first `max_lines` of the lines.
pub open spec fn first_lines(lines: Seq<Seq<char>>, max_lines: usize) -> Seq<Seq<char>> {
    if lines.len() > max_lines {
        lines.subrange(0, max_lines as int)
    } else {
        lines
    }
}

/// The content shows a file's text: its first lines, with the spans that
/// highlighting gives them.
pub open spec fn is_text_preview(
    preview: PreviewContent,
    style: PathStyle,
    path: Seq<u8>,
    words: Seq<char>,
    cut_off: bool,
    max_lines: usize,
) -> bool {
    let lines = first_lines(text_lines(words), max_lines);
    &&& string_views(preview.lines@) == lines
    &&& preview.truncated == (cut_off || text_lines(words).len() > max_lines)
    &&& preview.show_line_numbers
    &&& exists|ground: ScopeStack|
        #![trigger highlighted(style, path, lines, ground)]
        no_scopes(ground) && line_records(preview.highlights@) == (match highlighted(
            style,
            path,
            lines,
            ground,
        ) {
            Some(spans) => spans,
            None => bare_lines(lines.len()),
        })
}

/// Shows text and source code, whatever the file is called.
pub struct TextPreviewProvider {
    pub highlighter: Highlighter,
}

impl TextPreviewProvider {
    pub fn new() -> Self {
        TextPreviewProvider { highlighter: Highlighter::new() }
    }

    /// The preview of a file's first bytes: up to one more than are shown.
    pub fn preview_text(&self, request: &PreviewRequest<'_>, content: &[u8]) -> (preview: Option<
        PreviewContent,
    >)
        ensures
            match shown_text(content@, request.max_bytes) {
                None => preview is None,
                Some(words) => preview matches Some(found) && is_text_preview(
                    found,
                    request.style,
                    request.display_path@,
                    words,
                    content@.len() > request.max_bytes,
                    request.max_lines,
                ) && found.well_formed(),
            },
    {
        if holds_zero(content) {
            return None;
        }
        let cut_off = content.len() > request.max_bytes;
        let kept = if cut_off {
            slice_subrange(content, 0, request.max_bytes)
        } else {
            content
        };
        let words = match utf8_prefix(kept, cut_off) {
            None => {
                return None;
            },
            Some(words) => words,
        };
        proof {
            vstd::utf8::encode_utf8_decode_utf8(words@);
        }
        let mut lines = marked_lines(words);
        let ghost all = string_views(lines@);
        let more_lines = lines.len() > request.max_lines;
        lines.truncate(request.max_lines);
        let ghost shown = first_lines(all, request.max_lines);
        assert(string_views(lines@) =~= shown);
        let highlights = self.highlighter.syntax_highlights(
            request.style,
            request.display_path,
            &lines,
        );
        let ghost ground = choose|ground: ScopeStack|
            #![trigger highlighted(request.style, request.display_path@, shown, ground)]
            no_scopes(ground) && match highlighted(request.style, request.display_path@, shown, ground) {
                None => highlights is None,
                Some(expected) => highlights matches Some(found) && line_records(found@)
                    == expected,
            };
        let ghost spans = highlighted(request.style, request.display_path@, shown, ground);
        proof {
            if spans is Some {
                lemma_a_line_each(request.style, request.display_path@, shown, ground);
                assert(line_records(highlights->0@).len() == shown.len());
            }
        }
        let preview = PreviewContent::new(lines);
        let preview = match highlights {
            Some(found) => preview.with_highlights(found),
            None => preview,
        };
        let preview = preview.with_truncated(cut_off || more_lines).with_line_numbers(true);
        assert(line_records(preview.highlights@) == (match spans {
            Some(spans) => spans,
            None => bare_lines(shown.len()),
        }));
        Some(preview)
    }
}

proof fn lemma_a_line_each(style: PathStyle, path: Seq<u8>, lines: Seq<Seq<char>>, ground: ScopeStack)
    ensures
        highlighted(style, path, lines, ground) matches Some(spans) ==> spans.len() == lines.len(),
{
    if let Some(syntax) = chosen_syntax(style, path, lines) {
        lemma_lines_read(lines, syntax, ground, lines.len() as int);
    }
}

proof fn lemma_lines_read(
    lines: Seq<Seq<char>>,
    syntax: syntect::parsing::SyntaxReference,
    ground: ScopeStack,
    count: int,
)
    requires
        0 <= count,
    ensures
        crate::highlight::lines_read(lines, syntax, ground, count) matches Some(read)
            ==> read.lines.len() == count,
    decreases count,
{
    if count > 0 {
        lemma_lines_read(lines, syntax, ground, count - 1);
    }
}

/// The bytes of a file that are looked at for a text.
pub open spec fn looked_at(content: Seq<u8>, request: PreviewRequest<'_>) -> Seq<u8> {
    if content.len() > request.read_limit() {
        content.subrange(0, request.read_limit())
    } else {
        content
    }
}

impl PreviewProvider for TextPreviewProvider {
    open spec fn name(&self) -> Seq<char> {
        "text"@
    }

    open spec fn may_answer(
        &self,
        request: PreviewRequest<'_>,
        file: OpenedFile,
        answer: PreviewAnswer,
    ) -> bool {
        match file {
            Err(error) => answer matches Err(found) && found.message@ == error.message@,
            Ok(None) => answer matches Ok(None),
            Ok(Some(file)) => {
                let content = looked_at(file.content@, request);
                match shown_text(content, request.max_bytes) {
                    None => answer matches Ok(None),
                    Some(words) => answer matches Ok(Some(found)) && is_text_preview(
                        found,
                        request.style,
                        request.display_path@,
                        words,
                        content.len() > request.max_bytes,
                        request.max_lines,
                    ),
                }
            },
        }
    }

    fn id(&self) -> (id: &'static str) {
        "text"
    }

    fn preview(&self, request: &PreviewRequest<'_>, file: &OpenedFile) -> (answer: PreviewAnswer) {
        match file {
            Err(error) => Err(PreviewError { message: copy_text(error.message.as_str()) }),
            Ok(None) => Ok(None),
            Ok(Some(file)) => {
                let limit: usize = request.max_bytes.saturating_add(1);
                let content = if file.content.len() > limit {
                    slice_subrange(file.content.as_slice(), 0, limit)
                } else {
                    file.content.as_slice()
                };
                assert(content@ == looked_at(file.content@, *request));
                Ok(self.preview_text(request, content))
            },
        }
    }
}

/// The provider that was registered last is asked first: unless it may pass, a preview
/// is its own, under its name, and an error is its own too.
pub proof fn law_the_last_registered_is_asked_first(
    earlier: Seq<ProviderEntry>,
    last: ProviderEntry,
    request: PreviewRequest<'_>,
    file: OpenedFile,
)
    requires
        !last.provider.may_answer(request, file, Ok(None)),
    ensures
        !all_pass(earlier.push(last), 0, request, file),
        forall|preview: Preview|
            is_answered(earlier.push(last), request, file, preview) ==> #[trigger] is_answer(
                earlier.push(last),
                earlier.len() as int,
                request,
                file,
                preview,
            ),
        forall|error: PreviewError|
            is_failed(earlier.push(last), request, file, error) ==> #[trigger] is_failure(
                earlier.push(last),
                earlier.len() as int,
                request,
                file,
                error,
            ),
{
    let all = earlier.push(last);
    let count = earlier.len() as int;
    assert(all[count] == last);
    assert forall|preview: Preview| is_answered(all, request, file, preview) implies #[trigger] is_answer(
        all,
        count,
        request,
        file,
        preview,
    ) by {
        let index = choose|index: int| #[trigger] is_answer(all, index, request, file, preview);
        if index < count {
            assert(all[count].provider.may_answer(request, file, Ok(None)));
        }
    }
    assert forall|error: PreviewError| is_failed(all, request, file, error) implies #[trigger] is_failure(
        all,
        count,
        request,
        file,
        error,
    ) by {
        let index = choose|index: int| #[trigger] is_failure(all, index, request, file, error);
        if index < count {
            assert(all[count].provider.may_answer(request, file, Ok(None)));
        }
    }
}

/// Highlighting is decoration: a file whose language is not known, and one with a line
/// that is too long, is shown all the same, line by line and without spans.
pub proof fn law_what_is_not_highlighted_stays_readable(
    preview: PreviewContent,
    style: PathStyle,
    path: Seq<u8>,
    words: Seq<char>,
    cut_off: bool,
    max_lines: usize,
)
    requires
        is_text_preview(preview, style, path, words, cut_off, max_lines),
        ({
            let lines = first_lines(text_lines(words), max_lines);
            !lines_are_short(lines) || chosen_syntax(style, path, lines) is None
        }),
    ensures
        string_views(preview.lines@) == first_lines(text_lines(words), max_lines),
        line_records(preview.highlights@) == bare_lines(preview.lines@.len()),
{
    assert(string_views(preview.lines@).len() == preview.lines@.len());
}

/// Previews are bounded both ways: what is shown takes up no more bytes and no more lines
/// than were asked for. A preview says that it is cut short unless it shows the whole file.
pub proof fn law_previews_are_bounded(
    preview: PreviewContent,
    style: PathStyle,
    path: Seq<u8>,
    content: Seq<u8>,
    max_bytes: usize,
    max_lines: usize,
)
    requires
        shown_text(content, max_bytes) is Some,
        is_text_preview(
            preview,
            style,
            path,
            shown_text(content, max_bytes)->0,
            content.len() > max_bytes,
            max_lines,
        ),
    ensures
        preview.lines@.len() <= max_lines,
        vstd::utf8::encode_utf8(shown_text(content, max_bytes)->0).len() <= max_bytes,
        !preview.truncated ==> string_views(preview.lines@) == text_lines(
            without_mark(vstd::utf8::decode_utf8(content)),
        ),
{
    let cut_off = content.len() > max_bytes;
    let kept = if cut_off {
        content.subrange(0, max_bytes as int)
    } else {
        content
    };
    let prefix = text_prefix(kept, cut_off)->0;
    let all = vstd::utf8::decode_utf8(prefix);
    vstd::utf8::decode_utf8_encode_utf8(prefix);
    assert(prefix.len() <= max_bytes);
    if all.len() > 0 && all[0] == '\u{feff}' {
        assert(all.subrange(1, all.len() as int) =~= all.drop_first());
    }
    assert(string_views(preview.lines@).len() == preview.lines@.len());
}

/// What is shown of a file is its text: all of it if it is short enough, and else as much of
/// its front as the limit takes, without half a character. A file with a zero byte, or with
/// bytes that are no text, is not shown.
pub proof fn law_the_front_of_a_text_is_shown(content: Seq<u8>, max_bytes: usize)
    ensures
        content.contains(0) ==> shown_text(content, max_bytes) is None,
        content.len() <= max_bytes && !vstd::utf8::valid_utf8(content) ==> shown_text(
            content,
            max_bytes,
        ) is None,
        content.len() <= max_bytes && !content.contains(0) && vstd::utf8::valid_utf8(content)
            ==> shown_text(content, max_bytes) == Some(
            without_mark(vstd::utf8::decode_utf8(content)),
        ),
        shown_text(content, max_bytes) matches Some(words) ==> exists|count: int|
            #![trigger content.take(count)]
            {
                &&& 0 <= count <= content.len() && count <= max_bytes
                &&& vstd::utf8::valid_utf8(content.take(count))
                &&& words == without_mark(vstd::utf8::decode_utf8(content.take(count)))
                &&& count == content.len() || count > max_bytes - 4
            },
{
    if let Some(words) = shown_text(content, max_bytes) {
        let cut_off = content.len() > max_bytes;
        let kept = if cut_off {
            content.subrange(0, max_bytes as int)
        } else {
            content
        };
        let prefix = text_prefix(kept, cut_off)->0;
        let count = prefix.len() as int;
        assert(prefix =~= content.take(count));
    }
}

/// Only a byte order mark at the front of a text is not shown.
pub proof fn law_only_the_mark_is_left_out(words: Seq<char>)
    ensures
        without_mark(seq!['\u{feff}'] + words) == words,
        words.len() == 0 || words[0] != '\u{feff}' ==> without_mark(words) == words,
{
    assert((seq!['\u{feff}'] + words).subrange(1, words.len() as int + 1) =~= words);
}

} // verus!
