//! Syntax highlighting: the scopes that a grammar gives each part of a line,
//! reduced to a few kinds of spans.

use crate::paths::{extension, file_name, path_extension, path_file_name, PathStyle};
use crate::text::{string_views, text_equal, utf8_text};
use std::str::FromStr;
use syntect::highlighting::ScopeSelectors;
use syntect::parsing::{ParseState, ScopeStack, ScopeStackOp, SyntaxReference, SyntaxSet};
use vstd::prelude::*;

verus! {

pub const MAX_HIGHLIGHT_LINE_BYTES: usize = 16 * 1024;

/// The most open scopes that a selector is matched against.
pub const MAX_SCOPE_DEPTH: usize = 21_846;

/// What a highlighted part of a line is.
#[derive(Clone, Copy, Debug, PartialEq, Eq, Structural)]
pub enum HighlightKind {
    Comment,
    String,
    Keyword,
    Function,
    Type,
    Number,
    Constant,
    Attribute,
    SearchMatch,
    Search,
}

/// A highlighted range of bytes within one line.
#[derive(Debug, PartialEq, Eq)]
pub struct HighlightSpan {
    pub range: std::ops::Range<usize>,
    pub kind: HighlightKind,
}

/// What a span says.
pub struct SpanRecord {
    pub start: usize,
    pub end: usize,
    pub kind: HighlightKind,
}

impl View for HighlightSpan {
    type V = SpanRecord;

    open spec fn view(&self) -> SpanRecord {
        SpanRecord { start: self.range.start, end: self.range.end, kind: self.kind }
    }
}

pub open spec fn span_records(spans: Seq<HighlightSpan>) -> Seq<SpanRecord> {
    Seq::new(spans.len(), |i: int| spans[i]@)
}

pub open spec fn line_records(lines: Seq<Vec<HighlightSpan>>) -> Seq<Seq<SpanRecord>> {
    Seq::new(lines.len(), |i: int| span_records(lines[i]@))
}

/// A set of syntaxes of the crate `syntect`.
#[verifier::external_type_specification]
#[verifier::external_body]
pub struct ExSyntaxSet(SyntaxSet);

/// One syntax of such a set.
#[verifier::external_type_specification]
#[verifier::external_body]
pub struct ExSyntaxReference(SyntaxReference);

/// The state of a syntax between two lines.
#[verifier::external_type_specification]
#[verifier::external_body]
pub struct ExParseState(ParseState);

/// The scopes that are open at some place.
#[verifier::external_type_specification]
#[verifier::external_body]
pub struct ExScopeStack(ScopeStack);

/// A change of the open scopes.
#[verifier::external_type_specification]
#[verifier::external_body]
pub struct ExScopeStackOp(ScopeStackOp);

/// A pattern that open scopes may match.
#[verifier::external_type_specification]
#[verifier::external_body]
pub struct ExScopeSelectors(ScopeSelectors);

/// The set is the one that `two_face::syntax::extra_no_newlines` returns.
pub uninterp spec fn is_bundled(set: SyntaxSet) -> bool;

/// The syntax belongs to that set.
pub uninterp spec fn bundled_syntax(syntax: SyntaxReference) -> bool;

/// The state was made from a syntax of that set.
pub uninterp spec fn bundled_state(state: ParseState) -> bool;

/// The bundled syntax for a file extension.
pub uninterp spec fn extension_syntax(ending: Seq<char>) -> Option<SyntaxReference>;

/// The bundled syntax for an extension or a name.
pub uninterp spec fn token_syntax(token: Seq<char>) -> Option<SyntaxReference>;

/// The bundled syntax for the first line of a file.
pub uninterp spec fn first_line_syntax(line: Seq<char>) -> Option<SyntaxReference>;

/// The name of a syntax.
pub uninterp spec fn syntax_title(syntax: SyntaxReference) -> Seq<char>;

/// The state before the first line.
pub uninterp spec fn first_state(syntax: SyntaxReference) -> ParseState;

/// The changes of scope on a line, each with the byte it applies at; none where
/// the grammar is broken.
pub uninterp spec fn scope_changes(state: ParseState, line: Seq<char>) -> Option<
    Seq<(usize, ScopeStackOp)>,
>;

/// The state behind a line.
pub uninterp spec fn state_after(state: ParseState, line: Seq<char>) -> ParseState;

/// No scope is open.
pub uninterp spec fn no_scopes(stack: ScopeStack) -> bool;

/// The number of open scopes.
pub uninterp spec fn stack_depth(stack: ScopeStack) -> nat;

/// The open scopes after a change; none where the change does not apply.
pub uninterp spec fn changed_scopes(stack: ScopeStack, change: ScopeStackOp) -> Option<ScopeStack>;

/// The selectors that a text writes.
pub uninterp spec fn selectors_of(pattern: Seq<char>) -> Option<ScopeSelectors>;

/// One of the selectors matches the open scopes.
pub uninterp spec fn selected(selectors: ScopeSelectors, stack: ScopeStack) -> bool;

/// `two_face::syntax::extra_no_newlines` returns the syntaxes that the crate bundles.
#[verifier::external_body]
fn bundled_set() -> (set: SyntaxSet)
    ensures
        is_bundled(set),
{
    two_face::syntax::extra_no_newlines()
}

/// `SyntaxSet::find_syntax_by_extension`.
#[verifier::external_body]
fn find_by_extension<'a>(set: &'a SyntaxSet, ending: &str) -> (syntax: Option<
    &'a SyntaxReference,
>)
    requires
        is_bundled(*set),
    ensures
        match syntax {
            Some(found) => extension_syntax(ending@) == Some(*found) && bundled_syntax(*found),
            None => extension_syntax(ending@) is None,
        },
{
    set.find_syntax_by_extension(ending)
}

/// `SyntaxSet::find_syntax_by_token`.
#[verifier::external_body]
fn find_by_token<'a>(set: &'a SyntaxSet, token: &str) -> (syntax: Option<&'a SyntaxReference>)
    requires
        is_bundled(*set),
    ensures
        match syntax {
            Some(found) => token_syntax(token@) == Some(*found) && bundled_syntax(*found),
            None => token_syntax(token@) is None,
        },
{
    set.find_syntax_by_token(token)
}

/// `SyntaxSet::find_syntax_by_first_line`.
#[verifier::external_body]
fn find_by_first_line<'a>(set: &'a SyntaxSet, line: &str) -> (syntax: Option<&'a SyntaxReference>)
    requires
        is_bundled(*set),
    ensures
        match syntax {
            Some(found) => first_line_syntax(line@) == Some(*found) && bundled_syntax(*found),
            None => first_line_syntax(line@) is None,
        },
{
    set.find_syntax_by_first_line(line)
}

/// The field `name` of a `SyntaxReference`.
#[verifier::external_body]
fn title_of(syntax: &SyntaxReference) -> (title: &str)
    ensures
        title@ == syntax_title(*syntax),
{
    syntax.name.as_str()
}

/// `ParseState::new`, which every bundled syntax has a start context for.
#[verifier::external_body]
fn new_state(syntax: &SyntaxReference) -> (state: ParseState)
    requires
        bundled_syntax(*syntax),
    ensures
        state == first_state(*syntax),
        bundled_state(state),
{
    ParseState::new(syntax)
}

/// `ParseState::parse_line` with the set that the state's syntax belongs to.
/// It leaves the state behind the line, and no promise is made of it after an error.
#[verifier::external_body]
fn read_line(state: &mut ParseState, line: &str, set: &SyntaxSet) -> (changes: Option<
    Vec<(usize, ScopeStackOp)>,
>)
    requires
        bundled_state(*old(state)),
        is_bundled(*set),
    ensures
        match changes {
            Some(found) => scope_changes(*old(state), line@) == Some(found@) && *final(state)
                == state_after(*old(state), line@) && bundled_state(*final(state)),
            None => scope_changes(*old(state), line@) is None,
        },
{
    state.parse_line(line, set).ok()
}

/// `ScopeStack::new` has no open scope.
#[verifier::external_body]
fn new_stack() -> (stack: ScopeStack)
    ensures
        no_scopes(stack),
{
    ScopeStack::new()
}

/// `ScopeStack::len` counts the open scopes.
#[verifier::external_body]
fn depth_of(stack: &ScopeStack) -> (depth: usize)
    ensures
        depth == stack_depth(*stack),
{
    stack.len()
}

/// `ScopeStack::apply`. No promise is made of the stack after an error.
#[verifier::external_body]
fn apply_change(stack: &mut ScopeStack, change: &ScopeStackOp) -> (applied: bool)
    ensures
        applied == (changed_scopes(*old(stack), *change) is Some),
        applied ==> changed_scopes(*old(stack), *change) == Some(*final(stack)),
{
    stack.apply(change).is_ok()
}

/// `ScopeSelectors::from_str`.
#[verifier::external_body]
fn read_selectors(pattern: &str) -> (selectors: Option<ScopeSelectors>)
    ensures
        selectors == selectors_of(pattern@),
{
    ScopeSelectors::from_str(pattern).ok()
}

/// `ScopeSelectors::does_match` returns a score if one of the selectors matches. The
/// score weighs a scope by three times its place in the stack, which has to fit in
/// sixteen bits. The selectors are such as a text writes, so none has an empty name.
#[verifier::external_body]
fn stack_selected(selectors: &ScopeSelectors, stack: &ScopeStack) -> (matches: bool)
    requires
        is_written(*selectors),
        is_shallow(*stack),
    ensures
        matches == selected(*selectors, *stack),
{
    selectors.does_match(stack.as_slice()).is_some()
}

/// The selectors were read from some text.
pub open spec fn is_written(selectors: ScopeSelectors) -> bool {
    exists|pattern: Seq<char>| #[trigger] selectors_of(pattern) == Some(selectors)
}

/// So few scopes are open that each one's weight can be computed.
pub open spec fn is_shallow(stack: ScopeStack) -> bool {
    stack_depth(stack) <= MAX_SCOPE_DEPTH
}

/// The open scopes match a pattern.
pub open spec fn in_scope(pattern: Seq<char>, stack: ScopeStack) -> bool {
    selectors_of(pattern) matches Some(selectors) && selected(selectors, stack)
}

/// The kind of a place with these open scopes; the first that fits counts.
pub open spec fn scope_kind(stack: ScopeStack) -> Option<HighlightKind> {
    if in_scope("comment"@, stack) {
        Some(HighlightKind::Comment)
    } else if in_scope("string"@, stack) {
        Some(HighlightKind::String)
    } else if in_scope(
        "entity.name.function, support.function, variable.function"@,
        stack,
    ) {
        Some(HighlightKind::Function)
    } else if in_scope(
        "keyword, storage.modifier, storage.control, storage.type.function, storage.type.class, storage.type.struct, storage.type.enum, storage.type.interface, storage.type.trait"@,
        stack,
    ) {
        Some(HighlightKind::Keyword)
    } else if in_scope(
        "entity.name.type, entity.name.class, entity.name.struct, entity.name.enum, entity.name.interface, entity.name.trait, support.type, storage.type"@,
        stack,
    ) {
        Some(HighlightKind::Type)
    } else if in_scope("constant.numeric"@, stack) {
        Some(HighlightKind::Number)
    } else if in_scope("entity.other.attribute-name, meta.attribute"@, stack) {
        Some(HighlightKind::Attribute)
    } else if in_scope("constant, variable.language, support.constant"@, stack) {
        Some(HighlightKind::Constant)
    } else {
        None
    }
}

/// The spans of a line, with the range `start..end` of this kind added. An
/// empty range adds nothing; one that goes on with the kind before it extends it.
pub open spec fn extended(
    spans: Seq<SpanRecord>,
    start: usize,
    end: usize,
    kind: Option<HighlightKind>,
) -> Seq<SpanRecord> {
    match kind {
        None => spans,
        Some(kind) => if start == end {
            spans
        } else if spans.len() > 0 && spans.last().kind == kind && spans.last().end == start {
            spans.drop_last().push(SpanRecord { end, ..spans.last() })
        } else {
            spans.push(SpanRecord { start, end, kind })
        },
    }
}

/// A line while its changes of scope are read.
pub struct LineState {
    pub spans: Seq<SpanRecord>,
    pub stack: ScopeStack,
    /// The byte that the next range starts at.
    pub offset: usize,
    /// The byte of the last change.
    pub last: usize,
}

pub open spec fn saturating(value: int) -> usize {
    if value < 0 {
        0
    } else if value > usize::MAX {
        usize::MAX
    } else {
        value as usize
    }
}

/// The line after the range up to `next`.
pub open spec fn range_read(state: LineState, next: usize) -> LineState {
    let end = saturating(state.offset + saturating(next - state.last));
    LineState {
        spans: extended(state.spans, state.offset, end, scope_kind(state.stack)),
        stack: state.stack,
        offset: end,
        last: next,
    }
}

/// The line after its first `count` changes and the ranges before them; none where
/// a range has too many open scopes or a change does not apply.
pub open spec fn changes_read(
    changes: Seq<(usize, ScopeStackOp)>,
    stack: ScopeStack,
    count: int,
) -> Option<LineState>
    decreases count,
{
    if count <= 0 {
        Some(LineState { spans: Seq::empty(), stack, offset: 0, last: 0 })
    } else {
        match changes_read(changes, stack, count - 1) {
            None => None,
            Some(state) => if !is_shallow(state.stack) {
                None
            } else {
                let state = range_read(state, changes[count - 1].0);
                match changed_scopes(state.stack, changes[count - 1].1) {
                    None => None,
                    Some(stack) => Some(LineState { stack, ..state }),
                }
            },
        }
    }
}

/// The spans of a line and the scopes that stay open behind it; none where too many
/// scopes are open somewhere on it or a change does not apply.
pub open spec fn line_spans(
    changes: Seq<(usize, ScopeStackOp)>,
    stack: ScopeStack,
    length: usize,
) -> Option<(Seq<SpanRecord>, ScopeStack)> {
    match changes_read(changes, stack, changes.len() as int) {
        None => None,
        Some(state) => if !is_shallow(state.stack) {
            None
        } else {
            Some((range_read(state, length).spans, state.stack))
        },
    }
}

/// The first `count` lines, the state behind them, and the scopes open there.
pub struct TextState {
    pub lines: Seq<Seq<SpanRecord>>,
    pub state: ParseState,
    pub stack: ScopeStack,
}

pub open spec fn lines_read(
    lines: Seq<Seq<char>>,
    syntax: SyntaxReference,
    ground: ScopeStack,
    count: int,
) -> Option<TextState>
    decreases count,
{
    if count <= 0 {
        Some(TextState { lines: Seq::empty(), state: first_state(syntax), stack: ground })
    } else {
        match lines_read(lines, syntax, ground, count - 1) {
            None => None,
            Some(before) => {
                let line = lines[count - 1];
                match scope_changes(before.state, line) {
                    None => None,
                    Some(changes) => match line_spans(
                        changes,
                        before.stack,
                        vstd::utf8::encode_utf8(line).len() as usize,
                    ) {
                        None => None,
                        Some((spans, stack)) => Some(
                            TextState {
                                lines: before.lines.push(spans),
                                state: state_after(before.state, line),
                                stack,
                            },
                        ),
                    },
                }
            },
        }
    }
}

/// The text of bytes that are valid.
pub open spec fn valid_text(bytes: Option<Seq<u8>>) -> Option<Seq<char>> {
    match bytes {
        Some(bytes) => if vstd::utf8::valid_utf8(bytes) {
            Some(vstd::utf8::decode_utf8(bytes))
        } else {
            None
        },
        None => None,
    }
}

/// The syntax of a file: by its extension, else by its name, else by its first
/// line. Plain text is none.
pub open spec fn chosen_syntax(
    style: PathStyle,
    path: Seq<u8>,
    lines: Seq<Seq<char>>,
) -> Option<SyntaxReference> {
    let by_extension = match valid_text(extension(style, path)) {
        Some(ending) => extension_syntax(ending),
        None => None,
    };
    let by_name = match valid_text(file_name(style, path)) {
        Some(name) => token_syntax(name),
        None => None,
    };
    let by_line = if lines.len() > 0 {
        first_line_syntax(lines[0])
    } else {
        None
    };
    let found = if by_extension is Some {
        by_extension
    } else if by_name is Some {
        by_name
    } else {
        by_line
    };
    match found {
        Some(syntax) => if syntax_title(syntax) == "Plain Text"@ {
            None
        } else {
            Some(syntax)
        },
        None => None,
    }
}

/// No line is too long to be highlighted.
pub open spec fn lines_are_short(lines: Seq<Seq<char>>) -> bool {
    forall|i: int|
        0 <= i < lines.len() ==> vstd::utf8::encode_utf8(#[trigger] lines[i]).len()
            <= MAX_HIGHLIGHT_LINE_BYTES
}

/// The spans of each line, or nothing where the file is plain text, has an
/// overlong line, does not parse, or nests deeper than scopes can be weighed.
pub open spec fn highlighted(
    style: PathStyle,
    path: Seq<u8>,
    lines: Seq<Seq<char>>,
    ground: ScopeStack,
) -> Option<Seq<Seq<SpanRecord>>> {
    if !lines_are_short(lines) {
        None
    } else {
        match chosen_syntax(style, path, lines) {
            None => None,
            Some(syntax) => match lines_read(lines, syntax, ground, lines.len() as int) {
                None => None,
                Some(read) => Some(read.lines),
            },
        }
    }
}

/// The bundled syntaxes and the selectors that scopes are sorted by.
pub struct Highlighter {
    set: SyntaxSet,
    comment: Option<ScopeSelectors>,
    string: Option<ScopeSelectors>,
    keyword: Option<ScopeSelectors>,
    function: Option<ScopeSelectors>,
    ty: Option<ScopeSelectors>,
    number: Option<ScopeSelectors>,
    constant: Option<ScopeSelectors>,
    attribute: Option<ScopeSelectors>,
}

fn matches_stack(selectors: &Option<ScopeSelectors>, stack: &ScopeStack) -> (matches: bool)
    requires
        *selectors matches Some(found) ==> is_written(found),
        is_shallow(*stack),
    ensures
        matches == (*selectors matches Some(found) && selected(found, *stack)),
{
    match selectors {
        Some(found) => stack_selected(found, stack),
        None => false,
    }
}

impl Highlighter {
    #[verifier::type_invariant]
    spec fn bundle_is_read(&self) -> bool {
        &&& is_bundled(self.set)
        &&& self.comment == selectors_of("comment"@)
        &&& self.string == selectors_of("string"@)
        &&& self.keyword == selectors_of(
            "keyword, storage.modifier, storage.control, storage.type.function, storage.type.class, storage.type.struct, storage.type.enum, storage.type.interface, storage.type.trait"@,
        )
        &&& self.function == selectors_of(
            "entity.name.function, support.function, variable.function"@,
        )
        &&& self.ty == selectors_of(
            "entity.name.type, entity.name.class, entity.name.struct, entity.name.enum, entity.name.interface, entity.name.trait, support.type, storage.type"@,
        )
        &&& self.number == selectors_of("constant.numeric"@)
        &&& self.constant == selectors_of("constant, variable.language, support.constant"@)
        &&& self.attribute == selectors_of("entity.other.attribute-name, meta.attribute"@)
    }

    /// Loads the bundled syntaxes.
    pub fn new() -> Self {
        Highlighter {
            set: bundled_set(),
            comment: read_selectors("comment"),
            string: read_selectors("string"),
            keyword: read_selectors(
                "keyword, storage.modifier, storage.control, storage.type.function, storage.type.class, storage.type.struct, storage.type.enum, storage.type.interface, storage.type.trait",
            ),
            function: read_selectors(
                "entity.name.function, support.function, variable.function",
            ),
            ty: read_selectors(
                "entity.name.type, entity.name.class, entity.name.struct, entity.name.enum, entity.name.interface, entity.name.trait, support.type, storage.type",
            ),
            number: read_selectors("constant.numeric"),
            constant: read_selectors("constant, variable.language, support.constant"),
            attribute: read_selectors("entity.other.attribute-name, meta.attribute"),
        }
    }

    fn classify_scope(&self, stack: &ScopeStack) -> (kind: Option<HighlightKind>)
        requires
            is_shallow(*stack),
        ensures
            kind == scope_kind(*stack),
    {
        proof {
            use_type_invariant(&*self);
        }
        if matches_stack(&self.comment, stack) {
            Some(HighlightKind::Comment)
        } else if matches_stack(&self.string, stack) {
            Some(HighlightKind::String)
        } else if matches_stack(&self.function, stack) {
            Some(HighlightKind::Function)
        } else if matches_stack(&self.keyword, stack) {
            Some(HighlightKind::Keyword)
        } else if matches_stack(&self.ty, stack) {
            Some(HighlightKind::Type)
        } else if matches_stack(&self.number, stack) {
            Some(HighlightKind::Number)
        } else if matches_stack(&self.attribute, stack) {
            Some(HighlightKind::Attribute)
        } else if matches_stack(&self.constant, stack) {
            Some(HighlightKind::Constant)
        } else {
            None
        }
    }

    fn find_syntax<'a>(&'a self, style: PathStyle, path: &[u8], lines: &Vec<String>) -> (syntax:
        Option<&'a SyntaxReference>)
        ensures
            match syntax {
                Some(found) => chosen_syntax(style, path@, string_views(lines@)) == Some(*found)
                    && bundled_syntax(*found),
                None => chosen_syntax(style, path@, string_views(lines@)) is None,
            },
    {
        proof {
            use_type_invariant(&*self);
        }
        let mut found: Option<&'a SyntaxReference> = None;
        if let Some(bytes) = path_extension(style, path) {
            if let Some(ending) = utf8_text(bytes) {
                proof {
                    vstd::utf8::encode_utf8_decode_utf8(ending@);
                }
                found = find_by_extension(&self.set, ending);
            }
        }
        if found.is_none() {
            if let Some(bytes) = path_file_name(style, path) {
                if let Some(name) = utf8_text(bytes) {
                    proof {
                        vstd::utf8::encode_utf8_decode_utf8(name@);
                    }
                    found = find_by_token(&self.set, name);
                }
            }
        }
        if found.is_none() {
            if lines.len() > 0 {
                assert(string_views(lines@)[0] == lines@[0]@);
                found = find_by_first_line(&self.set, lines[0].as_str());
            }
        }
        match found {
            None => None,
            Some(syntax) => {
                if text_equal(title_of(syntax), "Plain Text") {
                    None
                } else {
                    Some(syntax)
                }
            },
        }
    }

    /// Reads one line of a file.
    fn read_spans(
        &self,
        changes: &Vec<(usize, ScopeStackOp)>,
        stack: &mut ScopeStack,
        length: usize,
    ) -> (spans: Option<Vec<HighlightSpan>>)
        ensures
            match line_spans(changes@, *old(stack), length) {
                None => spans is None,
                Some((expected, left)) => spans matches Some(found) && span_records(found@)
                    == expected && *final(stack) == left,
            },
    {
        let ghost ground = *stack;
        let mut spans: Vec<HighlightSpan> = Vec::new();
        let mut offset: usize = 0;
        let mut last: usize = 0;
        let mut index: usize = 0;
        assert(span_records(spans@) =~= Seq::<SpanRecord>::empty());
        while index < changes.len()
            invariant
                index <= changes@.len(),
                ground == *old(stack),
                changes_read(changes@, ground, index as int) == Some(
                    LineState { spans: span_records(spans@), stack: *stack, offset, last },
                ),
            decreases changes@.len() - index,
        {
            proof {
                lemma_change_failure(changes@, ground, index + 1, changes@.len() as int);
            }
            if depth_of(stack) > MAX_SCOPE_DEPTH {
                return None;
            }
            let next: usize = changes[index].0;
            let end: usize = offset.saturating_add(next.saturating_sub(last));
            let kind = self.classify_scope(stack);
            extend_spans(&mut spans, offset, end, kind);
            offset = end;
            last = next;
            if !apply_change(stack, &changes[index].1) {
                return None;
            }
            index = index + 1;
        }
        if depth_of(stack) > MAX_SCOPE_DEPTH {
            return None;
        }
        let end: usize = offset.saturating_add(length.saturating_sub(last));
        let kind = self.classify_scope(stack);
        extend_spans(&mut spans, offset, end, kind);
        Some(spans)
    }

    /// The spans of each line of a file, or nothing where it is not highlighted.
    pub fn syntax_highlights(&self, style: PathStyle, path: &[u8], lines: &Vec<String>) -> (result: Option<
        Vec<Vec<HighlightSpan>>,
    >)
        ensures
            exists|ground: ScopeStack|
                #![trigger highlighted(style, path@, string_views(lines@), ground)]
                no_scopes(ground) && match highlighted(style, path@, string_views(lines@), ground) {
                    None => result is None,
                    Some(expected) => result matches Some(found) && line_records(found@)
                        == expected,
                },
    {
        let ghost shown = string_views(lines@);
        let mut stack = new_stack();
        let ghost ground = stack;
        let ghost expected = highlighted(style, path@, shown, ground);
        let mut at: usize = 0;
        while at < lines.len()
            invariant
                at <= lines@.len(),
                shown == string_views(lines@),
                no_scopes(ground),
                expected == highlighted(style, path@, shown, ground),
                forall|i: int|
                    0 <= i < at ==> vstd::utf8::encode_utf8(#[trigger] shown[i]).len()
                        <= MAX_HIGHLIGHT_LINE_BYTES,
            decreases lines@.len() - at,
        {
            assert(shown[at as int] == lines@[at as int]@);
            if lines[at].as_str().as_bytes().len() > MAX_HIGHLIGHT_LINE_BYTES {
                assert(!lines_are_short(shown));
                return None;
            }
            at = at + 1;
        }
        let syntax = match self.find_syntax(style, path, lines) {
            None => {
                return None;
            },
            Some(syntax) => syntax,
        };
        proof {
            use_type_invariant(&*self);
        }
        let ghost total = shown.len() as int;
        let mut state = new_state(syntax);
        let mut result: Vec<Vec<HighlightSpan>> = Vec::new();
        let mut index: usize = 0;
        assert(line_records(result@) =~= Seq::<Seq<SpanRecord>>::empty());
        while index < lines.len()
            invariant
                index <= lines@.len(),
                shown == string_views(lines@),
                total == shown.len(),
                no_scopes(ground),
                is_bundled(self.set),
                bundled_state(state),
                lines_are_short(shown),
                chosen_syntax(style, path@, shown) == Some(*syntax),
                expected == highlighted(style, path@, shown, ground),
                lines_read(shown, *syntax, ground, index as int) == Some(
                    TextState { lines: line_records(result@), state, stack },
                ),
            decreases lines@.len() - index,
        {
            proof {
                lemma_line_failure(shown, *syntax, ground, index + 1, total);
            }
            assert(shown[index as int] == lines@[index as int]@);
            assert(vstd::utf8::encode_utf8(shown[index as int]).len()
                <= MAX_HIGHLIGHT_LINE_BYTES);
            let line = lines[index].as_str();
            let changes = match read_line(&mut state, line, &self.set) {
                None => {
                    return None;
                },
                Some(changes) => changes,
            };
            let spans = match self.read_spans(&changes, &mut stack, line.as_bytes().len()) {
                None => {
                    return None;
                },
                Some(spans) => spans,
            };
            let ghost before = result@;
            result.push(spans);
            assert(line_records(result@) =~= line_records(before).push(span_records(spans@)));
            index = index + 1;
        }
        Some(result)
    }
}

fn extend_spans(
    spans: &mut Vec<HighlightSpan>,
    start: usize,
    end: usize,
    kind: Option<HighlightKind>,
)
    ensures
        span_records(final(spans)@) == extended(span_records(old(spans)@), start, end, kind),
{
    let ghost before = spans@;
    if let Some(kind) = kind {
        if start != end {
            let count: usize = spans.len();
            if count > 0 && spans[count - 1].kind == kind && spans[count - 1].range.end == start {
                let from: usize = spans[count - 1].range.start;
                spans.pop();
                spans.push(HighlightSpan { range: from..end, kind });
                assert(span_records(spans@) =~= span_records(before).drop_last().push(
                    SpanRecord { end, ..span_records(before).last() },
                ));
            } else {
                spans.push(HighlightSpan { range: start..end, kind });
                assert(span_records(spans@) =~= span_records(before).push(
                    SpanRecord { start, end, kind },
                ));
            }
        }
    }
}

proof fn lemma_change_failure(
    changes: Seq<(usize, ScopeStackOp)>,
    stack: ScopeStack,
    count: int,
    total: int,
)
    requires
        0 <= count <= total,
    ensures
        changes_read(changes, stack, count) is None ==> changes_read(changes, stack, total) is None,
    decreases total,
{
    if count < total {
        lemma_change_failure(changes, stack, count, total - 1);
    }
}

proof fn lemma_line_failure(
    lines: Seq<Seq<char>>,
    syntax: SyntaxReference,
    ground: ScopeStack,
    count: int,
    total: int,
)
    requires
        0 <= count <= total,
    ensures
        lines_read(lines, syntax, ground, count) is None ==> lines_read(
            lines,
            syntax,
            ground,
            total,
        ) is None,
    decreases total,
{
    if count < total {
        lemma_line_failure(lines, syntax, ground, count, total - 1);
    }
}

/// The spans of a line ascend and do not overlap, none is empty, and two of one
/// kind do not touch.
pub open spec fn spans_in_order(spans: Seq<SpanRecord>, offset: usize) -> bool {
    &&& forall|i: int|
        0 <= i < spans.len() ==> (#[trigger] spans[i]).start < spans[i].end && spans[i].end
            <= offset
    &&& forall|i: int, j: int|
        0 <= i < j < spans.len() ==> (#[trigger] spans[i]).end <= (#[trigger] spans[j]).start
    &&& forall|i: int, j: int|
        0 <= i < j < spans.len() && j == i + 1 && (#[trigger] spans[i]).kind == (
        #[trigger] spans[j]).kind ==> spans[i].end < spans[j].start
}

proof fn lemma_extended(
    spans: Seq<SpanRecord>,
    start: usize,
    end: usize,
    kind: Option<HighlightKind>,
)
    requires
        spans_in_order(spans, start),
        start <= end,
    ensures
        spans_in_order(extended(spans, start, end, kind), end),
{
    let all = extended(spans, start, end, kind);
    if kind is Some && start != end {
        let last = spans.len() - 1;
        if spans.len() > 0 && spans.last().kind == kind->0 && spans.last().end == start {
            assert(spans[last].start < spans[last].end);
            assert forall|i: int, j: int| 0 <= i < j < all.len() implies (
            #[trigger] all[i]).end <= (#[trigger] all[j]).start by {
                assert(spans[i].end <= spans[j].start);
            }
            assert forall|i: int, j: int|
                0 <= i < j < all.len() && j == i + 1 && (#[trigger] all[i]).kind == (
                #[trigger] all[j]).kind implies all[i].end < all[j].start by {
                assert(spans[i].kind == spans[j].kind);
            }
        } else {
            assert forall|i: int, j: int|
                0 <= i < j < all.len() && j == i + 1 && (#[trigger] all[i]).kind == (
                #[trigger] all[j]).kind implies all[i].end < all[j].start by {
                if j < spans.len() {
                    assert(spans[i].kind == spans[j].kind);
                } else {
                    assert(spans[last].end <= start);
                }
            }
        }
    }
}

proof fn lemma_changes_in_order(
    changes: Seq<(usize, ScopeStackOp)>,
    stack: ScopeStack,
    count: int,
)
    ensures
        changes_read(changes, stack, count) matches Some(state) ==> spans_in_order(
            state.spans,
            state.offset,
        ),
    decreases count,
{
    if count > 0 {
        lemma_changes_in_order(changes, stack, count - 1);
        if changes_read(changes, stack, count - 1) is Some {
            let state = changes_read(changes, stack, count - 1)->0;
            let next = changes[count - 1].0;
            let end = saturating(state.offset + saturating(next - state.last));
            lemma_extended(state.spans, state.offset, end, scope_kind(state.stack));
        }
    }
}

/// The spans of every highlighted line are in order, apart and merged.
pub proof fn law_spans_are_merged(
    changes: Seq<(usize, ScopeStackOp)>,
    stack: ScopeStack,
    length: usize,
)
    ensures
        line_spans(changes, stack, length) matches Some((spans, _)) ==> spans_in_order(
            spans,
            usize::MAX,
        ),
{
    lemma_changes_in_order(changes, stack, changes.len() as int);
    if changes_read(changes, stack, changes.len() as int) is Some {
        let state = changes_read(changes, stack, changes.len() as int)->0;
        let end = saturating(state.offset + saturating(length - state.last));
        lemma_extended(state.spans, state.offset, end, scope_kind(state.stack));
    }
}

// Kinds -----------------------------------------------------------------------------------

/// A pattern is one, and one of its selectors matches the open scopes.
pub open spec fn matched_by(pattern: Seq<char>, stack: ScopeStack) -> bool {
    exists|selectors: ScopeSelectors|
        selectors_of(pattern) == Some(selectors) && #[trigger] selected(selectors, stack)
}

/// A place is a comment where the scopes of comments are open, whatever else is. Behind
/// that a string comes first, then a function, a keyword, a type, a number, an attribute
/// and a constant; a place in none of these scopes is of no kind.
pub proof fn law_kinds_follow_their_selectors(stack: ScopeStack)
    ensures
        ({
            let comment = matched_by("comment"@, stack);
            let string = matched_by("string"@, stack);
            let function = matched_by(
                "entity.name.function, support.function, variable.function"@,
                stack,
            );
            let keyword = matched_by(
                "keyword, storage.modifier, storage.control, storage.type.function, storage.type.class, storage.type.struct, storage.type.enum, storage.type.interface, storage.type.trait"@,
                stack,
            );
            let ty = matched_by(
                "entity.name.type, entity.name.class, entity.name.struct, entity.name.enum, entity.name.interface, entity.name.trait, support.type, storage.type"@,
                stack,
            );
            let number = matched_by("constant.numeric"@, stack);
            let attribute = matched_by("entity.other.attribute-name, meta.attribute"@, stack);
            let constant = matched_by("constant, variable.language, support.constant"@, stack);
            let kind = scope_kind(stack);
            &&& kind == Some(HighlightKind::Comment) <==> comment
            &&& kind == Some(HighlightKind::String) <==> string && !comment
            &&& kind == Some(HighlightKind::Function) <==> function && !comment && !string
            &&& kind == Some(HighlightKind::Keyword) <==> keyword && !comment && !string
                && !function
            &&& kind == Some(HighlightKind::Type) <==> ty && !comment && !string && !function
                && !keyword
            &&& kind == Some(HighlightKind::Number) <==> number && !comment && !string && !function
                && !keyword && !ty
            &&& kind == Some(HighlightKind::Attribute) <==> attribute && !comment && !string
                && !function && !keyword && !ty && !number
            &&& kind == Some(HighlightKind::Constant) <==> constant && !comment && !string
                && !function && !keyword && !ty && !number && !attribute
            &&& kind is None <==> !comment && !string && !function && !keyword && !ty && !number
                && !attribute && !constant
        }),
{
    lemma_matched("comment"@, stack);
    lemma_matched("string"@, stack);
    lemma_matched("entity.name.function, support.function, variable.function"@, stack);
    lemma_matched(
        "keyword, storage.modifier, storage.control, storage.type.function, storage.type.class, storage.type.struct, storage.type.enum, storage.type.interface, storage.type.trait"@,
        stack,
    );
    lemma_matched(
        "entity.name.type, entity.name.class, entity.name.struct, entity.name.enum, entity.name.interface, entity.name.trait, support.type, storage.type"@,
        stack,
    );
    lemma_matched("constant.numeric"@, stack);
    lemma_matched("entity.other.attribute-name, meta.attribute"@, stack);
    lemma_matched("constant, variable.language, support.constant"@, stack);
}

proof fn lemma_matched(pattern: Seq<char>, stack: ScopeStack)
    ensures
        in_scope(pattern, stack) == matched_by(pattern, stack),
{
    if in_scope(pattern, stack) {
        assert(selected(selectors_of(pattern)->0, stack));
    }
}

/// The byte lies in a span of this kind.
pub open spec fn shown_as(spans: Seq<SpanRecord>, byte: int, kind: HighlightKind) -> bool {
    exists|i: int|
        0 <= i < spans.len() && (#[trigger] spans[i]).kind == kind && spans[i].start <= byte
            < spans[i].end
}

/// The scopes that are open after some changes.
pub open spec fn scopes_after(
    changes: Seq<(usize, ScopeStackOp)>,
    stack: ScopeStack,
    count: int,
) -> Option<ScopeStack>
    decreases count,
{
    if count <= 0 {
        Some(stack)
    } else {
        match scopes_after(changes, stack, count - 1) {
            None => None,
            Some(open) => changed_scopes(open, changes[count - 1].1),
        }
    }
}

/// The changes of a line come in the order of their places, which are on the line.
pub open spec fn changes_in_order(changes: Seq<(usize, ScopeStackOp)>, length: usize) -> bool {
    &&& forall|i: int, j: int|
        0 <= i < j < changes.len() ==> (#[trigger] changes[i]).0 <= (#[trigger] changes[j]).0
    &&& forall|i: int| 0 <= i < changes.len() ==> (#[trigger] changes[i]).0 <= length
}

/// The byte stands behind the first `count` changes and in front of the others.
pub open spec fn stands_between(
    changes: Seq<(usize, ScopeStackOp)>,
    length: usize,
    count: int,
    byte: int,
) -> bool {
    &&& 0 <= count <= changes.len()
    &&& 0 <= byte < length
    &&& count > 0 ==> changes[count - 1].0 <= byte
    &&& count < changes.len() ==> byte < changes[count].0
}

proof fn lemma_shown_after(
    spans: Seq<SpanRecord>,
    start: usize,
    end: usize,
    kind: Option<HighlightKind>,
    byte: int,
    wanted: HighlightKind,
)
    requires
        start <= end,
        forall|i: int|
            0 <= i < spans.len() ==> (#[trigger] spans[i]).start < spans[i].end <= start,
    ensures
        shown_as(extended(spans, start, end, kind), byte, wanted) <==> shown_as(
            spans,
            byte,
            wanted,
        ) || (kind == Some(wanted) && start <= byte < end),
        forall|i: int|
            0 <= i < extended(spans, start, end, kind).len() ==> (#[trigger] extended(
                spans,
                start,
                end,
                kind,
            )[i]).start < extended(spans, start, end, kind)[i].end <= end,
{
    let after = extended(spans, start, end, kind);
    if kind is Some && start != end {
        let last = spans.len() - 1;
        if spans.len() > 0 && spans.last().kind == kind->0 && spans.last().end == start {
            assert(after.len() == spans.len());
            assert(after[last] == SpanRecord { end, ..spans[last] });
            assert forall|i: int| 0 <= i < last implies after[i] == spans[i] by {}
            if shown_as(spans, byte, wanted) {
                let i = choose|i: int|
                    0 <= i < spans.len() && (#[trigger] spans[i]).kind == wanted && spans[i].start
                        <= byte < spans[i].end;
                assert(after[i].start <= byte < after[i].end);
            }
            if kind == Some(wanted) && start <= byte < end {
                assert(after[last].start <= byte < after[last].end);
            }
            if shown_as(after, byte, wanted) {
                let i = choose|i: int|
                    0 <= i < after.len() && (#[trigger] after[i]).kind == wanted && after[i].start
                        <= byte < after[i].end;
                if i < last {
                    assert(spans[i].kind == wanted);
                } else if byte < start {
                    assert(spans[last].kind == wanted);
                }
            }
        } else {
            assert(after.len() == spans.len() + 1);
            assert forall|i: int| 0 <= i < spans.len() implies after[i] == spans[i] by {}
            assert(after[last + 1] == SpanRecord { start, end, kind: kind->0 });
            if shown_as(spans, byte, wanted) {
                let i = choose|i: int|
                    0 <= i < spans.len() && (#[trigger] spans[i]).kind == wanted && spans[i].start
                        <= byte < spans[i].end;
                assert(after[i].kind == wanted);
            }
            if kind == Some(wanted) && start <= byte < end {
                assert(after[last + 1].kind == wanted);
            }
            if shown_as(after, byte, wanted) {
                let i = choose|i: int|
                    0 <= i < after.len() && (#[trigger] after[i]).kind == wanted && after[i].start
                        <= byte < after[i].end;
                if i <= last {
                    assert(spans[i].kind == wanted);
                }
            }
        }
    }
}

/// What holds of a line after some changes.
spec fn reads_well(
    changes: Seq<(usize, ScopeStackOp)>,
    stack: ScopeStack,
    count: int,
    state: LineState,
    reached: int,
) -> bool {
    &&& state.offset == reached
    &&& state.last == reached
    &&& forall|i: int|
        0 <= i < state.spans.len() ==> (#[trigger] state.spans[i]).start < state.spans[i].end
            <= reached
    &&& forall|byte: int, kind: HighlightKind|
        byte >= reached ==> !#[trigger] shown_as(state.spans, byte, kind)
}

proof fn lemma_changes_reach(
    changes: Seq<(usize, ScopeStackOp)>,
    stack: ScopeStack,
    length: usize,
    count: int,
)
    requires
        changes_in_order(changes, length),
        0 <= count <= changes.len(),
    ensures
        changes_read(changes, stack, count) matches Some(state) ==> {
            &&& scopes_after(changes, stack, count) == Some(state.stack)
            &&& reads_well(
                changes,
                stack,
                count,
                state,
                if count > 0 {
                    changes[count - 1].0 as int
                } else {
                    0
                },
            )
        },
    decreases count,
{
    if let Some(state) = changes_read(changes, stack, count) {
        if count > 0 {
            lemma_changes_reach(changes, stack, length, count - 1);
            let before = changes_read(changes, stack, count - 1)->0;
            let next = changes[count - 1].0;
            if count > 1 {
                assert(changes[count - 2].0 <= changes[count - 1].0);
            }
            lemma_range_reach(before, next);
        } else {
            assert forall|byte: int, kind: HighlightKind| byte >= 0 implies !#[trigger] shown_as(
                state.spans,
                byte,
                kind,
            ) by {}
        }
    }
}

proof fn lemma_range_reach(before: LineState, next: usize)
    requires
        before.offset == before.last <= next,
        forall|i: int|
            0 <= i < before.spans.len() ==> (#[trigger] before.spans[i]).start
                < before.spans[i].end <= before.offset,
    ensures
        range_read(before, next).offset == next,
        range_read(before, next).last == next,
        forall|i: int|
            0 <= i < range_read(before, next).spans.len() ==> (#[trigger] range_read(
                before,
                next,
            ).spans[i]).start < range_read(before, next).spans[i].end <= next,
        forall|byte: int, kind: HighlightKind| #[trigger]
            shown_as(range_read(before, next).spans, byte, kind) <==> shown_as(
                before.spans,
                byte,
                kind,
            ) || (scope_kind(before.stack) == Some(kind) && before.offset <= byte < next),
        forall|byte: int, kind: HighlightKind|
            byte >= next ==> !#[trigger] shown_as(range_read(before, next).spans, byte, kind),
{
    let after = range_read(before, next);
    let kind = scope_kind(before.stack);
    lemma_shown_after(before.spans, before.offset, next, kind, 0, HighlightKind::Comment);
    assert forall|byte: int, wanted: HighlightKind| #[trigger]
        shown_as(after.spans, byte, wanted) <==> shown_as(before.spans, byte, wanted) || (
    scope_kind(before.stack) == Some(wanted) && before.offset <= byte < next) by {
        lemma_shown_after(before.spans, before.offset, next, kind, byte, wanted);
    }
    assert forall|byte: int, wanted: HighlightKind| byte >= next implies !#[trigger] shown_as(
        after.spans,
        byte,
        wanted,
    ) by {
        if shown_as(before.spans, byte, wanted) {
            let i = choose|i: int|
                0 <= i < before.spans.len() && (#[trigger] before.spans[i]).kind == wanted
                    && before.spans[i].start <= byte < before.spans[i].end;
        }
    }
}

proof fn lemma_byte_read(
    changes: Seq<(usize, ScopeStackOp)>,
    stack: ScopeStack,
    length: usize,
    count: int,
    read: int,
    byte: int,
    kind: HighlightKind,
)
    requires
        changes_in_order(changes, length),
        stands_between(changes, length, count, byte),
        count < read <= changes.len(),
        changes_read(changes, stack, read) is Some,
    ensures
        scopes_after(changes, stack, count) is Some,
        shown_as(changes_read(changes, stack, read)->0.spans, byte, kind) <==> scope_kind(
            scopes_after(changes, stack, count)->0,
        ) == Some(kind),
    decreases read,
{
    lemma_changes_reach(changes, stack, length, read - 1);
    let before = changes_read(changes, stack, read - 1)->0;
    let next = changes[read - 1].0;
    if read > 1 {
        assert(changes[read - 2].0 <= changes[read - 1].0);
    }
    lemma_range_reach(before, next);
    if count < read - 1 {
        lemma_byte_read(changes, stack, length, count, read - 1, byte, kind);
        assert(changes[count].0 <= changes[read - 2].0);
    } else {
        assert(!shown_as(before.spans, byte, kind));
    }
}

/// Each byte of a line is shown as the kind of the scopes that are open at it: those left
/// by the changes in front of it. It is shown as no other kind, and as none where the scopes
/// are of no kind.
pub proof fn law_each_byte_is_shown_as_its_scopes_are(
    changes: Seq<(usize, ScopeStackOp)>,
    stack: ScopeStack,
    length: usize,
    count: int,
    byte: int,
    kind: HighlightKind,
)
    requires
        changes_in_order(changes, length),
        stands_between(changes, length, count, byte),
    ensures
        line_spans(changes, stack, length) matches Some((spans, left)) ==> {
            &&& scopes_after(changes, stack, count) matches Some(open)
            &&& shown_as(spans, byte, kind) <==> scope_kind(open) == Some(kind)
            &&& scopes_after(changes, stack, changes.len() as int) == Some(left)
        },
{
    let total = changes.len() as int;
    if let Some((spans, left)) = line_spans(changes, stack, length) {
        let state = changes_read(changes, stack, total)->0;
        lemma_changes_reach(changes, stack, length, total);
        if total > 0 {
            assert(changes[total - 1].0 <= length);
        }
        lemma_range_reach(state, length);
        if count < total {
            lemma_byte_read(changes, stack, length, count, total, byte, kind);
            assert(changes[count].0 <= changes[total - 1].0);
        } else {
            assert(!shown_as(state.spans, byte, kind));
        }
    }
}

/// The syntax of a file goes by its extension, and else by its name, and else by its first
/// line; plain text is not highlighted, nor is a file with a line that is too long.
pub proof fn law_syntaxes_go_by_extension_first(
    style: PathStyle,
    path: Seq<u8>,
    lines: Seq<Seq<char>>,
    ground: ScopeStack,
)
    ensures
        chosen_syntax(style, path, lines) matches Some(syntax) ==> syntax_title(syntax)
            != "Plain Text"@,
        ({
            let ending = extension(style, path);
            let known = ending is Some && vstd::utf8::valid_utf8(ending->0) && extension_syntax(
                vstd::utf8::decode_utf8(ending->0),
            ) is Some;
            let name = file_name(style, path);
            let named = name is Some && vstd::utf8::valid_utf8(name->0) && token_syntax(
                vstd::utf8::decode_utf8(name->0),
            ) is Some;
            let found = if known {
                extension_syntax(vstd::utf8::decode_utf8(ending->0))
            } else if named {
                token_syntax(vstd::utf8::decode_utf8(name->0))
            } else if lines.len() > 0 {
                first_line_syntax(lines[0])
            } else {
                None
            };
            &&& found is None ==> chosen_syntax(style, path, lines) is None
            &&& found is Some && syntax_title(found->0) != "Plain Text"@ ==> chosen_syntax(
                style,
                path,
                lines,
            ) == found
        }),
        forall|i: int|
            0 <= i < lines.len() && vstd::utf8::encode_utf8(#[trigger] lines[i]).len() > 16384
                ==> highlighted(style, path, lines, ground) is None,
        highlighted(style, path, lines, ground) matches Some(spans) ==> spans.len() == lines.len(),
{
    if let Some(syntax) = chosen_syntax(style, path, lines) {
        lemma_a_line_each(lines, syntax, ground, lines.len() as int);
    }
}

proof fn lemma_a_line_each(
    lines: Seq<Seq<char>>,
    syntax: SyntaxReference,
    ground: ScopeStack,
    count: int,
)
    requires
        0 <= count,
    ensures
        lines_read(lines, syntax, ground, count) matches Some(read) ==> read.lines.len() == count,
    decreases count,
{
    if count > 0 {
        lemma_a_line_each(lines, syntax, ground, count - 1);
    }
}

} // verus!
