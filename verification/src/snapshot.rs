//! The structure of a document from its path and its lines: which parser reads
//! it, and what the parser's tree or events project to.

use crate::bytes::{bytes_equal, lowercase, lowercase_bytes, text};
use crate::folding::{
    code_regions_from, collect_code_regions, events_allowed, fold_tree, markdown_folds,
    markdown_regions, normalize_regions, CodeLanguage, FoldLimits, FoldRegion, RawRegion,
    WorkBudget,
};
use crate::markdown::{event_records, markdown_events, parsed_events, EventRecord, MarkdownEvent};
use crate::paths::{extension, path_extension, PathStyle};
use crate::source::{
    ascending, join_lines, joined, line_at, line_offsets, line_starts, line_starts_of, position_at,
    range_at, source_range, SourcePosition, SourceRange,
};
use crate::structure::{
    code_symbols, collect_code_symbols, heading_symbols, markdown_symbols, outline_after,
    sections_after, symbol_records, HeadingRecord, StructureLimits, StructureSource, StructureSymbol, SymbolRecord,
};
use crate::syntax::{
    is_listing, listing, parsed, records, syntax_nodes, Grammar, NodeRecord, SyntaxNode,
};
use crate::text::text_equal;
use vstd::prelude::*;
use vstd::utf8::is_char_boundary;

verus! {

/// The tokens of a source that can be looked up by position.
#[derive(Debug, PartialEq, Eq)]
pub struct RecognizableTokenIndex {
    pub ranges: Vec<SourceRange>,
    pub complete: bool,
}

/// The ranges are not empty, ascend, and do not overlap.
pub open spec fn apart(ranges: Seq<SourceRange>) -> bool {
    &&& forall|i: int|
        0 <= i < ranges.len() ==> (#[trigger] ranges[i]).start.before(ranges[i].end)
    &&& forall|i: int, j: int|
        0 <= i < j < ranges.len() ==> (#[trigger] ranges[i]).end.at_most(
            (#[trigger] ranges[j]).start,
        )
}

impl RecognizableTokenIndex {
    pub open spec fn well_formed(&self) -> bool {
        apart(self.ranges@)
    }

    pub fn empty(complete: bool) -> (index: Self)
        ensures
            index.ranges@ == Seq::<SourceRange>::empty(),
            index.complete == complete,
            index.well_formed(),
    {
        RecognizableTokenIndex { ranges: Vec::new(), complete }
    }

    /// The token that holds a position. An incomplete index holds none.
    pub fn containing(&self, point: SourcePosition) -> (found: Option<SourceRange>)
        requires
            self.well_formed(),
        ensures
            match found {
                Some(range) => self.complete && self.ranges@.contains(range) && range.holds(point),
                None => !self.complete || forall|i: int|
                    0 <= i < self.ranges@.len() ==> !(#[trigger] self.ranges@[i]).holds(point),
            },
    {
        if !self.complete {
            return None;
        }
        let mut low: usize = 0;
        let mut high: usize = self.ranges.len();
        while low < high
            invariant
                low <= high <= self.ranges@.len(),
                self.well_formed(),
                forall|i: int|
                    0 <= i < low ==> (#[trigger] self.ranges@[i]).start.at_most(point),
                forall|i: int|
                    high <= i < self.ranges@.len() ==> !(
                    #[trigger] self.ranges@[i]).start.at_most(point),
            decreases high - low,
        {
            let middle: usize = low + (high - low) / 2;
            if self.ranges[middle].start.is_at_most(point) {
                assert forall|i: int| 0 <= i < middle + 1 implies (
                #[trigger] self.ranges@[i]).start.at_most(point) by {
                    if i < middle {
                        assert(self.ranges@[i].end.at_most(self.ranges@[middle as int].start));
                        assert(self.ranges@[i].start.before(self.ranges@[i].end));
                    }
                }
                low = middle + 1;
            } else {
                assert forall|i: int| middle <= i < self.ranges@.len() implies !(
                #[trigger] self.ranges@[i]).start.at_most(point) by {
                    if middle < i {
                        assert(self.ranges@[middle as int].end.at_most(self.ranges@[i].start));
                        assert(self.ranges@[middle as int].start.before(
                            self.ranges@[middle as int].end,
                        ));
                    }
                }
                high = middle;
            }
        }
        if low == 0 {
            return None;
        }
        let range = self.ranges[low - 1];
        if range.contains(point) {
            assert(self.ranges@[low - 1] == range);
            Some(range)
        } else {
            assert forall|i: int| 0 <= i < self.ranges@.len() implies !(
            #[trigger] self.ranges@[i]).holds(point) by {
                if i < low - 1 {
                    assert(self.ranges@[i].end.at_most(self.ranges@[low - 1].start));
                }
            }
            None
        }
    }
}

// Tokens ----------------------------------------------------------------------------------

/// Node kinds that stand for a name in a source.
pub open spec fn is_token_kind(language: CodeLanguage, kind: Seq<char>) -> bool {
    match language {
        CodeLanguage::Rust => kind == "identifier"@ || kind == "type_identifier"@ || kind
            == "field_identifier"@,
        CodeLanguage::TypeScript | CodeLanguage::JavaScript => kind == "identifier"@ || kind
            == "property_identifier"@ || kind == "private_property_identifier"@ || kind
            == "type_identifier"@ || kind == "shorthand_property_identifier"@ || kind
            == "shorthand_property_identifier_pattern"@,
        CodeLanguage::Python => kind == "identifier"@,
        CodeLanguage::Go => kind == "identifier"@ || kind == "field_identifier"@ || kind
            == "type_identifier"@ || kind == "package_identifier"@,
    }
}

pub fn token_kind_is_allowlisted(language: CodeLanguage, kind: &str) -> (allowed: bool)
    ensures
        allowed == is_token_kind(language, kind@),
{
    match language {
        CodeLanguage::Rust => text_equal(kind, "identifier") || text_equal(
            kind,
            "type_identifier",
        ) || text_equal(kind, "field_identifier"),
        CodeLanguage::TypeScript | CodeLanguage::JavaScript => text_equal(kind, "identifier")
            || text_equal(kind, "property_identifier") || text_equal(
            kind,
            "private_property_identifier",
        ) || text_equal(kind, "type_identifier") || text_equal(
            kind,
            "shorthand_property_identifier",
        ) || text_equal(kind, "shorthand_property_identifier_pattern"),
        CodeLanguage::Python => text_equal(kind, "identifier"),
        CodeLanguage::Go => text_equal(kind, "identifier") || text_equal(kind, "field_identifier")
            || text_equal(kind, "type_identifier") || text_equal(kind, "package_identifier"),
    }
}

/// The node is a name: of the right kind, named, and with no named node in it.
pub open spec fn is_token(language: CodeLanguage, node: NodeRecord) -> bool {
    is_token_kind(language, node.kind) && node.named && node.named_children == 0
}

/// The bytes of a token lie in the source, are not empty, and cut no character.
pub open spec fn is_sound_token(source: Seq<u8>, node: NodeRecord) -> bool {
    !node.error && !node.missing && node.start < node.end && node.end <= source.len()
        && is_char_boundary(source, node.start as int) && is_char_boundary(
        source,
        node.end as int,
    )
}

/// Byte ranges are ordered by start, then by end.
pub open spec fn span_before(left: (usize, usize), right: (usize, usize)) -> bool {
    left.0 < right.0 || (left.0 == right.0 && left.1 < right.1)
}

/// `span` put in its place among ascending ones, once.
pub open spec fn span_placed(spans: Seq<(usize, usize)>, span: (usize, usize)) -> Seq<
    (usize, usize),
>
    decreases spans.len(),
{
    if spans.len() == 0 {
        spans.push(span)
    } else if spans.last() == span {
        spans
    } else if span_before(span, spans.last()) {
        span_placed(spans.drop_last(), span).push(spans.last())
    } else {
        spans.push(span)
    }
}

/// The tokens read so far in ascending order, and how many were read.
pub struct TokenState {
    pub spans: Seq<(usize, usize)>,
    pub found: int,
}

/// The tokens of the first `count` nodes, or nothing if a limit is passed or a
/// token is broken. Each node is one step of work.
pub open spec fn tokens_after(
    source: Seq<u8>,
    language: CodeLanguage,
    limits: StructureLimits,
    nodes: Seq<NodeRecord>,
    count: int,
) -> Option<TokenState>
    decreases count,
{
    if count <= 0 {
        Some(TokenState { spans: Seq::empty(), found: 0 })
    } else {
        match tokens_after(source, language, limits, nodes, count - 1) {
            None => None,
            Some(state) => {
                let node = nodes[count - 1];
                if !events_allowed(
                    count,
                    limits.max_token_nodes,
                    limits.cancel_tokens_after_work,
                ) {
                    None
                } else if !is_token(language, node) {
                    Some(state)
                } else if !is_sound_token(source, node) || state.found >= limits.max_tokens {
                    None
                } else {
                    Some(
                        TokenState {
                            spans: span_placed(state.spans, (node.start, node.end)),
                            found: state.found + 1,
                        },
                    )
                }
            },
        }
    }
}

/// No span reaches into the next one.
pub open spec fn spans_apart(spans: Seq<(usize, usize)>) -> bool {
    forall|i: int, j: int|
        0 <= i < j < spans.len() && j == i + 1 ==> (#[trigger] spans[i]).1 <= (
        #[trigger] spans[j]).0
}

/// The tokens of a source in ascending order; nothing if two of them overlap.
pub open spec fn code_tokens(
    source: Seq<u8>,
    starts: Seq<usize>,
    language: CodeLanguage,
    limits: StructureLimits,
    nodes: Seq<NodeRecord>,
) -> Option<Seq<SourceRange>> {
    match tokens_after(source, language, limits, nodes, nodes.len() as int) {
        None => None,
        Some(state) => if !spans_apart(state.spans) {
            None
        } else {
            Some(
                Seq::new(
                    state.spans.len(),
                    |i: int|
                        range_at(
                            source,
                            starts,
                            state.spans[i].0 as int,
                            state.spans[i].1 as int,
                        )->0,
                ),
            )
        },
    }
}

spec fn span_ok(source: Seq<u8>, span: (usize, usize)) -> bool {
    span.0 < span.1 && span.1 <= source.len() && is_char_boundary(source, span.0 as int)
        && is_char_boundary(source, span.1 as int)
}

proof fn lemma_span_placed(spans: Seq<(usize, usize)>, span: (usize, usize), source: Seq<u8>)
    requires
        span_ok(source, span),
        forall|i: int| 0 <= i < spans.len() ==> span_ok(source, #[trigger] spans[i]),
    ensures
        forall|i: int|
            0 <= i < span_placed(spans, span).len() ==> span_ok(
                source,
                #[trigger] span_placed(spans, span)[i],
            ),
    decreases spans.len(),
{
    let all = span_placed(spans, span);
    if spans.len() > 0 && spans.last() != span && span_before(span, spans.last()) {
        let shorter = spans.drop_last();
        assert forall|i: int| 0 <= i < shorter.len() implies span_ok(
            source,
            #[trigger] shorter[i],
        ) by {
            assert(shorter[i] == spans[i]);
        }
        lemma_span_placed(shorter, span, source);
        let inner = span_placed(shorter, span);
        assert forall|i: int| 0 <= i < all.len() implies span_ok(source, #[trigger] all[i]) by {
            if i < inner.len() {
                assert(all[i] == inner[i]);
            } else {
                assert(all[i] == spans[spans.len() - 1]);
            }
        }
    } else {
        assert forall|i: int| 0 <= i < all.len() implies span_ok(source, #[trigger] all[i]) by {
            if i < spans.len() {
                assert(all[i] == spans[i]);
            }
        }
    }
}

proof fn lemma_tokens_after(
    source: Seq<u8>,
    language: CodeLanguage,
    limits: StructureLimits,
    nodes: Seq<NodeRecord>,
    count: int,
)
    ensures
        tokens_after(source, language, limits, nodes, count) matches Some(state) ==> state.found
            >= 0 && forall|i: int|
            0 <= i < state.spans.len() ==> span_ok(source, #[trigger] state.spans[i]),
    decreases count,
{
    if count > 0 {
        lemma_tokens_after(source, language, limits, nodes, count - 1);
        if tokens_after(source, language, limits, nodes, count - 1) is Some {
            let state = tokens_after(source, language, limits, nodes, count - 1)->0;
            let node = nodes[count - 1];
            if is_token(language, node) && is_sound_token(source, node) {
                lemma_span_placed(state.spans, (node.start, node.end), source);
            }
        }
    }
}

proof fn lemma_token_failure(
    source: Seq<u8>,
    language: CodeLanguage,
    limits: StructureLimits,
    nodes: Seq<NodeRecord>,
    count: int,
    total: int,
)
    requires
        0 <= count <= total,
    ensures
        tokens_after(source, language, limits, nodes, count) is None ==> tokens_after(
            source,
            language,
            limits,
            nodes,
            total,
        ) is None,
    decreases total,
{
    if count < total {
        lemma_token_failure(source, language, limits, nodes, count, total - 1);
    }
}

proof fn lemma_leading(starts: Seq<usize>, byte: int)
    requires
        ascending(starts),
        starts.len() > 0,
        starts[0] == 0,
        0 <= byte,
    ensures
        ({
            let line = line_at(starts, byte);
            &&& 0 <= line < starts.len()
            &&& starts[line] <= byte
            &&& line + 1 < starts.len() ==> byte < starts[line + 1]
        }),
{
    lemma_leading_count(starts, byte);
}

proof fn lemma_leading_count(starts: Seq<usize>, byte: int)
    requires
        ascending(starts),
    ensures
        ({
            let count = crate::source::leading_at_most(starts, byte);
            &&& 0 <= count <= starts.len()
            &&& count > 0 ==> starts[count - 1] <= byte
            &&& count < starts.len() ==> byte < starts[count]
        }),
    decreases starts.len(),
{
    if starts.len() > 0 && starts[0] <= byte {
        let rest = starts.subrange(1, starts.len() as int);
        assert(ascending(rest));
        lemma_leading_count(rest, byte);
        let count = crate::source::leading_at_most(rest, byte);
        if count > 0 {
            assert(rest[count - 1] == starts[count]);
        }
        if count < rest.len() {
            assert(rest[count] == starts[count + 1]);
        }
    }
}

proof fn lemma_ascending_bound(starts: Seq<usize>, i: int)
    requires
        ascending(starts),
        0 <= i < starts.len(),
    ensures
        i <= starts[i],
    decreases i,
{
    if i > 0 {
        lemma_ascending_bound(starts, i - 1);
        assert(starts[i - 1] < starts[i]);
    }
}

/// Later bytes have later positions.
proof fn lemma_positions_ascend(source: Seq<u8>, starts: Seq<usize>, left: int, right: int)
    requires
        line_starts_of(starts, source),
        0 <= left <= right <= source.len(),
        source.len() <= usize::MAX,
        is_char_boundary(source, left),
        is_char_boundary(source, right),
    ensures
        position_at(source, starts, left) is Some,
        position_at(source, starts, right) is Some,
        position_at(source, starts, left)->0.at_most(position_at(source, starts, right)->0),
        left < right ==> position_at(source, starts, left)->0.before(
            position_at(source, starts, right)->0,
        ),
{
    lemma_leading(starts, left);
    lemma_leading(starts, right);
    let first = line_at(starts, left);
    let last = line_at(starts, right);
    lemma_ascending_bound(starts, first);
    lemma_ascending_bound(starts, last);
    if first > last {
        assert(starts[last + 1] <= starts[first]) by {
            if last + 1 < first {
                assert(starts[last + 1] < starts[first]);
            }
        }
    }
}

/// The tokens of a source are apart, so a position lies in at most one of them.
pub proof fn law_tokens_are_apart(
    source: Seq<u8>,
    starts: Seq<usize>,
    language: CodeLanguage,
    limits: StructureLimits,
    nodes: Seq<NodeRecord>,
)
    requires
        line_starts_of(starts, source),
        source.len() <= usize::MAX,
    ensures
        code_tokens(source, starts, language, limits, nodes) matches Some(ranges) ==> apart(ranges),
{
    lemma_tokens_after(source, language, limits, nodes, nodes.len() as int);
    if code_tokens(source, starts, language, limits, nodes) is Some {
        let spans = tokens_after(source, language, limits, nodes, nodes.len() as int)->0.spans;
        let ranges = code_tokens(source, starts, language, limits, nodes)->0;
        assert forall|i: int| 0 <= i < ranges.len() implies (
        #[trigger] ranges[i]).start.before(ranges[i].end) by {
            assert(span_ok(source, spans[i]));
            lemma_positions_ascend(source, starts, spans[i].0 as int, spans[i].1 as int);
        }
        assert forall|i: int, j: int| 0 <= i < j < ranges.len() implies (
        #[trigger] ranges[i]).end.at_most((#[trigger] ranges[j]).start) by {
            lemma_spans_apart(spans, source, i, j);
            assert(span_ok(source, spans[i]));
            assert(span_ok(source, spans[j]));
            lemma_positions_ascend(source, starts, spans[i].0 as int, spans[i].1 as int);
            lemma_positions_ascend(source, starts, spans[j].0 as int, spans[j].1 as int);
            lemma_positions_ascend(source, starts, spans[i].1 as int, spans[j].0 as int);
        }
    }
}

proof fn lemma_spans_apart(spans: Seq<(usize, usize)>, source: Seq<u8>, i: int, j: int)
    requires
        spans_apart(spans),
        0 <= i < j < spans.len(),
        forall|k: int| 0 <= k < spans.len() ==> span_ok(source, #[trigger] spans[k]),
    ensures
        spans[i].1 <= spans[j].0,
    decreases j - i,
{
    if i + 1 < j {
        lemma_spans_apart(spans, source, i, j - 1);
        assert(span_ok(source, spans[j - 1]));
        assert(spans[j - 1].1 <= spans[j].0);
    } else {
        assert(spans[i].1 <= spans[j].0);
    }
}

fn place_span(spans: &mut Vec<(usize, usize)>, span: (usize, usize))
    ensures
        final(spans)@ == span_placed(old(spans)@, span),
{
    let ghost given = spans@;
    let mut at: usize = spans.len();
    let ghost mut behind = Seq::<(usize, usize)>::empty();
    proof {
        assert(given.subrange(0, given.len() as int) =~= given);
        assert(span_placed(given, span) + behind =~= span_placed(given, span));
    }
    while at > 0
        invariant
            at <= spans@.len(),
            spans@ == given,
            behind == given.subrange(at as int, given.len() as int),
            span_placed(given.subrange(0, at as int), span) + behind == span_placed(given, span),
        ensures
            at <= spans@.len(),
            spans@ == given,
            behind == given.subrange(at as int, given.len() as int),
            span_placed(given, span) == given.subrange(0, at as int).push(span) + behind,
        decreases at,
    {
        let last = spans[at - 1];
        let ghost prefix = given.subrange(0, at as int);
        if last.0 == span.0 && last.1 == span.1 {
            assert(prefix + behind =~= given);
            return ;
        }
        if !(span.0 < last.0 || (span.0 == last.0 && span.1 < last.1)) {
            break;
        }
        proof {
            assert(prefix.drop_last() =~= given.subrange(0, at - 1));
            let next = given.subrange(at - 1, given.len() as int);
            assert(next =~= seq![prefix.last()] + behind);
            assert(span_placed(prefix.drop_last(), span).push(prefix.last()) + behind
                =~= span_placed(prefix.drop_last(), span) + next);
            behind = next;
        }
        at = at - 1;
    }
    spans.insert(at, span);
    assert(spans@ =~= given.subrange(0, at as int).push(span) + behind);
}

/// The tokens of a listed syntax tree, or nothing if a limit is passed, a token
/// is broken or two overlap.
pub fn collect_recognizable_tokens(
    nodes: &Vec<SyntaxNode>,
    source: &str,
    starts: &[usize],
    language: CodeLanguage,
    limits: StructureLimits,
) -> (result: Option<Vec<SourceRange>>)
    requires
        line_starts_of(starts@, text(source)),
    ensures
        match code_tokens(text(source), starts@, language, limits, records(nodes@)) {
            None => result is None,
            Some(expected) => result matches Some(found) && found@ == expected && apart(found@),
        },
{
    let ghost listed = records(nodes@);
    let ghost bytes = text(source);
    let length: usize = source.as_bytes().len();
    let mut spans: Vec<(usize, usize)> = Vec::new();
    let mut found: usize = 0;
    let mut budget = WorkBudget::new(limits.cancel_tokens_after_work);
    let mut index: usize = 0;
    while index < nodes.len()
        invariant
            index <= nodes@.len(),
            listed == records(nodes@),
            bytes == text(source),
            length == bytes.len(),
            budget.used == index,
            budget.cancel_after == limits.cancel_tokens_after_work,
            found <= limits.max_tokens,
            tokens_after(bytes, language, limits, listed, index as int) == Some(
                TokenState { spans: spans@, found: found as int },
            ),
        decreases nodes@.len() - index,
    {
        proof {
            lemma_token_failure(
                bytes,
                language,
                limits,
                listed,
                index + 1,
                listed.len() as int,
            );
            assert(listed[index as int] == nodes@[index as int]@);
        }
        if index >= limits.max_token_nodes || !budget.step() {
            return None;
        }
        let node = &nodes[index];
        if token_kind_is_allowlisted(language, node.kind.as_str()) && node.named
            && node.named_children == 0 {
            if node.error || node.missing || found >= limits.max_tokens {
                return None;
            }
            if node.start >= node.end || node.end > length || !source.is_char_boundary(node.start)
                || !source.is_char_boundary(node.end) {
                return None;
            }
            place_span(&mut spans, (node.start, node.end));
            found = found + 1;
        }
        index = index + 1;
    }
    proof {
        lemma_tokens_after(bytes, language, limits, listed, listed.len() as int);
        law_tokens_are_apart(bytes, starts@, language, limits, listed);
    }
    let mut at: usize = 1;
    while at < spans.len()
        invariant
            1 <= at,
            forall|i: int, j: int|
                0 <= i < j < at && j == i + 1 && j < spans@.len() ==> (#[trigger] spans@[i]).1 <= (
                #[trigger] spans@[j]).0,
            tokens_after(bytes, language, limits, listed, listed.len() as int) == Some(
                TokenState { spans: spans@, found: found as int },
            ),
            bytes == text(source),
            listed == records(nodes@),
        decreases spans@.len() - at,
    {
        if spans[at - 1].1 > spans[at].0 {
            return None;
        }
        at = at + 1;
    }
    assert(spans_apart(spans@));
    let mut ranges: Vec<SourceRange> = Vec::new();
    let mut next: usize = 0;
    while next < spans.len()
        invariant
            next <= spans@.len(),
            ranges@.len() == next,
            bytes == text(source),
            length == bytes.len(),
            line_starts_of(starts@, bytes),
            forall|i: int| 0 <= i < spans@.len() ==> span_ok(bytes, #[trigger] spans@[i]),
            forall|i: int|
                0 <= i < next ==> #[trigger] ranges@[i] == range_at(
                    bytes,
                    starts@,
                    spans@[i].0 as int,
                    spans@[i].1 as int,
                )->0,
        decreases spans@.len() - next,
    {
        proof {
            assert(span_ok(bytes, spans@[next as int]));
            lemma_positions_ascend(
                bytes,
                starts@,
                spans@[next as int].0 as int,
                spans@[next as int].1 as int,
            );
        }
        match source_range(source, starts, spans[next].0, spans[next].1) {
            None => {
                return None;
            },
            Some(range) => {
                ranges.push(range);
            },
        }
        next = next + 1;
    }
    proof {
        let expected = code_tokens(bytes, starts@, language, limits, listed)->0;
        assert(ranges@ =~= expected);
    }
    Some(ranges)
}

// Documents -------------------------------------------------------------------------------

/// How a document is read.
#[derive(Clone, Copy, Debug, PartialEq, Eq, Structural)]
pub enum DocumentKind {
    Markdown,
    Code(CodeLanguage, Grammar),
    Plain,
}

/// The extension of a path in small letters, or nothing.
pub open spec fn small_extension(style: PathStyle, path: Seq<u8>) -> Seq<u8> {
    match extension(style, path) {
        Some(bytes) => lowercase(bytes),
        None => Seq::empty(),
    }
}

/// A document is read by the extension of its path.
pub open spec fn document_kind(style: PathStyle, path: Seq<u8>) -> DocumentKind {
    let ending = small_extension(style, path);
    if ending == text("md") || ending == text("markdown") {
        DocumentKind::Markdown
    } else if ending == text("rs") {
        DocumentKind::Code(CodeLanguage::Rust, Grammar::Rust)
    } else if ending == text("ts") || ending == text("mts") || ending == text("cts") {
        DocumentKind::Code(CodeLanguage::TypeScript, Grammar::TypeScript)
    } else if ending == text("tsx") {
        DocumentKind::Code(CodeLanguage::TypeScript, Grammar::Tsx)
    } else if ending == text("js") || ending == text("mjs") || ending == text("cjs") || ending
        == text("jsx") {
        DocumentKind::Code(CodeLanguage::JavaScript, Grammar::JavaScript)
    } else if ending == text("py") || ending == text("pyi") {
        DocumentKind::Code(CodeLanguage::Python, Grammar::Python)
    } else if ending == text("go") {
        DocumentKind::Code(CodeLanguage::Go, Grammar::Go)
    } else {
        DocumentKind::Plain
    }
}

fn ending_is(ending: &Vec<u8>, literal: &str) -> (same: bool)
    ensures
        same == (ending@ == text(literal)),
{
    bytes_equal(ending.as_slice(), literal.as_bytes())
}

pub fn kind_of_document(style: PathStyle, path: &[u8]) -> (kind: DocumentKind)
    ensures
        kind == document_kind(style, path@),
{
    let ending = match path_extension(style, path) {
        Some(bytes) => lowercase_bytes(bytes),
        None => Vec::new(),
    };
    if ending_is(&ending, "md") || ending_is(&ending, "markdown") {
        DocumentKind::Markdown
    } else if ending_is(&ending, "rs") {
        DocumentKind::Code(CodeLanguage::Rust, Grammar::Rust)
    } else if ending_is(&ending, "ts") || ending_is(&ending, "mts") || ending_is(&ending, "cts") {
        DocumentKind::Code(CodeLanguage::TypeScript, Grammar::TypeScript)
    } else if ending_is(&ending, "tsx") {
        DocumentKind::Code(CodeLanguage::TypeScript, Grammar::Tsx)
    } else if ending_is(&ending, "js") || ending_is(&ending, "mjs") || ending_is(&ending, "cjs")
        || ending_is(&ending, "jsx") {
        DocumentKind::Code(CodeLanguage::JavaScript, Grammar::JavaScript)
    } else if ending_is(&ending, "py") || ending_is(&ending, "pyi") {
        DocumentKind::Code(CodeLanguage::Python, Grammar::Python)
    } else if ending_is(&ending, "go") {
        DocumentKind::Code(CodeLanguage::Go, Grammar::Go)
    } else {
        DocumentKind::Plain
    }
}

/// The line offsets of a text as machine integers.
pub open spec fn starts_of(source: Seq<u8>) -> Seq<usize> {
    Seq::new(line_offsets(source).len(), |i: int| line_offsets(source)[i] as usize)
}

fn starts_in(source: &str) -> (starts: Vec<usize>)
    ensures
        starts@ == starts_of(text(source)),
        line_starts_of(starts@, text(source)),
{
    let starts = line_starts(source.as_bytes());
    proof {
        let offsets = line_offsets(text(source));
        assert forall|i: int| 0 <= i < offsets.len() implies starts@[i] == starts_of(
            text(source),
        )[i] by {
            assert(crate::source::as_ints(starts@)[i] == offsets[i]);
        }
        assert(starts@ =~= starts_of(text(source)));
    }
    starts
}

/// The regions of a listed tree before they are fitted together.
pub open spec fn code_folds(
    nodes: Seq<NodeRecord>,
    source: Seq<u8>,
    language: CodeLanguage,
    limits: FoldLimits,
) -> Option<Seq<RawRegion>> {
    code_regions_from(
        nodes,
        0,
        source.len() as int,
        starts_of(source),
        language,
        limits.max_nodes,
        WorkBudget::fresh(limits.cancel_after_work),
    )
}

/// A fold tree of regions that may have failed.
pub open spec fn tree_or_nothing(
    raw: Option<Seq<RawRegion>>,
    lines: Seq<String>,
    limits: FoldLimits,
) -> Seq<FoldRegion> {
    match raw {
        None => Seq::empty(),
        Some(regions) => fold_tree(regions, lines, limits.max_regions),
    }
}

/// The folds of a document. One line cannot be folded.
pub open spec fn document_folds(
    style: PathStyle,
    path: Seq<u8>,
    lines: Seq<String>,
    limits: FoldLimits,
) -> Seq<
    FoldRegion,
> {
    let words = joined(lines);
    let source = vstd::utf8::encode_utf8(words);
    if lines.len() < 2 {
        Seq::empty()
    } else {
        match document_kind(style, path) {
            DocumentKind::Markdown => tree_or_nothing(
                markdown_folds(
                    parsed_events(words),
                    source.len() as int,
                    starts_of(source),
                    limits.max_markdown_events,
                    limits.cancel_after_work,
                ),
                lines,
                limits,
            ),
            DocumentKind::Code(language, grammar) => match parsed(words, grammar) {
                None => Seq::empty(),
                Some(tree) => tree_or_nothing(
                    code_folds(listing(tree, None, 0, 0), source, language, limits),
                    lines,
                    limits,
                ),
            },
            DocumentKind::Plain => fold_tree(Seq::empty(), lines, limits.max_regions),
        }
    }
}

fn fitted(raw: Option<Vec<RawRegion>>, lines: &Vec<String>, limits: FoldLimits) -> (folds: Vec<
    FoldRegion,
>)
    ensures
        folds@ == tree_or_nothing(
            match raw {
                None => None,
                Some(regions) => Some(regions@),
            },
            lines@,
            limits,
        ),
{
    match raw {
        None => Vec::new(),
        Some(regions) => normalize_regions(&regions, lines, limits.max_regions),
    }
}

/// The folds of a document, for the path that says how to read it.
pub fn fold_regions_with_limits(
    style: PathStyle,
    path: &[u8],
    lines: &Vec<String>,
    limits: FoldLimits,
) -> (folds: Vec<FoldRegion>)
    ensures
        folds@ == document_folds(style, path@, lines@, limits),
{
    if lines.len() < 2 {
        return Vec::new();
    }
    let words = join_lines(lines);
    let source = words.as_str();
    let starts = starts_in(source);
    let length: usize = source.as_bytes().len();
    match kind_of_document(style, path) {
        DocumentKind::Markdown => {
            let events = markdown_events(source);
            let raw = markdown_regions(
                &events,
                length,
                starts.as_slice(),
                limits.max_markdown_events,
                limits.cancel_after_work,
            );
            fitted(raw, lines, limits)
        },
        DocumentKind::Code(language, grammar) => match syntax_nodes(source, grammar) {
            None => Vec::new(),
            Some(nodes) => {
                let raw = collect_code_regions(
                    &nodes,
                    length,
                    starts.as_slice(),
                    language,
                    limits.max_nodes,
                    limits.cancel_after_work,
                );
                fitted(raw, lines, limits)
            },
        },
        DocumentKind::Plain => {
            let raw: Vec<RawRegion> = Vec::new();
            normalize_regions(&raw, lines, limits.max_regions)
        },
    }
}

/// The folds of a document within the usual limits.
pub fn fold_regions(style: PathStyle, path: &[u8], lines: &Vec<String>) -> (folds: Vec<FoldRegion>)
    ensures
        folds@ == document_folds(style, path@, lines@, FoldLimits::usual()),
{
    fold_regions_with_limits(style, path, lines, FoldLimits::default())
}

/// Folds, symbols and tokens of one state of a document.
#[derive(Debug, PartialEq, Eq)]
pub struct StructureSnapshot {
    pub source: StructureSource,
    pub folds: Vec<FoldRegion>,
    pub symbols: Vec<StructureSymbol>,
    pub symbols_complete: bool,
    pub recognizable_tokens: RecognizableTokenIndex,
}

/// What a snapshot says. A projection that failed is empty and not complete.
pub struct SnapshotRecord {
    pub source: StructureSource,
    pub folds: Seq<FoldRegion>,
    pub symbols: Option<Seq<SymbolRecord>>,
    pub tokens: Option<Seq<SourceRange>>,
}

impl StructureSnapshot {
    /// The snapshot says what the record does.
    pub open spec fn says(&self, record: SnapshotRecord) -> bool {
        &&& self.source == record.source
        &&& self.folds@ == record.folds
        &&& match record.symbols {
            None => self.symbols@.len() == 0 && !self.symbols_complete,
            Some(symbols) => symbol_records(self.symbols@) == symbols && self.symbols_complete,
        }
        &&& match record.tokens {
            None => self.recognizable_tokens.ranges@.len() == 0
                && !self.recognizable_tokens.complete,
            Some(ranges) => self.recognizable_tokens.ranges@ == ranges
                && self.recognizable_tokens.complete,
        }
        &&& self.recognizable_tokens.well_formed()
    }

    pub fn unavailable() -> (snapshot: Self)
        ensures
            snapshot.says(no_structure()),
    {
        StructureSnapshot {
            source: StructureSource::Absent,
            folds: Vec::new(),
            symbols: Vec::new(),
            symbols_complete: false,
            recognizable_tokens: RecognizableTokenIndex::empty(false),
        }
    }
}

/// The record of a document that no parser reads.
pub open spec fn no_structure() -> SnapshotRecord {
    SnapshotRecord {
        source: StructureSource::Absent,
        folds: Seq::empty(),
        symbols: None,
        tokens: None,
    }
}

/// The record of a source that could not be parsed.
pub open spec fn failed_structure() -> SnapshotRecord {
    SnapshotRecord { source: StructureSource::TreeSitter, ..no_structure() }
}

/// The three projections of a listed tree. Each has limits of its own.
pub open spec fn code_structure(
    nodes: Seq<NodeRecord>,
    source: Seq<u8>,
    lines: Seq<String>,
    language: CodeLanguage,
    limits: StructureLimits,
) -> SnapshotRecord {
    SnapshotRecord {
        source: StructureSource::TreeSitter,
        folds: tree_or_nothing(
            code_folds(nodes, source, language, limits.fold),
            lines,
            limits.fold,
        ),
        symbols: code_symbols(source, starts_of(source), language, limits, nodes),
        tokens: code_tokens(source, starts_of(source), language, limits, nodes),
    }
}

/// The projections of a markdown document, in which no token is looked up.
pub open spec fn markdown_structure(
    events: Seq<EventRecord>,
    source: Seq<u8>,
    lines: Seq<String>,
    limits: StructureLimits,
) -> SnapshotRecord {
    SnapshotRecord {
        source: StructureSource::Markdown,
        folds: tree_or_nothing(
            markdown_folds(
                events,
                source.len() as int,
                starts_of(source),
                limits.fold.max_markdown_events,
                limits.fold.cancel_after_work,
            ),
            lines,
            limits.fold,
        ),
        symbols: heading_symbols(source, starts_of(source), limits, events),
        tokens: Some(Seq::empty()),
    }
}

/// The structure of a document.
pub open spec fn document_structure(
    style: PathStyle,
    path: Seq<u8>,
    lines: Seq<String>,
    limits: StructureLimits,
) -> SnapshotRecord {
    let words = joined(lines);
    let source = vstd::utf8::encode_utf8(words);
    match document_kind(style, path) {
        DocumentKind::Markdown => markdown_structure(parsed_events(words), source, lines, limits),
        DocumentKind::Code(language, grammar) => match parsed(words, grammar) {
            None => failed_structure(),
            Some(tree) => code_structure(
                listing(tree, None, 0, 0),
                source,
                lines,
                language,
                limits,
            ),
        },
        DocumentKind::Plain => no_structure(),
    }
}

/// The structure of a source whose syntax tree is listed in `nodes`.
pub fn code_structure_snapshot(
    nodes: &Vec<SyntaxNode>,
    source: &str,
    lines: &Vec<String>,
    language: CodeLanguage,
    limits: StructureLimits,
) -> (snapshot: StructureSnapshot)
    requires
        is_listing(records(nodes@)),
    ensures
        snapshot.says(
            code_structure(records(nodes@), text(source), lines@, language, limits),
        ),
{
    let starts = starts_in(source);
    let raw = collect_code_regions(
        nodes,
        source.as_bytes().len(),
        starts.as_slice(),
        language,
        limits.fold.max_nodes,
        limits.fold.cancel_after_work,
    );
    let folds = fitted(raw, lines, limits.fold);
    let (symbols, symbols_complete) = match collect_code_symbols(
        nodes,
        source,
        starts.as_slice(),
        language,
        limits,
    ) {
        None => (Vec::new(), false),
        Some(symbols) => (symbols, true),
    };
    let recognizable_tokens = match collect_recognizable_tokens(
        nodes,
        source,
        starts.as_slice(),
        language,
        limits,
    ) {
        None => RecognizableTokenIndex::empty(false),
        Some(ranges) => RecognizableTokenIndex { ranges, complete: true },
    };
    StructureSnapshot {
        source: StructureSource::TreeSitter,
        folds,
        symbols,
        symbols_complete,
        recognizable_tokens,
    }
}

fn failed_code_structure_snapshot() -> (snapshot: StructureSnapshot)
    ensures
        snapshot.says(failed_structure()),
{
    StructureSnapshot {
        source: StructureSource::TreeSitter,
        folds: Vec::new(),
        symbols: Vec::new(),
        symbols_complete: false,
        recognizable_tokens: RecognizableTokenIndex::empty(false),
    }
}

/// The structure of a markdown document with these events.
pub fn markdown_structure_snapshot(
    events: &Vec<MarkdownEvent>,
    source: &str,
    lines: &Vec<String>,
    limits: StructureLimits,
) -> (snapshot: StructureSnapshot)
    ensures
        snapshot.says(markdown_structure(event_records(events@), text(source), lines@, limits)),
{
    let starts = starts_in(source);
    let raw = markdown_regions(
        events,
        source.as_bytes().len(),
        starts.as_slice(),
        limits.fold.max_markdown_events,
        limits.fold.cancel_after_work,
    );
    let folds = fitted(raw, lines, limits.fold);
    let (symbols, symbols_complete) = match markdown_symbols(
        events,
        source,
        starts.as_slice(),
        limits,
    ) {
        None => (Vec::new(), false),
        Some(symbols) => (symbols, true),
    };
    StructureSnapshot {
        source: StructureSource::Markdown,
        folds,
        symbols,
        symbols_complete,
        recognizable_tokens: RecognizableTokenIndex::empty(true),
    }
}

/// Reads a document once and projects its structure.
pub fn structure_snapshot_with_limits(
    style: PathStyle,
    path: &[u8],
    lines: &Vec<String>,
    limits: StructureLimits,
) -> (snapshot: StructureSnapshot)
    ensures
        snapshot.says(document_structure(style, path@, lines@, limits)),
{
    let words = join_lines(lines);
    let source = words.as_str();
    match kind_of_document(style, path) {
        DocumentKind::Markdown => {
            let events = markdown_events(source);
            markdown_structure_snapshot(&events, source, lines, limits)
        },
        DocumentKind::Code(language, grammar) => match syntax_nodes(source, grammar) {
            None => failed_code_structure_snapshot(),
            Some(nodes) => code_structure_snapshot(&nodes, source, lines, language, limits),
        },
        DocumentKind::Plain => StructureSnapshot::unavailable(),
    }
}

/// The structure of a document within the usual limits.
pub fn structure_snapshot(style: PathStyle, path: &[u8], lines: &Vec<String>) -> (snapshot:
    StructureSnapshot)
    ensures
        snapshot.says(document_structure(style, path@, lines@, StructureLimits::usual())),
{
    structure_snapshot_with_limits(style, path, lines, StructureLimits::default())
}

/// The limits of the symbols are the same.
pub open spec fn same_symbol_limits(left: StructureLimits, right: StructureLimits) -> bool {
    &&& left.max_symbol_nodes == right.max_symbol_nodes
    &&& left.max_markdown_symbol_events == right.max_markdown_symbol_events
    &&& left.max_symbols == right.max_symbols
    &&& left.max_symbol_depth == right.max_symbol_depth
    &&& left.cancel_symbols_after_work == right.cancel_symbols_after_work
}

/// The limits of the tokens are the same.
pub open spec fn same_token_limits(left: StructureLimits, right: StructureLimits) -> bool {
    &&& left.max_token_nodes == right.max_token_nodes
    &&& left.max_tokens == right.max_tokens
    &&& left.cancel_tokens_after_work == right.cancel_tokens_after_work
}

/// What two structures have in common by the limits that they share.
pub open spec fn agree_on_shared_limits(
    first: SnapshotRecord,
    second: SnapshotRecord,
    left: StructureLimits,
    right: StructureLimits,
) -> bool {
    &&& first.source == second.source
    &&& left.fold == right.fold ==> first.folds == second.folds
    &&& same_symbol_limits(left, right) ==> first.symbols == second.symbols
    &&& same_token_limits(left, right) ==> first.tokens == second.tokens
}

/// The three projections of a document are independent: each depends on its own
/// limits only, so a limit that makes one of them fail leaves the others as they were.
pub proof fn law_projections_are_independent(
    style: PathStyle,
    path: Seq<u8>,
    lines: Seq<String>,
    left: StructureLimits,
    right: StructureLimits,
)
    ensures
        agree_on_shared_limits(
            document_structure(style, path, lines, left),
            document_structure(style, path, lines, right),
            left,
            right,
        ),
{
    let words = joined(lines);
    let source = vstd::utf8::encode_utf8(words);
    match document_kind(style, path) {
        DocumentKind::Markdown => {
            law_markdown_projections_are_independent(
                parsed_events(words),
                source,
                lines,
                left,
                right,
            );
        },
        DocumentKind::Code(language, grammar) => {
            if parsed(words, grammar) is Some {
                let nodes = listing(parsed(words, grammar)->0, None, 0, 0);
                law_code_projections_are_independent(nodes, source, lines, language, left, right);
            }
        },
        DocumentKind::Plain => {},
    }
}

/// The projections of a syntax tree are independent, whatever its nodes are.
pub proof fn law_code_projections_are_independent(
    nodes: Seq<NodeRecord>,
    source: Seq<u8>,
    lines: Seq<String>,
    language: CodeLanguage,
    left: StructureLimits,
    right: StructureLimits,
)
    ensures
        agree_on_shared_limits(
            code_structure(nodes, source, lines, language, left),
            code_structure(nodes, source, lines, language, right),
            left,
            right,
        ),
{
    let count = nodes.len() as int;
    if same_symbol_limits(left, right) {
        lemma_symbols_by_their_limits(source, language, nodes, left, right, count);
    }
    if same_token_limits(left, right) {
        lemma_tokens_by_their_limits(source, language, nodes, left, right, count);
    }
}

/// The projections of a markdown document are independent, whatever its events are.
pub proof fn law_markdown_projections_are_independent(
    events: Seq<EventRecord>,
    source: Seq<u8>,
    lines: Seq<String>,
    left: StructureLimits,
    right: StructureLimits,
)
    ensures
        agree_on_shared_limits(
            markdown_structure(events, source, lines, left),
            markdown_structure(events, source, lines, right),
            left,
            right,
        ),
{
    if same_symbol_limits(left, right) {
        let starts = starts_of(source);
        let count = events.len() as int;
        lemma_outline_by_its_limits(events, starts, left, right, count);
        if outline_after(events, starts, left, count) is Some {
            let headings = outline_after(events, starts, left, count)->0.headings;
            lemma_sections_by_their_limits(
                source,
                starts,
                headings,
                left,
                right,
                headings.len() as int,
            );
        }
    }
}

proof fn lemma_outline_by_its_limits(
    events: Seq<EventRecord>,
    starts: Seq<usize>,
    left: StructureLimits,
    right: StructureLimits,
    count: int,
)
    requires
        same_symbol_limits(left, right),
    ensures
        outline_after(events, starts, left, count) == outline_after(events, starts, right, count),
    decreases count,
{
    if count > 0 {
        lemma_outline_by_its_limits(events, starts, left, right, count - 1);
    }
}

proof fn lemma_sections_by_their_limits(
    source: Seq<u8>,
    starts: Seq<usize>,
    headings: Seq<HeadingRecord>,
    left: StructureLimits,
    right: StructureLimits,
    count: int,
)
    requires
        same_symbol_limits(left, right),
    ensures
        sections_after(source, starts, left, headings, count) == sections_after(
            source,
            starts,
            right,
            headings,
            count,
        ),
    decreases count,
{
    if count > 0 {
        lemma_sections_by_their_limits(source, starts, headings, left, right, count - 1);
    }
}

proof fn lemma_symbols_by_their_limits(
    source: Seq<u8>,
    language: CodeLanguage,
    nodes: Seq<NodeRecord>,
    left: StructureLimits,
    right: StructureLimits,
    count: int,
)
    requires
        same_symbol_limits(left, right),
    ensures
        crate::structure::symbols_after(
            source,
            starts_of(source),
            language,
            left,
            nodes,
            count,
        ) == crate::structure::symbols_after(
            source,
            starts_of(source),
            language,
            right,
            nodes,
            count,
        ),
    decreases count,
{
    if count > 0 {
        lemma_symbols_by_their_limits(source, language, nodes, left, right, count - 1);
    }
}

proof fn lemma_tokens_by_their_limits(
    source: Seq<u8>,
    language: CodeLanguage,
    nodes: Seq<NodeRecord>,
    left: StructureLimits,
    right: StructureLimits,
    count: int,
)
    requires
        same_token_limits(left, right),
    ensures
        tokens_after(source, language, left, nodes, count) == tokens_after(
            source,
            language,
            right,
            nodes,
            count,
        ),
    decreases count,
{
    if count > 0 {
        lemma_tokens_by_their_limits(source, language, nodes, left, right, count - 1);
    }
}

// What words are --------------------------------------------------------------------------

/// A node that is a word of its language: a name without further parts.
pub open spec fn is_word(language: CodeLanguage, node: NodeRecord) -> bool {
    &&& node.named
    &&& node.named_children == 0
    &&& match language {
        CodeLanguage::Rust => node.kind == "identifier"@ || node.kind == "type_identifier"@
            || node.kind == "field_identifier"@,
        CodeLanguage::TypeScript | CodeLanguage::JavaScript => node.kind == "identifier"@
            || node.kind == "type_identifier"@ || node.kind == "property_identifier"@ || node.kind
            == "private_property_identifier"@ || node.kind == "shorthand_property_identifier"@
            || node.kind == "shorthand_property_identifier_pattern"@,
        CodeLanguage::Python => node.kind == "identifier"@,
        CodeLanguage::Go => node.kind == "identifier"@ || node.kind == "type_identifier"@
            || node.kind == "field_identifier"@ || node.kind == "package_identifier"@,
    }
}

proof fn lemma_span_among(spans: Seq<(usize, usize)>, span: (usize, usize))
    ensures
        span_placed(spans, span).contains(span),
        forall|i: int| 0 <= i < spans.len() ==> span_placed(spans, span).contains(#[trigger] spans[i]),
        forall|i: int|
            0 <= i < span_placed(spans, span).len() ==> #[trigger] span_placed(spans, span)[i]
                == span || spans.contains(span_placed(spans, span)[i]),
    decreases spans.len(),
{
    let all = span_placed(spans, span);
    if spans.len() == 0 {
        assert(all[0] == span);
    } else if spans.last() == span {
        assert(spans[spans.len() - 1] == span);
    } else if span_before(span, spans.last()) {
        let front = spans.drop_last();
        lemma_span_among(front, span);
        let inner = span_placed(front, span);
        let k = choose|k: int| 0 <= k < inner.len() && inner[k] == span;
        assert(all[k] == span);
        assert forall|i: int| 0 <= i < spans.len() implies all.contains(#[trigger] spans[i]) by {
            if i < front.len() {
                assert(inner.contains(front[i]));
                let m = choose|m: int| 0 <= m < inner.len() && inner[m] == front[i];
                assert(all[m] == spans[i]);
            } else {
                assert(all[all.len() - 1] == spans[i]);
            }
        }
        assert forall|i: int| 0 <= i < all.len() implies #[trigger] all[i] == span
            || spans.contains(all[i]) by {
            if i < inner.len() {
                assert(all[i] == inner[i]);
                if inner[i] != span {
                    let m = choose|m: int| 0 <= m < front.len() && front[m] == inner[i];
                    assert(spans[m] == all[i]);
                }
            } else {
                assert(spans[spans.len() - 1] == all[i]);
            }
        }
    } else {
        assert(all[spans.len() as int] == span);
        assert forall|i: int| 0 <= i < spans.len() implies all.contains(#[trigger] spans[i]) by {
            assert(all[i] == spans[i]);
        }
        assert forall|i: int| 0 <= i < all.len() implies #[trigger] all[i] == span
            || spans.contains(all[i]) by {
            if i < spans.len() {
                assert(all[i] == spans[i]);
            }
        }
    }
}

/// The range is that of the node at this place, which is a word.
pub open spec fn is_range_of(
    source: Seq<u8>,
    starts: Seq<usize>,
    language: CodeLanguage,
    nodes: Seq<NodeRecord>,
    at: int,
    range: SourceRange,
) -> bool {
    &&& 0 <= at < nodes.len()
    &&& is_word(language, nodes[at])
    &&& range == range_at(source, starts, nodes[at].start as int, nodes[at].end as int)->0
}

spec fn is_span_of(
    language: CodeLanguage,
    nodes: Seq<NodeRecord>,
    at: int,
    span: (usize, usize),
) -> bool {
    is_word(language, nodes[at]) && span == (nodes[at].start, nodes[at].end)
}

proof fn lemma_span_found(
    source: Seq<u8>,
    language: CodeLanguage,
    limits: StructureLimits,
    nodes: Seq<NodeRecord>,
    count: int,
    span: (usize, usize),
) -> (at: int)
    requires
        0 <= count <= nodes.len(),
        tokens_after(source, language, limits, nodes, count) is Some,
        tokens_after(source, language, limits, nodes, count)->0.spans.contains(span),
    ensures
        0 <= at < count,
        is_span_of(language, nodes, at, span),
    decreases count,
{
    if count <= 0 {
        assert(tokens_after(source, language, limits, nodes, count)->0.spans.len() == 0);
        0
    } else {
        let before = tokens_after(source, language, limits, nodes, count - 1)->0.spans;
        let spans = tokens_after(source, language, limits, nodes, count)->0.spans;
        let node = nodes[count - 1];
        assert(is_word(language, node) <==> is_token(language, node));
        if before.contains(span) {
            lemma_span_found(source, language, limits, nodes, count - 1, span)
        } else {
            lemma_span_among(before, (node.start, node.end));
            let m = choose|m: int| 0 <= m < spans.len() && spans[m] == span;
            assert(is_word(language, node));
            assert(spans[m] == (node.start, node.end));
            count - 1
        }
    }
}

proof fn lemma_word_found(
    source: Seq<u8>,
    language: CodeLanguage,
    limits: StructureLimits,
    nodes: Seq<NodeRecord>,
    count: int,
    at: int,
)
    requires
        0 <= at < count <= nodes.len(),
        tokens_after(source, language, limits, nodes, count) is Some,
        is_word(language, nodes[at]),
    ensures
        tokens_after(source, language, limits, nodes, count)->0.spans.contains(
            (nodes[at].start, nodes[at].end),
        ),
    decreases count,
{
    let before = tokens_after(source, language, limits, nodes, count - 1)->0.spans;
    let spans = tokens_after(source, language, limits, nodes, count)->0.spans;
    let node = nodes[count - 1];
    let span = (nodes[at].start, nodes[at].end);
    assert(is_word(language, node) <==> is_token(language, node));
    lemma_span_among(before, (node.start, node.end));
    if at < count - 1 {
        lemma_word_found(source, language, limits, nodes, count - 1, at);
        let m = choose|m: int| 0 <= m < before.len() && before[m] == span;
        if is_word(language, node) {
            assert(spans.contains(before[m]));
        }
    }
}

/// Where the words of a source can be found, they are found all, and nothing else is.
pub proof fn law_words_are_the_names_of_the_source(
    source: Seq<u8>,
    starts: Seq<usize>,
    language: CodeLanguage,
    limits: StructureLimits,
    nodes: Seq<NodeRecord>,
    range: SourceRange,
)
    requires
        code_tokens(source, starts, language, limits, nodes) is Some,
    ensures
        code_tokens(source, starts, language, limits, nodes)->0.contains(range) <==> exists|at: int|
            #[trigger] is_range_of(source, starts, language, nodes, at, range),
{
    let ranges = code_tokens(source, starts, language, limits, nodes)->0;
    let count = nodes.len() as int;
    let spans = tokens_after(source, language, limits, nodes, count)->0.spans;
    if ranges.contains(range) {
        let i = choose|i: int| 0 <= i < ranges.len() && ranges[i] == range;
        assert(spans.contains(spans[i]));
        let at = lemma_span_found(source, language, limits, nodes, count, spans[i]);
        assert(is_range_of(source, starts, language, nodes, at, range));
    }
    if exists|at: int| #[trigger] is_range_of(source, starts, language, nodes, at, range) {
        let at = choose|at: int| #[trigger]
            is_range_of(source, starts, language, nodes, at, range);
        lemma_word_found(source, language, limits, nodes, count, at);
        let m = choose|m: int|
            0 <= m < spans.len() && spans[m] == (nodes[at].start, nodes[at].end);
        assert(ranges[m] == range);
    }
}

proof fn lemma_same_endings(left: &str, right: &str)
    ensures
        text(left) == text(right) ==> left@ == right@,
{
    vstd::utf8::encode_utf8_decode_utf8(left@);
    vstd::utf8::encode_utf8_decode_utf8(right@);
}

/// The extension of a path decides on how it is read, in whatever case it is written.
pub proof fn law_documents_are_read_by_extension(style: PathStyle, path: Seq<u8>, ending: &str)
    requires
        extension(style, path) is Some,
        lowercase(extension(style, path)->0) == text(ending),
    ensures
        ({
            let kind = document_kind(style, path);
            &&& kind == DocumentKind::Markdown <==> ending@ == "md"@ || ending@ == "markdown"@
            &&& kind == DocumentKind::Code(CodeLanguage::Rust, Grammar::Rust) <==> ending@ == "rs"@
            &&& kind == DocumentKind::Code(CodeLanguage::TypeScript, Grammar::TypeScript) <==> ending@
                == "ts"@ || ending@ == "mts"@ || ending@ == "cts"@
            &&& kind == DocumentKind::Code(CodeLanguage::TypeScript, Grammar::Tsx) <==> ending@
                == "tsx"@
            &&& kind == DocumentKind::Code(CodeLanguage::JavaScript, Grammar::JavaScript)
                <==> ending@ == "js"@ || ending@ == "mjs"@ || ending@ == "cjs"@ || ending@ == "jsx"@
            &&& kind == DocumentKind::Code(CodeLanguage::Python, Grammar::Python) <==> ending@
                == "py"@ || ending@ == "pyi"@
            &&& kind == DocumentKind::Code(CodeLanguage::Go, Grammar::Go) <==> ending@ == "go"@
            &&& kind == DocumentKind::Plain || kind == DocumentKind::Markdown || kind is Code
        }),
{
    lemma_same_endings(ending, "md");
    lemma_same_endings(ending, "markdown");
    lemma_same_endings(ending, "rs");
    lemma_same_endings(ending, "ts");
    lemma_same_endings(ending, "mts");
    lemma_same_endings(ending, "cts");
    lemma_same_endings(ending, "tsx");
    lemma_same_endings(ending, "js");
    lemma_same_endings(ending, "mjs");
    lemma_same_endings(ending, "cjs");
    lemma_same_endings(ending, "jsx");
    lemma_same_endings(ending, "py");
    lemma_same_endings(ending, "pyi");
    lemma_same_endings(ending, "go");
    reveal_strlit("md");
    reveal_strlit("markdown");
    reveal_strlit("rs");
    reveal_strlit("ts");
    reveal_strlit("mts");
    reveal_strlit("cts");
    reveal_strlit("tsx");
    reveal_strlit("js");
    reveal_strlit("mjs");
    reveal_strlit("cjs");
    reveal_strlit("jsx");
    reveal_strlit("py");
    reveal_strlit("pyi");
    reveal_strlit("go");
    assert("md"@.len() == 2);
    assert("markdown"@.len() == 8);
    assert("rs"@.len() == 2);
    assert("ts"@.len() == 2);
    assert("mts"@.len() == 3);
    assert("cts"@.len() == 3);
    assert("tsx"@.len() == 3);
    assert("js"@.len() == 2);
    assert("mjs"@.len() == 3);
    assert("cjs"@.len() == 3);
    assert("jsx"@.len() == 3);
    assert("py"@.len() == 2);
    assert("pyi"@.len() == 3);
    assert("go"@.len() == 2);
    assert("md"@[0] == 'm' && "rs"@[0] == 'r');
    assert("md"@[0] == 'm' && "ts"@[0] == 't');
    assert("md"@[0] == 'm' && "js"@[0] == 'j');
    assert("md"@[0] == 'm' && "py"@[0] == 'p');
    assert("md"@[0] == 'm' && "go"@[0] == 'g');
    assert("rs"@[0] == 'r' && "ts"@[0] == 't');
    assert("rs"@[0] == 'r' && "js"@[0] == 'j');
    assert("rs"@[0] == 'r' && "py"@[0] == 'p');
    assert("rs"@[0] == 'r' && "go"@[0] == 'g');
    assert("ts"@[0] == 't' && "js"@[0] == 'j');
    assert("ts"@[0] == 't' && "py"@[0] == 'p');
    assert("ts"@[0] == 't' && "go"@[0] == 'g');
    assert("mts"@[0] == 'm' && "cts"@[0] == 'c');
    assert("mts"@[0] == 'm' && "tsx"@[0] == 't');
    assert("mts"@[1] == 't' && "mjs"@[1] == 'j');
    assert("mts"@[0] == 'm' && "cjs"@[0] == 'c');
    assert("mts"@[0] == 'm' && "jsx"@[0] == 'j');
    assert("mts"@[0] == 'm' && "pyi"@[0] == 'p');
    assert("cts"@[0] == 'c' && "tsx"@[0] == 't');
    assert("cts"@[0] == 'c' && "mjs"@[0] == 'm');
    assert("cts"@[1] == 't' && "cjs"@[1] == 'j');
    assert("cts"@[0] == 'c' && "jsx"@[0] == 'j');
    assert("cts"@[0] == 'c' && "pyi"@[0] == 'p');
    assert("tsx"@[0] == 't' && "mjs"@[0] == 'm');
    assert("tsx"@[0] == 't' && "cjs"@[0] == 'c');
    assert("tsx"@[0] == 't' && "jsx"@[0] == 'j');
    assert("tsx"@[0] == 't' && "pyi"@[0] == 'p');
    assert("js"@[0] == 'j' && "py"@[0] == 'p');
    assert("js"@[0] == 'j' && "go"@[0] == 'g');
    assert("mjs"@[0] == 'm' && "cjs"@[0] == 'c');
    assert("mjs"@[0] == 'm' && "jsx"@[0] == 'j');
    assert("mjs"@[0] == 'm' && "pyi"@[0] == 'p');
    assert("cjs"@[0] == 'c' && "jsx"@[0] == 'j');
    assert("cjs"@[0] == 'c' && "pyi"@[0] == 'p');
    assert("jsx"@[0] == 'j' && "pyi"@[0] == 'p');
    assert("py"@[0] == 'p' && "go"@[0] == 'g');
}

} // verus!
