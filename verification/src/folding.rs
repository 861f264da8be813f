//! Fold regions: which line ranges of a document can be folded away, and the
//! anchors by which a fold is found again after an edit.

use crate::markdown::{event_records, EventRecord, EventTag, MarkdownEvent};
use crate::source::{
    ascending, byte_range_to_lines, holds_byte, law_each_byte_has_one_line,
    law_ranges_span_the_lines_of_their_ends, line_at, line_of, lines_of,
};
use crate::syntax::{is_listing, records, NodeRecord, SyntaxNode};
use crate::text::{text_equal, trim_text, trimmed};
use vstd::prelude::*;

verus! {

pub const MAX_FOLD_NODES: usize = 100_000;

pub const MAX_MARKDOWN_EVENTS: usize = 50_000;

pub const MAX_FOLD_REGIONS: usize = 4_096;

#[derive(Clone, Copy, Debug, PartialEq, Eq, Structural)]
pub enum FoldKind {
    Heading,
    CodeBlock,
    Function,
    Method,
    Type,
    Module,
}

/// What a fold is recognized by: its kind, its header line, and how many folds
/// with both came before it.
#[derive(Clone, Copy, Debug, PartialEq, Eq, Structural)]
pub struct FoldAnchor {
    pub kind: FoldKind,
    pub header_hash: u64,
    pub occurrence: u32,
}

#[derive(Clone, Copy, Debug, PartialEq, Eq, Structural)]
pub struct FoldRegion {
    pub start_line: usize,
    pub end_line: usize,
    pub kind: FoldKind,
    pub anchor: FoldAnchor,
}

/// A region as a parser reports it, not yet fitted among the others.
#[derive(Clone, Copy, Debug, PartialEq, Eq, Structural)]
pub struct RawRegion {
    pub start_line: usize,
    pub end_line: usize,
    pub kind: FoldKind,
}

#[derive(Clone, Copy, Debug, PartialEq, Eq, Structural)]
pub enum FoldSource {
    Absent,
    BuiltinText,
}

impl FoldSource {
    pub fn allows_folding(self) -> (allows: bool)
        ensures
            allows == (self == FoldSource::BuiltinText),
    {
        match self {
            FoldSource::BuiltinText => true,
            FoldSource::Absent => false,
        }
    }
}

#[derive(Clone, Copy, Debug, PartialEq, Eq, Structural)]
pub enum CodeLanguage {
    Rust,
    TypeScript,
    JavaScript,
    Python,
    Go,
}

#[derive(Clone, Copy, Debug, PartialEq, Eq, Structural)]
pub struct FoldLimits {
    pub max_nodes: usize,
    pub max_markdown_events: usize,
    pub max_regions: usize,
    /// The number of steps after which the work is given up.
    pub cancel_after_work: Option<usize>,
}

impl FoldLimits {
    pub open spec fn usual() -> FoldLimits {
        FoldLimits {
            max_nodes: MAX_FOLD_NODES,
            max_markdown_events: MAX_MARKDOWN_EVENTS,
            max_regions: MAX_FOLD_REGIONS,
            cancel_after_work: None,
        }
    }
}

impl Default for FoldLimits {
    fn default() -> (limits: Self)
        ensures
            limits == FoldLimits::usual(),
    {
        FoldLimits {
            max_nodes: MAX_FOLD_NODES,
            max_markdown_events: MAX_MARKDOWN_EVENTS,
            max_regions: MAX_FOLD_REGIONS,
            cancel_after_work: None,
        }
    }
}

/// A count of steps with an optional end.
#[derive(Clone, Copy, Debug, PartialEq, Eq, Structural)]
pub struct WorkBudget {
    pub used: usize,
    pub cancel_after: Option<usize>,
}

impl WorkBudget {
    pub open spec fn fresh(cancel_after: Option<usize>) -> WorkBudget {
        WorkBudget { used: 0, cancel_after }
    }

    /// The budget one step later.
    pub open spec fn stepped(self) -> WorkBudget {
        WorkBudget {
            used: if self.used < usize::MAX {
                (self.used + 1) as usize
            } else {
                self.used
            },
            ..self
        }
    }

    pub open spec fn allows(self) -> bool {
        self.cancel_after matches Some(limit) ==> self.used <= limit
    }

    pub fn new(cancel_after: Option<usize>) -> (budget: Self)
        ensures
            budget == WorkBudget::fresh(cancel_after),
    {
        WorkBudget { used: 0, cancel_after }
    }

    /// Takes a step and says whether it was still allowed.
    pub fn step(&mut self) -> (allowed: bool)
        ensures
            *final(self) == old(self).stepped(),
            allowed == old(self).stepped().allows(),
    {
        self.used = self.used.saturating_add(1);
        match self.cancel_after {
            Some(limit) => self.used <= limit,
            None => true,
        }
    }
}

// Code ------------------------------------------------------------------------------------

/// The node at `i` has a parent of this kind.
pub open spec fn parent_is(nodes: Seq<NodeRecord>, i: int, kind: Seq<char>) -> bool {
    nodes[i].parent matches Some(parent) && nodes[parent as int].kind == kind
}

/// A Rust function is a method if it stands directly in the declaration list of
/// an `impl` or a trait.
pub open spec fn is_rust_method(nodes: Seq<NodeRecord>, i: int) -> bool {
    match nodes[i].parent {
        Some(parent) => nodes[parent as int].kind == "declaration_list"@ && (parent_is(
            nodes,
            parent as int,
            "impl_item"@,
        ) || parent_is(nodes, parent as int, "trait_item"@)),
        None => false,
    }
}

/// A Python function belongs to the nearest class or function around it. Each
/// node on the way is one step of work.
pub open spec fn python_function(
    nodes: Seq<NodeRecord>,
    ancestor: Option<usize>,
    budget: WorkBudget,
) -> Option<(FoldKind, WorkBudget)>
    decreases
            (match ancestor {
                Some(at) => at + 1,
                None => 0int,
            }),
{
    match ancestor {
        None => Some((FoldKind::Function, budget)),
        Some(at) => {
            let kind = nodes[at as int].kind;
            let next = nodes[at as int].parent;
            if !budget.stepped().allows() {
                None
            } else if kind == "function_definition"@ || kind == "lambda"@ {
                Some((FoldKind::Function, budget.stepped()))
            } else if kind == "class_definition"@ {
                Some((FoldKind::Method, budget.stepped()))
            } else if next matches Some(above) && above >= at {
                None
            } else {
                python_function(nodes, next, budget.stepped())
            }
        },
    }
}

/// The fold kind of a node, if it can be folded, and the work left after finding
/// out; nothing if the work ran out.
pub open spec fn node_fold_kind(
    language: CodeLanguage,
    nodes: Seq<NodeRecord>,
    i: int,
    budget: WorkBudget,
) -> Option<(Option<FoldKind>, WorkBudget)> {
    let kind = nodes[i].kind;
    match language {
        CodeLanguage::Rust => Some(
            (
                if kind == "function_item"@ {
                    Some(
                        if is_rust_method(nodes, i) {
                            FoldKind::Method
                        } else {
                            FoldKind::Function
                        },
                    )
                } else if kind == "struct_item"@ || kind == "enum_item"@ || kind == "union_item"@
                    || kind == "trait_item"@ || kind == "type_item"@ || kind == "impl_item"@ {
                    Some(FoldKind::Type)
                } else if kind == "mod_item"@ {
                    Some(FoldKind::Module)
                } else {
                    None
                },
                budget,
            ),
        ),
        CodeLanguage::Python => if kind == "function_definition"@ {
            match python_function(nodes, nodes[i].parent, budget) {
                None => None,
                Some((found, left)) => Some((Some(found), left)),
            }
        } else if kind == "class_definition"@ {
            Some((Some(FoldKind::Type), budget))
        } else {
            Some((None, budget))
        },
        CodeLanguage::Go => Some(
            (
                if kind == "function_declaration"@ {
                    Some(FoldKind::Function)
                } else if kind == "method_declaration"@ {
                    Some(FoldKind::Method)
                } else if kind == "type_declaration"@ {
                    Some(FoldKind::Type)
                } else {
                    None
                },
                budget,
            ),
        ),
        CodeLanguage::TypeScript | CodeLanguage::JavaScript => Some(
            (
                if kind == "function_declaration"@ || kind == "function_expression"@ || kind
                    == "arrow_function"@ || kind == "generator_function"@ || kind
                    == "generator_function_declaration"@ {
                    Some(FoldKind::Function)
                } else if kind == "method_definition"@ || kind == "abstract_method_signature"@
                    || kind == "method_signature"@ {
                    Some(FoldKind::Method)
                } else if kind == "class_declaration"@ || kind == "class"@ || kind
                    == "abstract_class_declaration"@ || kind == "interface_declaration"@ || kind
                    == "enum_declaration"@ || kind == "type_alias_declaration"@ {
                    Some(FoldKind::Type)
                } else if kind == "internal_module"@ || kind == "ambient_declaration"@ {
                    Some(FoldKind::Module)
                } else {
                    None
                },
                budget,
            ),
        ),
    }
}

/// The regions of the nodes from `i` on, or nothing if a limit is passed.
pub open spec fn code_regions_from(
    nodes: Seq<NodeRecord>,
    i: int,
    source_len: int,
    starts: Seq<usize>,
    language: CodeLanguage,
    max_nodes: usize,
    budget: WorkBudget,
) -> Option<Seq<RawRegion>>
    decreases nodes.len() - i,
{
    if i < 0 || i >= nodes.len() {
        Some(Seq::empty())
    } else if i + 1 > max_nodes || !budget.stepped().allows() {
        None
    } else {
        let node = nodes[i];
        let found = if node.error || node.missing {
            Some((None::<FoldKind>, budget.stepped()))
        } else {
            node_fold_kind(language, nodes, i, budget.stepped())
        };
        match found {
            None => None,
            Some((kind, left)) => {
                let here = match (
                    kind,
                    lines_of(node.start as int, node.end as int, source_len, starts),
                ) {
                    (Some(kind), Some((first, last))) => seq![
                        RawRegion {
                            start_line: first as usize,
                            end_line: last as usize,
                            kind,
                        },
                    ],
                    _ => Seq::empty(),
                };
                prefixed(
                    here,
                    code_regions_from(nodes, i + 1, source_len, starts, language, max_nodes, left),
                )
            },
        }
    }
}

pub open spec fn prefixed(first: Seq<RawRegion>, rest: Option<Seq<RawRegion>>) -> Option<
    Seq<RawRegion>,
> {
    match rest {
        None => None,
        Some(regions) => Some(first + regions),
    }
}

fn kind_of(nodes: &Vec<SyntaxNode>, at: usize, kind: &str) -> (same: bool)
    requires
        at < nodes@.len(),
    ensures
        same == (records(nodes@)[at as int].kind == kind@),
{
    text_equal(nodes[at].kind.as_str(), kind)
}

/// Whether a Rust function is a method.
pub fn rust_method(nodes: &Vec<SyntaxNode>, at: usize) -> (method: bool)
    requires
        is_listing(records(nodes@)),
        at < nodes@.len(),
    ensures
        method == is_rust_method(records(nodes@), at as int),
{
    assert(records(nodes@)[at as int].parent == nodes@[at as int].parent);
    match nodes[at].parent {
        None => false,
        Some(parent) => {
            assert(records(nodes@)[parent as int].parent == nodes@[parent as int].parent);
            if !kind_of(nodes, parent, "declaration_list") {
                return false;
            }
            match nodes[parent].parent {
                None => false,
                Some(above) => kind_of(nodes, above, "impl_item") || kind_of(
                    nodes,
                    above,
                    "trait_item",
                ),
            }
        },
    }
}

fn python_function_kind(nodes: &Vec<SyntaxNode>, at: usize, budget: &mut WorkBudget) -> (kind:
    Option<FoldKind>)
    requires
        is_listing(records(nodes@)),
        at < nodes@.len(),
    ensures
        match python_function(records(nodes@), records(nodes@)[at as int].parent, *old(budget)) {
            None => kind is None,
            Some((found, left)) => kind == Some(found) && *final(budget) == left,
        },
{
    let ghost listed = records(nodes@);
    assert(listed[at as int].parent == nodes@[at as int].parent);
    let mut ancestor = nodes[at].parent;
    loop
        invariant
            listed == records(nodes@),
            is_listing(listed),
            ancestor matches Some(above) ==> above < nodes@.len(),
            python_function(listed, ancestor, *budget) == python_function(
                listed,
                listed[at as int].parent,
                *old(budget),
            ),
        decreases
                (match ancestor {
                    Some(above) => above + 1,
                    None => 0int,
                }),
    {
        match ancestor {
            None => {
                return Some(FoldKind::Function);
            },
            Some(current) => {
                assert(listed[current as int].parent == nodes@[current as int].parent);
                if !budget.step() {
                    return None;
                }
                if kind_of(nodes, current, "function_definition") || kind_of(
                    nodes,
                    current,
                    "lambda",
                ) {
                    return Some(FoldKind::Function);
                }
                if kind_of(nodes, current, "class_definition") {
                    return Some(FoldKind::Method);
                }
                ancestor = nodes[current].parent;
            },
        }
    }
}

fn classify_node(
    language: CodeLanguage,
    nodes: &Vec<SyntaxNode>,
    at: usize,
    budget: &mut WorkBudget,
) -> (result: Option<Option<FoldKind>>)
    requires
        is_listing(records(nodes@)),
        at < nodes@.len(),
    ensures
        match node_fold_kind(language, records(nodes@), at as int, *old(budget)) {
            None => result is None,
            Some((kind, left)) => result == Some(kind) && *final(budget) == left,
        },
{
    match language {
        CodeLanguage::Rust => {
            if kind_of(nodes, at, "function_item") {
                if rust_method(nodes, at) {
                    Some(Some(FoldKind::Method))
                } else {
                    Some(Some(FoldKind::Function))
                }
            } else if kind_of(nodes, at, "struct_item") || kind_of(nodes, at, "enum_item")
                || kind_of(nodes, at, "union_item") || kind_of(nodes, at, "trait_item") || kind_of(
                nodes,
                at,
                "type_item",
            ) || kind_of(nodes, at, "impl_item") {
                Some(Some(FoldKind::Type))
            } else if kind_of(nodes, at, "mod_item") {
                Some(Some(FoldKind::Module))
            } else {
                Some(None)
            }
        },
        CodeLanguage::Python => {
            if kind_of(nodes, at, "function_definition") {
                match python_function_kind(nodes, at, budget) {
                    None => None,
                    Some(kind) => Some(Some(kind)),
                }
            } else if kind_of(nodes, at, "class_definition") {
                Some(Some(FoldKind::Type))
            } else {
                Some(None)
            }
        },
        CodeLanguage::Go => {
            if kind_of(nodes, at, "function_declaration") {
                Some(Some(FoldKind::Function))
            } else if kind_of(nodes, at, "method_declaration") {
                Some(Some(FoldKind::Method))
            } else if kind_of(nodes, at, "type_declaration") {
                Some(Some(FoldKind::Type))
            } else {
                Some(None)
            }
        },
        CodeLanguage::TypeScript | CodeLanguage::JavaScript => {
            if kind_of(nodes, at, "function_declaration") || kind_of(
                nodes,
                at,
                "function_expression",
            ) || kind_of(nodes, at, "arrow_function") || kind_of(nodes, at, "generator_function")
                || kind_of(nodes, at, "generator_function_declaration") {
                Some(Some(FoldKind::Function))
            } else if kind_of(nodes, at, "method_definition") || kind_of(
                nodes,
                at,
                "abstract_method_signature",
            ) || kind_of(nodes, at, "method_signature") {
                Some(Some(FoldKind::Method))
            } else if kind_of(nodes, at, "class_declaration") || kind_of(nodes, at, "class")
                || kind_of(nodes, at, "abstract_class_declaration") || kind_of(
                nodes,
                at,
                "interface_declaration",
            ) || kind_of(nodes, at, "enum_declaration") || kind_of(
                nodes,
                at,
                "type_alias_declaration",
            ) {
                Some(Some(FoldKind::Type))
            } else if kind_of(nodes, at, "internal_module") || kind_of(
                nodes,
                at,
                "ambient_declaration",
            ) {
                Some(Some(FoldKind::Module))
            } else {
                Some(None)
            }
        },
    }
}

/// The regions of a listed syntax tree, or nothing if a limit is passed.
pub fn collect_code_regions(
    nodes: &Vec<SyntaxNode>,
    source_len: usize,
    starts: &[usize],
    language: CodeLanguage,
    max_nodes: usize,
    cancel_after: Option<usize>,
) -> (regions: Option<Vec<RawRegion>>)
    requires
        is_listing(records(nodes@)),
        ascending(starts@),
        starts@.len() > 0,
        starts@[0] == 0,
    ensures
        match code_regions_from(
            records(nodes@),
            0,
            source_len as int,
            starts@,
            language,
            max_nodes,
            WorkBudget::fresh(cancel_after),
        ) {
            None => regions is None,
            Some(expected) => regions matches Some(found) && found@ == expected,
        },
{
    let mut budget = WorkBudget::new(cancel_after);
    let mut regions: Vec<RawRegion> = Vec::new();
    let mut index: usize = 0;
    let ghost listed = records(nodes@);
    let ghost whole = code_regions_from(
        listed,
        0,
        source_len as int,
        starts@,
        language,
        max_nodes,
        budget,
    );
    proof {
        if whole is Some {
            assert(regions@ + whole->0 =~= whole->0);
        }
    }
    while index < nodes.len()
        invariant
            index <= nodes@.len(),
            listed == records(nodes@),
            is_listing(listed),
            ascending(starts@),
            starts@.len() > 0,
            starts@[0] == 0,
            whole == code_regions_from(
                listed,
                0,
                source_len as int,
                starts@,
                language,
                max_nodes,
                WorkBudget::fresh(cancel_after),
            ),
            whole == prefixed(
                regions@,
                code_regions_from(
                    listed,
                    index as int,
                    source_len as int,
                    starts@,
                    language,
                    max_nodes,
                    budget,
                ),
            ),
        decreases nodes@.len() - index,
    {
        let ghost before = regions@;
        assert(listed[index as int] == nodes@[index as int]@);
        if index >= max_nodes || !budget.step() {
            return None;
        }
        let kind = if nodes[index].error || nodes[index].missing {
            None
        } else {
            match classify_node(language, nodes, index, &mut budget) {
                None => {
                    return None;
                },
                Some(kind) => kind,
            }
        };
        if let Some(kind) = kind {
            if let Some((start_line, end_line)) = byte_range_to_lines(
                nodes[index].start,
                nodes[index].end,
                source_len,
                starts,
            ) {
                regions.push(RawRegion { start_line, end_line, kind });
            }
        }
        proof {
            let rest = code_regions_from(
                listed,
                index + 1,
                source_len as int,
                starts@,
                language,
                max_nodes,
                budget,
            );
            if rest is Some {
                let here = regions@.subrange(before.len() as int, regions@.len() as int);
                assert(before + (here + rest->0) =~= regions@ + rest->0);
                let node = listed[index as int];
                match (
                    kind,
                    lines_of(node.start as int, node.end as int, source_len as int, starts@),
                ) {
                    (Some(kind), Some((first, last))) => {
                        assert(here =~= seq![
                            RawRegion {
                                start_line: first as usize,
                                end_line: last as usize,
                                kind,
                            },
                        ]);
                    },
                    _ => {
                        assert(here =~= Seq::<RawRegion>::empty());
                    },
                }
            }
        }
        index = index + 1;
    }
    assert(regions@ + Seq::<RawRegion>::empty() =~= regions@);
    Some(regions)
}

// Markdown --------------------------------------------------------------------------------

/// The line and rank of each heading.
pub open spec fn heading_lines(events: Seq<EventRecord>, starts: Seq<usize>) -> Seq<(usize, u8)>
    decreases events.len(),
{
    if events.len() == 0 {
        Seq::empty()
    } else {
        let earlier = heading_lines(events.drop_last(), starts);
        match events.last().tag {
            EventTag::HeadingStart(rank) => earlier.push(
                (line_at(starts, events.last().start as int) as usize, rank),
            ),
            _ => earlier,
        }
    }
}

/// The code blocks that span more than one line.
pub open spec fn code_blocks(
    events: Seq<EventRecord>,
    source_len: int,
    starts: Seq<usize>,
) -> Seq<RawRegion>
    decreases events.len(),
{
    if events.len() == 0 {
        Seq::empty()
    } else {
        let earlier = code_blocks(events.drop_last(), source_len, starts);
        let event = events.last();
        match lines_of(event.start as int, event.end as int, source_len, starts) {
            Some((first, last)) => if event.tag is CodeBlockEnd {
                earlier.push(
                    RawRegion {
                        start_line: first as usize,
                        end_line: last as usize,
                        kind: FoldKind::CodeBlock,
                    },
                )
            } else {
                earlier
            },
            None => earlier,
        }
    }
}

/// The line at which the section of rank `rank` ends that is open before
/// heading `from`: that of the next heading of the same or a higher rank.
pub open spec fn next_section(headings: Seq<(usize, u8)>, from: int, rank: u8, lines: int) -> int
    decreases headings.len() - from,
{
    if from < 0 || from >= headings.len() {
        lines
    } else if headings[from].1 <= rank {
        headings[from].0 as int
    } else {
        next_section(headings, from + 1, rank, lines)
    }
}

/// The last line of the section under heading `index`.
pub open spec fn section_end(headings: Seq<(usize, u8)>, index: int, lines: int) -> int {
    let next = next_section(headings, index + 1, headings[index].1, lines);
    let last = if next > 0 {
        next - 1
    } else {
        0
    };
    if last <= lines - 1 {
        last
    } else {
        lines - 1
    }
}

/// The sections of the first `count` headings that span more than one line.
pub open spec fn sections(headings: Seq<(usize, u8)>, count: int, lines: int) -> Seq<RawRegion>
    decreases count,
{
    if count <= 0 {
        Seq::empty()
    } else {
        let earlier = sections(headings, count - 1, lines);
        let end = section_end(headings, count - 1, lines);
        if headings[count - 1].0 < end {
            earlier.push(
                RawRegion {
                    start_line: headings[count - 1].0,
                    end_line: end as usize,
                    kind: FoldKind::Heading,
                },
            )
        } else {
            earlier
        }
    }
}

/// As many steps as there are events are within both limits.
pub open spec fn events_allowed(count: int, max_events: usize, cancel_after: Option<usize>) -> bool {
    count <= max_events && (cancel_after matches Some(limit) ==> count <= limit)
}

/// The code blocks of a document and then its sections, or nothing if there
/// are too many events.
pub open spec fn markdown_folds(
    events: Seq<EventRecord>,
    source_len: int,
    starts: Seq<usize>,
    max_events: usize,
    cancel_after: Option<usize>,
) -> Option<Seq<RawRegion>> {
    if !events_allowed(events.len() as int, max_events, cancel_after) {
        None
    } else {
        let headings = heading_lines(events, starts);
        Some(
            code_blocks(events, source_len, starts) + sections(
                headings,
                headings.len() as int,
                starts.len() as int,
            ),
        )
    }
}

pub fn markdown_regions(
    events: &Vec<MarkdownEvent>,
    source_len: usize,
    starts: &[usize],
    max_events: usize,
    cancel_after: Option<usize>,
) -> (regions: Option<Vec<RawRegion>>)
    requires
        ascending(starts@),
        starts@.len() > 0,
        starts@[0] == 0,
    ensures
        match markdown_folds(
            event_records(events@),
            source_len as int,
            starts@,
            max_events,
            cancel_after,
        ) {
            None => regions is None,
            Some(expected) => regions matches Some(found) && found@ == expected,
        },
{
    let ghost listed = event_records(events@);
    let mut budget = WorkBudget::new(cancel_after);
    let mut headings: Vec<(usize, u8)> = Vec::new();
    let mut regions: Vec<RawRegion> = Vec::new();
    let mut index: usize = 0;
    while index < events.len()
        invariant
            index <= events@.len(),
            listed == event_records(events@),
            ascending(starts@),
            starts@.len() > 0,
            starts@[0] == 0,
            budget.used == index,
            budget.cancel_after == cancel_after,
            events_allowed(index as int, max_events, cancel_after),
            headings@ == heading_lines(listed.subrange(0, index as int), starts@),
            regions@ == code_blocks(
                listed.subrange(0, index as int),
                source_len as int,
                starts@,
            ),
        decreases events@.len() - index,
    {
        assert(listed.subrange(0, index + 1).drop_last() =~= listed.subrange(0, index as int));
        assert(listed[index as int] == events@[index as int]@);
        if index >= max_events || !budget.step() {
            return None;
        }
        match events[index].tag {
            EventTag::HeadingStart(rank) => {
                headings.push((line_of(starts, events[index].start), rank));
            },
            EventTag::CodeBlockEnd => {
                if let Some((start_line, end_line)) = byte_range_to_lines(
                    events[index].start,
                    events[index].end,
                    source_len,
                    starts,
                ) {
                    regions.push(RawRegion { start_line, end_line, kind: FoldKind::CodeBlock });
                }
            },
            _ => {},
        }
        index = index + 1;
    }
    assert(listed.subrange(0, listed.len() as int) =~= listed);
    let ghost blocks = regions@;
    let lines: usize = starts.len();
    let mut at: usize = 0;
    assert(blocks + sections(headings@, 0, lines as int) =~= blocks);
    while at < headings.len()
        invariant
            at <= headings@.len(),
            lines == starts@.len(),
            lines > 0,
            regions@ == blocks + sections(headings@, at as int, lines as int),
        decreases headings@.len() - at,
    {
        let (start_line, rank) = headings[at];
        let mut next: usize = at + 1;
        while next < headings.len() && headings[next].1 > rank
            invariant
                at < next <= headings@.len(),
                next_section(headings@, next as int, rank, lines as int) == next_section(
                    headings@,
                    at + 1,
                    rank,
                    lines as int,
                ),
            decreases headings@.len() - next,
        {
            next = next + 1;
        }
        let line: usize = if next < headings.len() {
            headings[next].0
        } else {
            lines
        };
        let mut end_line: usize = if line > 0 {
            line - 1
        } else {
            0
        };
        if end_line > lines - 1 {
            end_line = lines - 1;
        }
        assert(end_line == section_end(headings@, at as int, lines as int));
        if start_line < end_line {
            regions.push(RawRegion { start_line, end_line, kind: FoldKind::Heading });
        }
        assert(regions@ =~= blocks + sections(headings@, at + 1, lines as int));
        at = at + 1;
    }
    Some(regions)
}

/// A heading that is open at a place of a document.
pub open spec fn is_heading(events: Seq<EventRecord>, at: int) -> bool {
    0 <= at < events.len() && events[at].tag is HeadingStart
}

pub open spec fn rank_of(event: EventRecord) -> u8 {
    event.tag->HeadingStart_0
}

/// Headings come one after the other, each on a line of its own.
pub open spec fn headings_apart(events: Seq<EventRecord>, starts: Seq<usize>) -> bool {
    forall|i: int, j: int|
        #![trigger is_heading(events, i), is_heading(events, j)]
        is_heading(events, i) && is_heading(events, j) && i < j ==> exists|line: int|
            0 <= line < starts.len() && events[i].start < #[trigger] starts[line]
                <= events[j].start
}

/// The lines from a heading down to the last one in front of the next heading of the same
/// or a higher rank, or down to the end of the document.
pub open spec fn is_section(
    events: Seq<EventRecord>,
    starts: Seq<usize>,
    at: int,
    region: RawRegion,
) -> bool {
    &&& is_heading(events, at)
    &&& holds_byte(starts, region.start_line as int, events[at].start as int)
    &&& region.start_line < region.end_line < starts.len()
    &&& region.kind == FoldKind::Heading
    &&& forall|other: int, line: int|
        #![trigger holds_byte(starts, line, events[other].start as int)]
        is_heading(events, other) && holds_byte(starts, line, events[other].start as int)
            && region.start_line < line <= region.end_line ==> rank_of(events[other]) > rank_of(
            events[at],
        )
    &&& region.end_line + 1 == starts.len() || exists|other: int| #[trigger]
        is_heading(events, other) && holds_byte(
            starts,
            region.end_line + 1,
            events[other].start as int,
        ) && rank_of(events[other]) <= rank_of(events[at])
}

/// The lines of a code block.
pub open spec fn is_block(
    events: Seq<EventRecord>,
    source_len: int,
    starts: Seq<usize>,
    at: int,
    region: RawRegion,
) -> bool {
    &&& 0 <= at < events.len()
    &&& events[at].tag is CodeBlockEnd
    &&& events[at].start < events[at].end <= source_len
    &&& holds_byte(starts, region.start_line as int, events[at].start as int)
    &&& holds_byte(starts, region.end_line as int, events[at].end - 1)
    &&& region.start_line < region.end_line
    &&& region.kind == FoldKind::CodeBlock
}

/// How many of the first `count` events begin a heading.
spec fn headings_before(events: Seq<EventRecord>, count: int) -> int
    decreases count,
{
    if count <= 0 {
        0
    } else {
        headings_before(events, count - 1) + (if events[count - 1].tag is HeadingStart {
            1int
        } else {
            0
        })
    }
}

proof fn lemma_headings_before(events: Seq<EventRecord>, low: int, high: int)
    requires
        0 <= low <= high <= events.len(),
    ensures
        0 <= headings_before(events, low) <= headings_before(events, high),
        is_heading(events, low) && low < high ==> headings_before(events, low) < headings_before(
            events,
            high,
        ),
        headings_before(events.take(high), low) == headings_before(events, low),
    decreases high,
{
    if low < high {
        lemma_headings_before(events, low, high - 1);
        if is_heading(events, low) && low == high - 1 {
            assert(events[high - 1].tag is HeadingStart);
        }
    } else if low > 0 {
        lemma_headings_before(events, low - 1, high - 1);
    }
    lemma_headings_alike(events, high, low);
}

proof fn lemma_headings_alike(events: Seq<EventRecord>, cut: int, count: int)
    requires
        0 <= count <= cut <= events.len(),
    ensures
        headings_before(events.take(cut), count) == headings_before(events, count),
    decreases count,
{
    if count > 0 {
        lemma_headings_alike(events, cut, count - 1);
    }
}

spec fn entry_of(event: EventRecord, starts: Seq<usize>) -> (usize, u8) {
    (line_at(starts, event.start as int) as usize, rank_of(event))
}

/// The list of headings has one for each event that begins one, at its place.
proof fn lemma_heading_listed(events: Seq<EventRecord>, starts: Seq<usize>, at: int)
    ensures
        heading_lines(events, starts).len() == headings_before(events, events.len() as int),
        is_heading(events, at) ==> {
            let k = headings_before(events, at);
            0 <= k < heading_lines(events, starts).len() && heading_lines(events, starts)[k]
                == entry_of(events[at], starts)
        },
    decreases events.len(),
{
    if events.len() > 0 {
        let fewer = events.drop_last();
        let end = events.len() - 1;
        assert(fewer =~= events.take(end));
        lemma_heading_listed(fewer, starts, at);
        lemma_headings_alike(events, end, end);
        if is_heading(events, at) {
            lemma_headings_alike(events, end, at);
            lemma_headings_before(events, 0, at);
            if at < end {
                assert(is_heading(fewer, at));
            }
        }
    }
}

/// The event behind a heading of the list.
proof fn lemma_heading_event(events: Seq<EventRecord>, starts: Seq<usize>, k: int) -> (at: int)
    requires
        0 <= k < heading_lines(events, starts).len(),
    ensures
        is_heading(events, at),
        headings_before(events, at) == k,
        heading_lines(events, starts)[k] == entry_of(events[at], starts),
    decreases events.len(),
{
    let fewer = events.drop_last();
    let end = events.len() - 1;
    assert(fewer =~= events.take(end));
    lemma_heading_listed(fewer, starts, 0);
    lemma_headings_alike(events, end, end);
    if k < heading_lines(fewer, starts).len() {
        let at = lemma_heading_event(fewer, starts, k);
        lemma_headings_alike(events, end, at);
        at
    } else {
        end
    }
}

proof fn lemma_lines_ascend(events: Seq<EventRecord>, starts: Seq<usize>, k: int, m: int)
    requires
        ascending(starts),
        starts.len() > 0,
        starts[0] == 0,
        starts.len() <= usize::MAX,
        headings_apart(events, starts),
        0 <= k < m < heading_lines(events, starts).len(),
    ensures
        heading_lines(events, starts)[k].0 < heading_lines(events, starts)[m].0,
{
    let first = lemma_heading_event(events, starts, k);
    let second = lemma_heading_event(events, starts, m);
    if first >= second {
        lemma_headings_before(events, second, first);
    }
    assert(is_heading(events, first) && is_heading(events, second));
    let line = choose|line: int|
        0 <= line < starts.len() && events[first].start < #[trigger] starts[line]
            <= events[second].start;
    law_each_byte_has_one_line(starts, events[first].start as int);
    law_each_byte_has_one_line(starts, events[second].start as int);
    let low = line_at(starts, events[first].start as int);
    let high = line_at(starts, events[second].start as int);
    if line <= low {
        if line < low {
            assert(starts[line] < starts[low]);
        }
        assert(false);
    }
    if high < line {
        if high + 1 < line {
            assert(starts[high + 1] < starts[line]);
        }
        assert(false);
    }
}

proof fn lemma_next_section(headings: Seq<(usize, u8)>, from: int, rank: u8, lines: int)
    requires
        0 <= from <= headings.len(),
    ensures
        ({
            let next = next_section(headings, from, rank, lines);
            ||| next == lines && forall|m: int|
                from <= m < headings.len() ==> (#[trigger] headings[m]).1 > rank
            ||| exists|m: int|
                {
                    &&& from <= m < headings.len()
                    &&& (#[trigger] headings[m]).0 == next
                    &&& headings[m].1 <= rank
                    &&& forall|i: int| from <= i < m ==> (#[trigger] headings[i]).1 > rank
                }
        }),
    decreases headings.len() - from,
{
    if from < headings.len() {
        if headings[from].1 <= rank {
            assert(headings[from].0 == next_section(headings, from, rank, lines));
        } else {
            lemma_next_section(headings, from + 1, rank, lines);
            let next = next_section(headings, from, rank, lines);
            if exists|m: int|
                {
                    &&& from + 1 <= m < headings.len()
                    &&& (#[trigger] headings[m]).0 == next
                    &&& headings[m].1 <= rank
                    &&& forall|i: int| from + 1 <= i < m ==> (#[trigger] headings[i]).1 > rank
                } {
                let m = choose|m: int|
                    {
                        &&& from + 1 <= m < headings.len()
                        &&& (#[trigger] headings[m]).0 == next
                        &&& headings[m].1 <= rank
                        &&& forall|i: int| from + 1 <= i < m ==> (#[trigger] headings[i]).1 > rank
                    };
                assert(headings[m].0 == next);
            }
        }
    }
}

proof fn lemma_sections(headings: Seq<(usize, u8)>, count: int, lines: int, region: RawRegion)
    requires
        0 <= count <= headings.len(),
        0 < lines <= usize::MAX,
    ensures
        sections(headings, count, lines).contains(region) <==> exists|k: int|
            {
                &&& 0 <= k < count
                &&& (#[trigger] headings[k]).0 == region.start_line
                &&& section_end(headings, k, lines) == region.end_line
                &&& region.start_line < region.end_line
                &&& region.kind == FoldKind::Heading
            },
    decreases count,
{
    if count > 0 {
        lemma_sections(headings, count - 1, lines, region);
        let earlier = sections(headings, count - 1, lines);
        let all = sections(headings, count, lines);
        let end = section_end(headings, count - 1, lines);
        if headings[count - 1].0 < end {
            let own = RawRegion {
                start_line: headings[count - 1].0,
                end_line: end as usize,
                kind: FoldKind::Heading,
            };
            assert(all == earlier.push(own));
            assert(all[all.len() - 1] == own);
            if earlier.contains(region) {
                let i = choose|i: int| 0 <= i < earlier.len() && earlier[i] == region;
                assert(all[i] == region);
            }
            if all.contains(region) {
                let i = choose|i: int| 0 <= i < all.len() && all[i] == region;
                if i < earlier.len() {
                    assert(earlier[i] == region);
                } else {
                    assert(headings[count - 1].0 == region.start_line);
                }
            }
        }
    }
}

proof fn lemma_blocks(
    events: Seq<EventRecord>,
    source_len: int,
    starts: Seq<usize>,
    region: RawRegion,
)
    requires
        ascending(starts),
        starts.len() > 0,
        starts[0] == 0,
        starts.len() <= usize::MAX,
    ensures
        code_blocks(events, source_len, starts).contains(region) <==> exists|at: int|
            #[trigger] is_block(events, source_len, starts, at, region),
    decreases events.len(),
{
    let all = code_blocks(events, source_len, starts);
    if events.len() > 0 {
        let fewer = events.drop_last();
        let earlier = code_blocks(fewer, source_len, starts);
        let event = events.last();
        let end = events.len() - 1;
        lemma_blocks(fewer, source_len, starts, region);
        law_ranges_span_the_lines_of_their_ends(
            event.start as int,
            event.end as int,
            source_len,
            starts,
        );
        assert forall|at: int| at < end implies is_block(fewer, source_len, starts, at, region)
            == #[trigger] is_block(events, source_len, starts, at, region) by {
            if 0 <= at < end {
                assert(fewer[at] == events[at]);
            }
        }
        if earlier.contains(region) {
            let i = choose|i: int| 0 <= i < earlier.len() && earlier[i] == region;
            assert(all[i] == region);
            let at = choose|at: int| #[trigger] is_block(fewer, source_len, starts, at, region);
            assert(is_block(events, source_len, starts, at, region));
        }
        if all.contains(region) && !earlier.contains(region) {
            let i = choose|i: int| 0 <= i < all.len() && all[i] == region;
            if i < earlier.len() {
                assert(earlier[i] == region);
            }
            assert(is_block(events, source_len, starts, end, region));
        }
        if exists|at: int| #[trigger] is_block(events, source_len, starts, at, region) {
            let at = choose|at: int| #[trigger] is_block(events, source_len, starts, at, region);
            if at < end {
                assert(is_block(fewer, source_len, starts, at, region));
            } else {
                assert(all[all.len() - 1] == region);
            }
        }
    } else {
        if exists|at: int| #[trigger] is_block(events, source_len, starts, at, region) {
            let at = choose|at: int| #[trigger] is_block(events, source_len, starts, at, region);
        }
    }
}

/// The folds of a document are the sections under its headings and its code blocks, all of
/// them and nothing else. A section holds no heading of its own rank or a higher one but
/// its own, and ends in front of the next such heading or with the document.
pub proof fn law_sections_end_before_their_equals(
    events: Seq<EventRecord>,
    source_len: int,
    starts: Seq<usize>,
    max_events: usize,
    cancel_after: Option<usize>,
    region: RawRegion,
)
    requires
        ascending(starts),
        starts.len() > 0,
        starts[0] == 0,
        starts.len() <= usize::MAX,
        headings_apart(events, starts),
    ensures
        markdown_folds(events, source_len, starts, max_events, cancel_after) is None
            <==> events.len() > max_events || (cancel_after matches Some(limit) && events.len()
            > limit),
        markdown_folds(events, source_len, starts, max_events, cancel_after) matches Some(regions)
            ==> (regions.contains(region) <==> (exists|at: int|
            #[trigger] is_section(events, starts, at, region)) || (exists|at: int|
            #[trigger] is_block(events, source_len, starts, at, region))),
{
    let headings = heading_lines(events, starts);
    let lines = starts.len() as int;
    let blocks = code_blocks(events, source_len, starts);
    let under = sections(headings, headings.len() as int, lines);
    lemma_blocks(events, source_len, starts, region);
    lemma_sections(headings, headings.len() as int, lines, region);
    let regions = blocks + under;
    if regions.contains(region) {
        let i = choose|i: int| 0 <= i < regions.len() && regions[i] == region;
        if i < blocks.len() {
            assert(blocks[i] == region);
        } else {
            assert(under[i - blocks.len()] == region);
        }
    }
    if blocks.contains(region) {
        let i = choose|i: int| 0 <= i < blocks.len() && blocks[i] == region;
        assert(regions[i] == region);
    }
    if under.contains(region) {
        let i = choose|i: int| 0 <= i < under.len() && under[i] == region;
        assert(regions[blocks.len() + i] == region);
        let k = choose|k: int|
            {
                &&& 0 <= k < headings.len()
                &&& (#[trigger] headings[k]).0 == region.start_line
                &&& section_end(headings, k, lines) == region.end_line
                &&& region.start_line < region.end_line
                &&& region.kind == FoldKind::Heading
            };
        lemma_listed_section(events, starts, k, region);
    }
    if exists|at: int| #[trigger] is_section(events, starts, at, region) {
        let at = choose|at: int| #[trigger] is_section(events, starts, at, region);
        lemma_section_listed(events, starts, at, region);
    }
}

proof fn lemma_listed_section(
    events: Seq<EventRecord>,
    starts: Seq<usize>,
    k: int,
    region: RawRegion,
)
    requires
        ascending(starts),
        starts.len() > 0,
        starts[0] == 0,
        starts.len() <= usize::MAX,
        headings_apart(events, starts),
        0 <= k < heading_lines(events, starts).len(),
        heading_lines(events, starts)[k].0 == region.start_line,
        section_end(heading_lines(events, starts), k, starts.len() as int) == region.end_line,
        region.start_line < region.end_line,
        region.kind == FoldKind::Heading,
    ensures
        exists|at: int| #[trigger] is_section(events, starts, at, region),
{
    let headings = heading_lines(events, starts);
    let lines = starts.len() as int;
    let rank = headings[k].1;
    let at = lemma_heading_event(events, starts, k);
    law_each_byte_has_one_line(starts, events[at].start as int);
    let next = next_section(headings, k + 1, rank, lines);
    lemma_next_section(headings, k + 1, rank, lines);
    assert(next > 0);
    let closing = choose|m: int|
        {
            &&& k + 1 <= m < headings.len()
            &&& (#[trigger] headings[m]).0 == next
            &&& headings[m].1 <= rank
            &&& forall|i: int| k + 1 <= i < m ==> (#[trigger] headings[i]).1 > rank
        };
    let open = next == lines && forall|m: int|
        k + 1 <= m < headings.len() ==> (#[trigger] headings[m]).1 > rank;
    if !open {
        let other = lemma_heading_event(events, starts, closing);
        law_each_byte_has_one_line(starts, events[other].start as int);
        assert(region.end_line + 1 == next);
        assert(holds_byte(starts, region.end_line + 1, events[other].start as int));
    } else {
        assert(region.end_line + 1 == lines);
    }
    assert forall|other: int, line: int|
        #![trigger holds_byte(starts, line, events[other].start as int)]
        is_heading(events, other) && holds_byte(starts, line, events[other].start as int)
            && region.start_line < line <= region.end_line implies rank_of(events[other])
        > rank_of(events[at]) by {
        let m = headings_before(events, other);
        lemma_heading_listed(events, starts, other);
        law_each_byte_has_one_line(starts, events[other].start as int);
        assert(headings[m].0 == line);
        if m < k {
            lemma_lines_ascend(events, starts, m, k);
        }
        assert(m > k);
        if headings[m].1 <= rank {
            assert(!open);
            assert(closing <= m);
            if closing < m {
                lemma_lines_ascend(events, starts, closing, m);
            }
            assert(false);
        }
    }
    assert(is_section(events, starts, at, region));
}

proof fn lemma_section_listed(
    events: Seq<EventRecord>,
    starts: Seq<usize>,
    at: int,
    region: RawRegion,
)
    requires
        ascending(starts),
        starts.len() > 0,
        starts[0] == 0,
        starts.len() <= usize::MAX,
        headings_apart(events, starts),
        is_section(events, starts, at, region),
    ensures
        sections(
            heading_lines(events, starts),
            heading_lines(events, starts).len() as int,
            starts.len() as int,
        ).contains(region),
{
    let headings = heading_lines(events, starts);
    let lines = starts.len() as int;
    lemma_heading_listed(events, starts, at);
    let k = headings_before(events, at);
    let rank = headings[k].1;
    law_each_byte_has_one_line(starts, events[at].start as int);
    assert(headings[k].0 == region.start_line);
    let next = next_section(headings, k + 1, rank, lines);
    lemma_next_section(headings, k + 1, rank, lines);
    let closing = choose|m: int|
        {
            &&& k + 1 <= m < headings.len()
            &&& (#[trigger] headings[m]).0 == next
            &&& headings[m].1 <= rank
            &&& forall|i: int| k + 1 <= i < m ==> (#[trigger] headings[i]).1 > rank
        };
    let open = next == lines && forall|m: int|
        k + 1 <= m < headings.len() ==> (#[trigger] headings[m]).1 > rank;
    if !open {
        // The heading that closes the section stands behind the region.
        let other = lemma_heading_event(events, starts, closing);
        law_each_byte_has_one_line(starts, events[other].start as int);
        lemma_lines_ascend(events, starts, k, closing);
        let line = line_at(starts, events[other].start as int);
        assert(holds_byte(starts, line, events[other].start as int));
        assert(line > region.end_line);
    }
    if region.end_line + 1 < lines {
        let other = choose|other: int| #[trigger]
            is_heading(events, other) && holds_byte(
                starts,
                region.end_line + 1,
                events[other].start as int,
            ) && rank_of(events[other]) <= rank_of(events[at]);
        let m = headings_before(events, other);
        lemma_heading_listed(events, starts, other);
        law_each_byte_has_one_line(starts, events[other].start as int);
        assert(headings[m].0 == region.end_line + 1);
        if m < k {
            lemma_lines_ascend(events, starts, m, k);
        }
        assert(m > k);
        assert(!open);
        assert(closing <= m);
        if closing < m {
            lemma_lines_ascend(events, starts, closing, m);
        }
        assert(next == region.end_line + 1);
    } else {
        assert(next == lines);
    }
    assert(section_end(headings, k, lines) == region.end_line);
    lemma_sections(headings, headings.len() as int, lines, region);
    assert(headings[k].0 == region.start_line);
}

// Normalization ---------------------------------------------------------------------------

/// The region folds something and ends inside the document.
pub open spec fn is_foldable(region: RawRegion, lines: int) -> bool {
    region.start_line < region.end_line && region.end_line < lines
}

/// Regions are ordered by their start, and the longer one first.
pub open spec fn precedes(left: RawRegion, right: RawRegion) -> bool {
    left.start_line < right.start_line || (left.start_line == right.start_line && left.end_line
        > right.end_line)
}

/// `region` put behind every region that it does not precede.
pub open spec fn placed(ordered: Seq<RawRegion>, region: RawRegion) -> Seq<RawRegion>
    decreases ordered.len(),
{
    if ordered.len() > 0 && precedes(region, ordered.last()) {
        placed(ordered.drop_last(), region).push(ordered.last())
    } else {
        ordered.push(region)
    }
}

/// The foldable regions in order; those that tie keep the order they came in.
pub open spec fn in_order(raw: Seq<RawRegion>, lines: int) -> Seq<RawRegion>
    decreases raw.len(),
{
    if raw.len() == 0 {
        Seq::empty()
    } else if is_foldable(raw.last(), lines) {
        placed(in_order(raw.drop_last(), lines), raw.last())
    } else {
        in_order(raw.drop_last(), lines)
    }
}

/// The regions still open at `line`, the innermost last.
pub open spec fn still_open(open: Seq<RawRegion>, line: int) -> Seq<RawRegion>
    decreases open.len(),
{
    if open.len() > 0 && open.last().end_line < line {
        still_open(open.drop_last(), line)
    } else {
        open
    }
}

/// The regions kept so far, and those of them that are open.
pub struct Nesting {
    pub kept: Seq<RawRegion>,
    pub open: Seq<RawRegion>,
}

/// Of the ordered regions, the first at each start line is kept, unless it
/// reaches beyond the innermost kept region that it begins in.
pub open spec fn nested(ordered: Seq<RawRegion>) -> Nesting
    decreases ordered.len(),
{
    if ordered.len() == 0 {
        Nesting { kept: Seq::empty(), open: Seq::empty() }
    } else {
        let earlier = nested(ordered.drop_last());
        let region = ordered.last();
        if earlier.kept.len() > 0 && earlier.kept.last().start_line == region.start_line {
            earlier
        } else {
            let open = still_open(earlier.open, region.start_line as int);
            if open.len() > 0 && region.end_line > open.last().end_line {
                Nesting { kept: earlier.kept, open }
            } else {
                Nesting { kept: earlier.kept.push(region), open: open.push(region) }
            }
        }
    }
}

/// The FNV-1a hash of 64 bits.
pub open spec fn fnv(bytes: Seq<u8>) -> u64
    decreases bytes.len(),
{
    if bytes.len() == 0 {
        0xcbf29ce484222325
    } else {
        vstd::wrapping::u64_specs::wrapping_mul(
            fnv(bytes.drop_last()) ^ (bytes.last() as u64),
            0x100000001b3,
        )
    }
}

pub fn stable_hash(bytes: &[u8]) -> (hash: u64)
    ensures
        hash == fnv(bytes@),
{
    let mut hash: u64 = 0xcbf29ce484222325;
    let mut index: usize = 0;
    while index < bytes.len()
        invariant
            index <= bytes@.len(),
            hash == fnv(bytes@.subrange(0, index as int)),
        decreases bytes@.len() - index,
    {
        assert(bytes@.subrange(0, index + 1).drop_last() =~= bytes@.subrange(0, index as int));
        hash = (hash ^ (bytes[index] as u64)).wrapping_mul(0x100000001b3);
        index = index + 1;
    }
    assert(bytes@.subrange(0, bytes@.len() as int) =~= bytes@);
    hash
}

/// The hash of a region's first line without the whitespace around it.
pub open spec fn header_hash(region: RawRegion, lines: Seq<String>) -> u64 {
    fnv(vstd::utf8::encode_utf8(trimmed(lines[region.start_line as int]@)))
}

/// How many of the first `count` regions have the kind and the header of `region`.
pub open spec fn occurrences(
    kept: Seq<RawRegion>,
    count: int,
    region: RawRegion,
    lines: Seq<String>,
) -> int
    decreases count,
{
    if count <= 0 {
        0
    } else {
        occurrences(kept, count - 1, region, lines) + (if kept[count - 1].kind == region.kind
            && header_hash(kept[count - 1], lines) == header_hash(region, lines) {
            1int
        } else {
            0
        })
    }
}

/// The region at `i` with its anchor. The count of occurrences stops at the
/// largest value it can hold.
pub open spec fn anchored(kept: Seq<RawRegion>, i: int, lines: Seq<String>) -> FoldRegion {
    let before = occurrences(kept, i, kept[i], lines);
    FoldRegion {
        start_line: kept[i].start_line,
        end_line: kept[i].end_line,
        kind: kept[i].kind,
        anchor: FoldAnchor {
            kind: kept[i].kind,
            header_hash: header_hash(kept[i], lines),
            occurrence: if before <= u32::MAX {
                before as u32
            } else {
                u32::MAX
            },
        },
    }
}

/// The regions of a fold tree: none if there are too many, else those that nest.
pub open spec fn fold_tree(raw: Seq<RawRegion>, lines: Seq<String>, max_regions: usize) -> Seq<
    FoldRegion,
> {
    if raw.len() > max_regions {
        Seq::empty()
    } else {
        let kept = nested(in_order(raw, lines.len() as int)).kept;
        Seq::new(kept.len(), |i: int| anchored(kept, i, lines))
    }
}

proof fn lemma_placed(ordered: Seq<RawRegion>, region: RawRegion, lines: int)
    requires
        is_foldable(region, lines),
        forall|i: int| 0 <= i < ordered.len() ==> is_foldable(#[trigger] ordered[i], lines),
        forall|i: int, j: int|
            0 <= i < j < ordered.len() ==> !precedes(#[trigger] ordered[j], #[trigger] ordered[i]),
    ensures
        placed(ordered, region).len() == ordered.len() + 1,
        forall|i: int|
            0 <= i < placed(ordered, region).len() ==> is_foldable(
                #[trigger] placed(ordered, region)[i],
                lines,
            ),
        forall|i: int|
            0 <= i < placed(ordered, region).len() ==> #[trigger] placed(ordered, region)[i]
                == region || ordered.contains(placed(ordered, region)[i]),
        forall|i: int, j: int|
            0 <= i < j < placed(ordered, region).len() ==> !precedes(
                #[trigger] placed(ordered, region)[j],
                #[trigger] placed(ordered, region)[i],
            ),
    decreases ordered.len(),
{
    if ordered.len() > 0 && precedes(region, ordered.last()) {
        let shorter = ordered.drop_last();
        lemma_placed(shorter, region, lines);
        let inner = placed(shorter, region);
        let all = placed(ordered, region);
        assert forall|i: int| 0 <= i < all.len() implies #[trigger] all[i] == region
            || ordered.contains(all[i]) by {
            if i < inner.len() {
                assert(inner[i] == all[i]);
                if all[i] != region {
                    assert(shorter.contains(inner[i]));
                    let k = choose|k: int| 0 <= k < shorter.len() && shorter[k] == inner[i];
                    assert(ordered[k] == inner[i]);
                }
            } else {
                assert(ordered[ordered.len() - 1] == all[i]);
            }
        }
        assert forall|i: int, j: int| 0 <= i < j < all.len() implies !precedes(
            #[trigger] all[j],
            #[trigger] all[i],
        ) by {
            if j == all.len() - 1 {
                assert(all[i] == inner[i]);
                if inner[i] != region {
                    assert(shorter.contains(inner[i]));
                    let k = choose|k: int| 0 <= k < shorter.len() && shorter[k] == inner[i];
                    assert(ordered[k] == inner[i]);
                }
            } else {
                assert(all[j] == inner[j]);
                assert(all[i] == inner[i]);
            }
        }
    } else {
        let all = placed(ordered, region);
        assert forall|i: int| 0 <= i < all.len() implies #[trigger] all[i] == region
            || ordered.contains(all[i]) by {
            if i < ordered.len() {
                assert(ordered[i] == all[i]);
            }
        }
        assert forall|i: int, j: int| 0 <= i < j < all.len() implies !precedes(
            #[trigger] all[j],
            #[trigger] all[i],
        ) by {
            if j == ordered.len() {
                assert(all[i] == ordered[i]);
                if precedes(region, ordered[i]) {
                    let last = ordered.len() - 1;
                    if i < last {
                        assert(!precedes(ordered[last], ordered[i]));
                    }
                    assert(precedes(region, ordered.last()));
                }
            } else {
                assert(all[i] == ordered[i] && all[j] == ordered[j]);
            }
        }
    }
}

proof fn lemma_in_order(raw: Seq<RawRegion>, lines: int)
    ensures
        forall|i: int|
            0 <= i < in_order(raw, lines).len() ==> is_foldable(
                #[trigger] in_order(raw, lines)[i],
                lines,
            ),
        forall|i: int, j: int|
            0 <= i < j < in_order(raw, lines).len() ==> !precedes(
                #[trigger] in_order(raw, lines)[j],
                #[trigger] in_order(raw, lines)[i],
            ),
    decreases raw.len(),
{
    if raw.len() > 0 {
        lemma_in_order(raw.drop_last(), lines);
        if is_foldable(raw.last(), lines) {
            lemma_placed(in_order(raw.drop_last(), lines), raw.last(), lines);
        }
    }
}

/// `inner` lies inside `outer` or behind it.
pub open spec fn fits(outer: FoldRegion, inner: FoldRegion) -> bool {
    outer.start_line < inner.start_line && (outer.end_line < inner.start_line || inner.end_line
        <= outer.end_line)
}

spec fn raw_fits(outer: RawRegion, inner: RawRegion) -> bool {
    outer.start_line < inner.start_line && (outer.end_line < inner.start_line || inner.end_line
        <= outer.end_line)
}

spec fn nesting_holds(nesting: Nesting, line: int, lines: int) -> bool {
    &&& forall|i: int, j: int|
        0 <= i < j < nesting.kept.len() ==> raw_fits(
            #[trigger] nesting.kept[i],
            #[trigger] nesting.kept[j],
        )
    &&& forall|i: int|
        0 <= i < nesting.kept.len() ==> (#[trigger] nesting.kept[i]).start_line <= line
            && is_foldable(nesting.kept[i], lines)
    &&& forall|i: int|
        0 <= i < nesting.kept.len() ==> (#[trigger] nesting.kept[i]).end_line < line
            || nesting.open.contains(nesting.kept[i])
    &&& forall|i: int, j: int|
        0 <= i < j < nesting.open.len() ==> (#[trigger] nesting.open[j]).end_line <= (
        #[trigger] nesting.open[i]).end_line
    &&& forall|i: int|
        0 <= i < nesting.open.len() ==> nesting.kept.contains(#[trigger] nesting.open[i])
}

proof fn lemma_still_open(open: Seq<RawRegion>, line: int)
    ensures
        still_open(open, line).len() <= open.len(),
        still_open(open, line) == open.subrange(0, still_open(open, line).len() as int),
        forall|i: int|
            still_open(open, line).len() <= i < open.len() ==> (#[trigger] open[i]).end_line
                < line,
    decreases open.len(),
{
    if open.len() > 0 && open.last().end_line < line {
        lemma_still_open(open.drop_last(), line);
        let shorter = open.drop_last();
        let left = still_open(open, line);
        assert(shorter.subrange(0, left.len() as int) =~= open.subrange(0, left.len() as int));
        assert forall|i: int| left.len() <= i < open.len() implies (#[trigger] open[i]).end_line
            < line by {
            if i < shorter.len() {
                assert(shorter[i] == open[i]);
            }
        }
    } else {
        assert(open.subrange(0, open.len() as int) =~= open);
    }
}

proof fn lemma_nested(ordered: Seq<RawRegion>, lines: int)
    requires
        forall|i: int| 0 <= i < ordered.len() ==> is_foldable(#[trigger] ordered[i], lines),
        forall|i: int, j: int|
            0 <= i < j < ordered.len() ==> !precedes(#[trigger] ordered[j], #[trigger] ordered[i]),
    ensures
        nesting_holds(
            nested(ordered),
            if ordered.len() > 0 {
                ordered.last().start_line as int
            } else {
                0
            },
            lines,
        ),
    decreases ordered.len(),
{
    if ordered.len() > 0 {
        let shorter = ordered.drop_last();
        assert forall|i: int, j: int| 0 <= i < j < shorter.len() implies !precedes(
            #[trigger] shorter[j],
            #[trigger] shorter[i],
        ) by {
            assert(shorter[i] == ordered[i] && shorter[j] == ordered[j]);
        }
        lemma_nested(shorter, lines);
        let earlier = nested(shorter);
        let region = ordered.last();
        let line = region.start_line as int;
        let now = nested(ordered);
        if shorter.len() > 0 {
            let last = shorter.len() - 1;
            assert(ordered[last] == shorter.last());
            assert(!precedes(ordered[ordered.len() - 1], ordered[last]));
            assert(shorter.last().start_line <= line);
        }
        let open = still_open(earlier.open, line);
        lemma_still_open(earlier.open, line);
        assert forall|i: int| 0 <= i < earlier.kept.len() implies (
        #[trigger] earlier.kept[i]).end_line < line || open.contains(earlier.kept[i]) by {
            let kept = earlier.kept[i];
            if kept.end_line >= line {
                assert(earlier.open.contains(kept));
                let k = choose|k: int| 0 <= k < earlier.open.len() && earlier.open[k] == kept;
                assert(k < open.len());
                assert(open[k] == kept);
            }
        }
        assert forall|i: int| 0 <= i < open.len() implies earlier.kept.contains(
            #[trigger] open[i],
        ) by {
            assert(open[i] == earlier.open[i]);
        }
        assert forall|i: int, j: int| 0 <= i < j < open.len() implies (
        #[trigger] open[j]).end_line <= (#[trigger] open[i]).end_line by {
            assert(open[i] == earlier.open[i] && open[j] == earlier.open[j]);
        }
        if earlier.kept.len() > 0 && earlier.kept.last().start_line == region.start_line {
            assert forall|i: int| 0 <= i < earlier.kept.len() implies (
            #[trigger] earlier.kept[i]).end_line < line || earlier.open.contains(
                earlier.kept[i],
            ) by {}
        } else if open.len() > 0 && region.end_line > open.last().end_line {
        } else {
            assert forall|i: int| 0 <= i < earlier.kept.len() implies raw_fits(
                #[trigger] earlier.kept[i],
                region,
            ) by {
                let kept = earlier.kept[i];
                let last = earlier.kept.len() - 1;
                if i < last {
                    assert(raw_fits(kept, earlier.kept[last]));
                }
                assert(earlier.kept[last].start_line < line);
                if kept.end_line >= line {
                    assert(open.contains(kept));
                    let k = choose|k: int| 0 <= k < open.len() && open[k] == kept;
                    if k < open.len() - 1 {
                        assert(open[open.len() - 1].end_line <= open[k].end_line);
                    }
                }
            }
            assert forall|i: int, j: int| 0 <= i < j < now.kept.len() implies raw_fits(
                #[trigger] now.kept[i],
                #[trigger] now.kept[j],
            ) by {
                assert(now.kept[i] == earlier.kept[i]);
                if j < earlier.kept.len() {
                    assert(now.kept[j] == earlier.kept[j]);
                }
            }
            assert forall|i: int| 0 <= i < now.kept.len() implies (
            #[trigger] now.kept[i]).end_line < line || now.open.contains(now.kept[i]) by {
                if i < earlier.kept.len() {
                    let kept = earlier.kept[i];
                    if kept.end_line >= line {
                        let k = choose|k: int| 0 <= k < open.len() && open[k] == kept;
                        assert(now.open[k] == kept);
                    }
                } else {
                    assert(now.open[open.len() as int] == region);
                }
            }
            assert forall|i: int, j: int| 0 <= i < j < now.open.len() implies (
            #[trigger] now.open[j]).end_line <= (#[trigger] now.open[i]).end_line by {
                assert(now.open[i] == open[i]);
                if j < open.len() {
                    assert(now.open[j] == open[j]);
                } else if i < open.len() - 1 {
                    assert(open[open.len() - 1].end_line <= open[i].end_line);
                }
            }
            assert forall|i: int| 0 <= i < now.open.len() implies now.kept.contains(
                #[trigger] now.open[i],
            ) by {
                if i < open.len() {
                    assert(earlier.kept.contains(open[i]));
                    let k = choose|k: int|
                        0 <= k < earlier.kept.len() && earlier.kept[k] == open[i];
                    assert(now.kept[k] == open[i]);
                } else {
                    assert(now.kept[earlier.kept.len() as int] == region);
                }
            }
        }
    }
}

/// A fold tree is a tree: its regions start on different lines in ascending
/// order, each spans more than one line of the document, and of any two the
/// later lies inside the earlier or behind it.
pub proof fn law_folds_nest(raw: Seq<RawRegion>, lines: Seq<String>, max_regions: usize)
    ensures
        forall|i: int, j: int|
            0 <= i < j < fold_tree(raw, lines, max_regions).len() ==> fits(
                #[trigger] fold_tree(raw, lines, max_regions)[i],
                #[trigger] fold_tree(raw, lines, max_regions)[j],
            ),
        forall|i: int|
            0 <= i < fold_tree(raw, lines, max_regions).len() ==> {
                let region = #[trigger] fold_tree(raw, lines, max_regions)[i];
                region.start_line < region.end_line < lines.len()
            },
{
    lemma_in_order(raw, lines.len() as int);
    lemma_nested(in_order(raw, lines.len() as int), lines.len() as int);
    let kept = nested(in_order(raw, lines.len() as int)).kept;
    let tree = fold_tree(raw, lines, max_regions);
    assert forall|i: int, j: int| 0 <= i < j < tree.len() implies fits(
        #[trigger] tree[i],
        #[trigger] tree[j],
    ) by {
        assert(raw_fits(kept[i], kept[j]));
    }
    assert forall|i: int| 0 <= i < tree.len() implies {
        let region = #[trigger] tree[i];
        region.start_line < region.end_line < lines.len()
    } by {
        assert(is_foldable(kept[i], lines.len() as int));
    }
}

proof fn lemma_occurrences_grow(kept: Seq<RawRegion>, i: int, j: int, lines: Seq<String>)
    requires
        0 <= i < j <= kept.len(),
    ensures
        0 <= occurrences(kept, i, kept[i], lines) <= i,
        occurrences(kept, i, kept[i], lines) < occurrences(kept, j, kept[i], lines),
    decreases j,
{
    lemma_occurrences_bound(kept, i, kept[i], lines);
    if i + 1 < j {
        lemma_occurrences_grow(kept, i, j - 1, lines);
    }
}

proof fn lemma_occurrences_bound(
    kept: Seq<RawRegion>,
    count: int,
    region: RawRegion,
    lines: Seq<String>,
)
    requires
        0 <= count <= kept.len(),
    ensures
        0 <= occurrences(kept, count, region, lines) <= count,
    decreases count,
{
    if count > 0 {
        lemma_occurrences_bound(kept, count - 1, region, lines);
    }
}

proof fn lemma_occurrences_of_equals(
    kept: Seq<RawRegion>,
    count: int,
    left: RawRegion,
    right: RawRegion,
    lines: Seq<String>,
)
    requires
        left.kind == right.kind,
        header_hash(left, lines) == header_hash(right, lines),
    ensures
        occurrences(kept, count, left, lines) == occurrences(kept, count, right, lines),
    decreases count,
{
    if count > 0 {
        lemma_occurrences_of_equals(kept, count - 1, left, right, lines);
    }
}

/// No two folds of a document have the same anchor.
pub proof fn law_anchors_are_unique(
    raw: Seq<RawRegion>,
    lines: Seq<String>,
    max_regions: usize,
    i: int,
    j: int,
)
    requires
        0 <= i < j < fold_tree(raw, lines, max_regions).len(),
        fold_tree(raw, lines, max_regions).len() <= u32::MAX,
    ensures
        fold_tree(raw, lines, max_regions)[i].anchor != fold_tree(
            raw,
            lines,
            max_regions,
        )[j].anchor,
{
    let kept = nested(in_order(raw, lines.len() as int)).kept;
    if kept[i].kind == kept[j].kind && header_hash(kept[i], lines) == header_hash(
        kept[j],
        lines,
    ) {
        lemma_occurrences_grow(kept, i, j, lines);
        lemma_occurrences_of_equals(kept, j, kept[i], kept[j], lines);
        lemma_occurrences_bound(kept, j, kept[j], lines);
    }
}

fn region_precedes(left: &RawRegion, right: &RawRegion) -> (before: bool)
    ensures
        before == precedes(*left, *right),
{
    left.start_line < right.start_line || (left.start_line == right.start_line && left.end_line
        > right.end_line)
}

/// Puts `region` behind every region that it does not precede.
fn place(ordered: &mut Vec<RawRegion>, region: RawRegion)
    ensures
        final(ordered)@ == placed(old(ordered)@, region),
{
    let ghost given = ordered@;
    let mut at: usize = ordered.len();
    let ghost mut behind = Seq::<RawRegion>::empty();
    proof {
        assert(given.subrange(0, given.len() as int) =~= given);
        assert(placed(given, region) + behind =~= placed(given, region));
    }
    while at > 0 && region_precedes(&region, &ordered[at - 1])
        invariant
            at <= ordered@.len(),
            ordered@ == given,
            behind == given.subrange(at as int, given.len() as int),
            placed(given.subrange(0, at as int), region) + behind == placed(given, region),
        decreases at,
    {
        proof {
            let prefix = given.subrange(0, at as int);
            assert(prefix.drop_last() =~= given.subrange(0, at - 1));
            let next = given.subrange(at - 1, given.len() as int);
            assert(next =~= seq![prefix.last()] + behind);
            assert(placed(prefix.drop_last(), region).push(prefix.last()) + behind =~= placed(
                prefix.drop_last(),
                region,
            ) + next);
            behind = next;
        }
        at = at - 1;
    }
    ordered.insert(at, region);
    assert(ordered@ =~= given.subrange(0, at as int).push(region) + behind);
}

fn order_regions(raw: &Vec<RawRegion>, lines: usize) -> (ordered: Vec<RawRegion>)
    ensures
        ordered@ == in_order(raw@, lines as int),
{
    let mut ordered: Vec<RawRegion> = Vec::new();
    let mut index: usize = 0;
    while index < raw.len()
        invariant
            index <= raw@.len(),
            ordered@ == in_order(raw@.subrange(0, index as int), lines as int),
        decreases raw@.len() - index,
    {
        assert(raw@.subrange(0, index + 1).drop_last() =~= raw@.subrange(0, index as int));
        let region = raw[index];
        if region.start_line < region.end_line && region.end_line < lines {
            place(&mut ordered, region);
        }
        index = index + 1;
    }
    assert(raw@.subrange(0, raw@.len() as int) =~= raw@);
    ordered
}

fn nest_regions(ordered: &Vec<RawRegion>) -> (kept: Vec<RawRegion>)
    ensures
        kept@ == nested(ordered@).kept,
{
    let mut kept: Vec<RawRegion> = Vec::new();
    let mut open: Vec<RawRegion> = Vec::new();
    let mut index: usize = 0;
    while index < ordered.len()
        invariant
            index <= ordered@.len(),
            kept@ == nested(ordered@.subrange(0, index as int)).kept,
            open@ == nested(ordered@.subrange(0, index as int)).open,
        decreases ordered@.len() - index,
    {
        assert(ordered@.subrange(0, index + 1).drop_last() =~= ordered@.subrange(
            0,
            index as int,
        ));
        let region = ordered[index];
        if !(kept.len() > 0 && kept[kept.len() - 1].start_line == region.start_line) {
            let ghost given = open@;
            while open.len() > 0 && open[open.len() - 1].end_line < region.start_line
                invariant
                    still_open(open@, region.start_line as int) == still_open(
                        given,
                        region.start_line as int,
                    ),
                decreases open@.len(),
            {
                let ghost before = open@;
                open.pop();
                assert(open@ =~= before.drop_last());
            }
            if !(open.len() > 0 && region.end_line > open[open.len() - 1].end_line) {
                kept.push(region);
                open.push(region);
            }
        }
        index = index + 1;
    }
    assert(ordered@.subrange(0, ordered@.len() as int) =~= ordered@);
    kept
}

/// Fits raw regions into a fold tree and gives each its anchor.
pub fn normalize_regions(raw: &Vec<RawRegion>, lines: &Vec<String>, max_regions: usize) -> (folds:
    Vec<FoldRegion>)
    ensures
        folds@ == fold_tree(raw@, lines@, max_regions),
{
    let mut folds: Vec<FoldRegion> = Vec::new();
    if raw.len() > max_regions {
        return folds;
    }
    let ordered = order_regions(raw, lines.len());
    let kept = nest_regions(&ordered);
    proof {
        lemma_in_order(raw@, lines@.len() as int);
        lemma_nested(ordered@, lines@.len() as int);
    }
    let mut index: usize = 0;
    while index < kept.len()
        invariant
            index <= kept@.len(),
            folds@.len() == index,
            forall|i: int|
                0 <= i < kept@.len() ==> is_foldable(#[trigger] kept@[i], lines@.len() as int),
            forall|i: int|
                0 <= i < index ==> #[trigger] folds@[i] == anchored(kept@, i, lines@),
        decreases kept@.len() - index,
    {
        let region = kept[index];
        assert(is_foldable(kept@[index as int], lines@.len() as int));
        let header = trim_text(lines[region.start_line].as_str());
        let header_hash = stable_hash(header.as_str().as_bytes());
        let mut occurrence: u32 = 0;
        let mut earlier: usize = 0;
        while earlier < index
            invariant
                earlier <= index < kept@.len(),
                folds@.len() == index,
                region == kept@[index as int],
                header_hash == self::header_hash(region, lines@),
                forall|i: int|
                    0 <= i < index ==> #[trigger] folds@[i] == anchored(kept@, i, lines@),
                occurrence == (if occurrences(kept@, earlier as int, region, lines@) <= u32::MAX {
                    occurrences(kept@, earlier as int, region, lines@)
                } else {
                    u32::MAX as int
                }),
            decreases index - earlier,
        {
            assert(folds@[earlier as int] == anchored(kept@, earlier as int, lines@));
            if folds[earlier].kind == region.kind && folds[earlier].anchor.header_hash
                == header_hash {
                occurrence = occurrence.saturating_add(1);
            }
            earlier = earlier + 1;
        }
        folds.push(
            FoldRegion {
                start_line: region.start_line,
                end_line: region.end_line,
                kind: region.kind,
                anchor: FoldAnchor { kind: region.kind, header_hash, occurrence },
            },
        );
        index = index + 1;
    }
    assert(folds@ =~= fold_tree(raw@, lines@, max_regions));
    folds
}

// Which nodes fold ------------------------------------------------------------------------

/// A function of Rust stands in the body of an implementation or of a trait.
pub open spec fn stands_in_a_body(nodes: Seq<NodeRecord>, i: int) -> bool {
    &&& nodes[i].parent is Some
    &&& nodes[nodes[i].parent->0 as int].kind == "declaration_list"@
    &&& nodes[nodes[i].parent->0 as int].parent is Some
    &&& ({
        let owner = nodes[nodes[nodes[i].parent->0 as int].parent->0 as int].kind;
        owner == "impl_item"@ || owner == "trait_item"@
    })
}

/// A node of Rust folds as what it declares.
pub proof fn law_rust_nodes_fold_by_kind(nodes: Seq<NodeRecord>, i: int, budget: WorkBudget)
    ensures
        ({
            let kind = nodes[i].kind;
            node_fold_kind(CodeLanguage::Rust, nodes, i, budget) matches Some((found, left)) && {
                &&& left == budget
                &&& found == Some(FoldKind::Function) <==> kind == "function_item"@
                    && !stands_in_a_body(nodes, i)
                &&& found == Some(FoldKind::Method) <==> kind == "function_item"@
                    && stands_in_a_body(nodes, i)
                &&& found == Some(FoldKind::Type) <==> (
                    kind == "struct_item"@ || kind == "enum_item"@ || kind == "union_item"@
                    || kind == "trait_item"@ || kind == "type_item"@ || kind == "impl_item"@
                )
                &&& found == Some(FoldKind::Module) <==> kind == "mod_item"@
                &&& found != Some(FoldKind::Heading) && found != Some(FoldKind::CodeBlock)
            }
        }),
{
    reveal_strlit("function_item");
    reveal_strlit("struct_item");
    reveal_strlit("enum_item");
    reveal_strlit("union_item");
    reveal_strlit("trait_item");
    reveal_strlit("type_item");
    reveal_strlit("impl_item");
    reveal_strlit("mod_item");
    assert("function_item"@.len() == 13);
    assert("struct_item"@.len() == 11);
    assert("enum_item"@.len() == 9);
    assert("union_item"@.len() == 10);
    assert("trait_item"@.len() == 10);
    assert("type_item"@.len() == 9);
    assert("impl_item"@.len() == 9);
    assert("mod_item"@.len() == 8);
    assert("enum_item"@[0] == 'e' && "type_item"@[0] == 't');
    assert("enum_item"@[0] == 'e' && "impl_item"@[0] == 'i');
    assert("union_item"@[0] == 'u' && "trait_item"@[0] == 't');
    assert("type_item"@[0] == 't' && "impl_item"@[0] == 'i');
}

/// A node of TypeScript or of JavaScript folds as what it declares.
pub proof fn law_script_nodes_fold_by_kind(
    language: CodeLanguage,
    nodes: Seq<NodeRecord>,
    i: int,
    budget: WorkBudget,
)
    requires
        language is TypeScript || language is JavaScript,
    ensures
        ({
            let kind = nodes[i].kind;
            node_fold_kind(language, nodes, i, budget) matches Some((found, left)) && {
                &&& left == budget
                &&& found == Some(FoldKind::Function) <==> (
                    kind == "function_declaration"@ || kind == "function_expression"@
                    || kind == "arrow_function"@ || kind == "generator_function"@
                    || kind == "generator_function_declaration"@
                )
                &&& found == Some(FoldKind::Method) <==> (
                    kind == "method_definition"@ || kind == "abstract_method_signature"@
                    || kind == "method_signature"@
                )
                &&& found == Some(FoldKind::Type) <==> (
                    kind == "class_declaration"@ || kind == "class"@
                    || kind == "abstract_class_declaration"@ || kind == "interface_declaration"@
                    || kind == "enum_declaration"@ || kind == "type_alias_declaration"@
                )
                &&& found == Some(FoldKind::Module) <==> (
                    kind == "internal_module"@ || kind == "ambient_declaration"@
                )
                &&& found != Some(FoldKind::Heading) && found != Some(FoldKind::CodeBlock)
            }
        }),
{
    reveal_strlit("function_declaration");
    reveal_strlit("function_expression");
    reveal_strlit("arrow_function");
    reveal_strlit("generator_function");
    reveal_strlit("generator_function_declaration");
    reveal_strlit("method_definition");
    reveal_strlit("abstract_method_signature");
    reveal_strlit("method_signature");
    reveal_strlit("class_declaration");
    reveal_strlit("class");
    reveal_strlit("abstract_class_declaration");
    reveal_strlit("interface_declaration");
    reveal_strlit("enum_declaration");
    reveal_strlit("type_alias_declaration");
    reveal_strlit("internal_module");
    reveal_strlit("ambient_declaration");
    assert("function_declaration"@.len() == 20);
    assert("function_expression"@.len() == 19);
    assert("arrow_function"@.len() == 14);
    assert("generator_function"@.len() == 18);
    assert("generator_function_declaration"@.len() == 30);
    assert("method_definition"@.len() == 17);
    assert("abstract_method_signature"@.len() == 25);
    assert("method_signature"@.len() == 16);
    assert("class_declaration"@.len() == 17);
    assert("class"@.len() == 5);
    assert("abstract_class_declaration"@.len() == 26);
    assert("interface_declaration"@.len() == 21);
    assert("enum_declaration"@.len() == 16);
    assert("type_alias_declaration"@.len() == 22);
    assert("internal_module"@.len() == 15);
    assert("ambient_declaration"@.len() == 19);
    assert("function_expression"@[0] == 'f' && "ambient_declaration"@[0] == 'a');
    assert("method_definition"@[0] == 'm' && "class_declaration"@[0] == 'c');
    assert("method_signature"@[0] == 'm' && "enum_declaration"@[0] == 'e');
}

/// A node of Go folds as what it declares.
pub proof fn law_go_nodes_fold_by_kind(nodes: Seq<NodeRecord>, i: int, budget: WorkBudget)
    ensures
        ({
            let kind = nodes[i].kind;
            node_fold_kind(CodeLanguage::Go, nodes, i, budget) matches Some((found, left)) && {
                &&& left == budget
                &&& found == Some(FoldKind::Function) <==> kind == "function_declaration"@
                &&& found == Some(FoldKind::Method) <==> kind == "method_declaration"@
                &&& found == Some(FoldKind::Type) <==> kind == "type_declaration"@
                &&& found != Some(FoldKind::Module) && found != Some(FoldKind::Heading) && found
                    != Some(FoldKind::CodeBlock)
            }
        }),
{
    reveal_strlit("function_declaration");
    reveal_strlit("method_declaration");
    reveal_strlit("type_declaration");
    assert("function_declaration"@.len() == 20);
    assert("method_declaration"@.len() == 18);
    assert("type_declaration"@.len() == 16);
}

/// A class of Python folds as a type. A function folds as a method where the innermost class
/// or function around it is a class, and as a function where it is a function or none is.
pub proof fn law_python_nodes_fold_by_kind(nodes: Seq<NodeRecord>, i: int, cancelled: Option<usize>)
    requires
        is_listing(nodes),
        0 <= i < nodes.len(),
        cancelled is None,
    ensures
        ({
            let kind = nodes[i].kind;
            let budget = WorkBudget { used: 0, cancel_after: cancelled };
            node_fold_kind(CodeLanguage::Python, nodes, i, budget) matches Some((found, left)) && {
                &&& found == Some(FoldKind::Type) <==> kind == "class_definition"@
                &&& found is None <==> kind != "class_definition"@ && kind != "function_definition"@
                &&& kind == "function_definition"@ ==> {
                    &&& nodes[i].parent is None ==> found == Some(FoldKind::Function)
                    &&& nodes[i].parent matches Some(parent) ==> {
                        let above = nodes[parent as int].kind;
                        &&& above == "class_definition"@ ==> found == Some(FoldKind::Method)
                        &&& above == "function_definition"@ || above == "lambda"@ ==> found == Some(
                            FoldKind::Function,
                        )
                    }
                }
            }
        }),
{
    reveal_strlit("class_definition");
    reveal_strlit("function_definition");
    reveal_strlit("lambda");
    assert("class_definition"@.len() == 16);
    assert("function_definition"@.len() == 19);
    assert("lambda"@.len() == 6);
    reveal_with_fuel(python_function, 2);
    if nodes[i].parent is Some {
        assert(nodes[i].parent->0 < i);
        lemma_python_above(
            nodes,
            nodes[i].parent->0,
            WorkBudget { used: 0, cancel_after: cancelled },
        );
    }
}

/// What a function of Python is goes past every node but classes, functions and lambdas.
pub proof fn law_python_functions_look_outwards(
    nodes: Seq<NodeRecord>,
    at: usize,
    left: WorkBudget,
    right: WorkBudget,
)
    requires
        is_listing(nodes),
        at < nodes.len(),
        left.cancel_after is None,
        right.cancel_after is None,
        nodes[at as int].kind != "class_definition"@,
        nodes[at as int].kind != "function_definition"@,
        nodes[at as int].kind != "lambda"@,
    ensures
        python_function(nodes, Some(at), left) is Some,
        python_function(nodes, nodes[at as int].parent, right) is Some,
        (python_function(nodes, Some(at), left)->0).0 == (python_function(
            nodes,
            nodes[at as int].parent,
            right,
        )->0).0,
{
    reveal_with_fuel(python_function, 2);
    lemma_python_above(nodes, at, left);
    match nodes[at as int].parent {
        None => {},
        Some(parent) => {
            assert(parent < at);
            lemma_python_above(nodes, parent, right);
            lemma_python_alike(nodes, Some(parent), left.stepped(), right);
        },
    }
}

proof fn lemma_python_above(nodes: Seq<NodeRecord>, at: usize, budget: WorkBudget)
    requires
        is_listing(nodes),
        at < nodes.len(),
        budget.cancel_after is None,
    ensures
        python_function(nodes, Some(at), budget) is Some,
        (python_function(nodes, Some(at), budget)->0).0 is Function || (python_function(
            nodes,
            Some(at),
            budget,
        )->0).0 is Method,
    decreases at,
{
    reveal_with_fuel(python_function, 2);
    if let Some(parent) = nodes[at as int].parent {
        assert(parent < at);
        lemma_python_above(nodes, parent, budget.stepped());
    }
}

proof fn lemma_python_alike(
    nodes: Seq<NodeRecord>,
    ancestor: Option<usize>,
    left: WorkBudget,
    right: WorkBudget,
)
    requires
        is_listing(nodes),
        ancestor matches Some(at) ==> at < nodes.len(),
        left.cancel_after is None,
        right.cancel_after is None,
    ensures
        python_function(nodes, ancestor, left) is Some,
        python_function(nodes, ancestor, right) is Some,
        (python_function(nodes, ancestor, left)->0).0 == (python_function(
            nodes,
            ancestor,
            right,
        )->0).0,
    decreases
            (match ancestor {
                Some(at) => at + 1,
                None => 0int,
            }),
{
    if let Some(at) = ancestor {
        if let Some(parent) = nodes[at as int].parent {
            assert(parent < at);
        }
        lemma_python_alike(nodes, nodes[at as int].parent, left.stepped(), right.stepped());
    }
}

// Which regions become folds --------------------------------------------------------------

/// A fold with the lines and the kind of a region.
pub open spec fn shows_region(fold: FoldRegion, region: RawRegion) -> bool {
    fold.start_line == region.start_line && fold.end_line == region.end_line && fold.kind
        == region.kind
}

/// A fold that stands in the way of a region: it begins on the same line and reaches as far,
/// or it begins before the region and ends within it.
pub open spec fn bars(fold: FoldRegion, region: RawRegion) -> bool {
    ||| fold.start_line == region.start_line && fold.end_line >= region.end_line
    ||| fold.start_line < region.start_line <= fold.end_line < region.end_line
}

spec fn raw_bars(kept: RawRegion, region: RawRegion) -> bool {
    ||| kept.start_line == region.start_line && kept.end_line >= region.end_line
    ||| kept.start_line < region.start_line <= kept.end_line < region.end_line
}

proof fn lemma_all_placed(ordered: Seq<RawRegion>, region: RawRegion)
    ensures
        placed(ordered, region).contains(region),
        forall|i: int|
            0 <= i < ordered.len() ==> placed(ordered, region).contains(#[trigger] ordered[i]),
    decreases ordered.len(),
{
    let all = placed(ordered, region);
    if ordered.len() > 0 && precedes(region, ordered.last()) {
        let front = ordered.drop_last();
        lemma_all_placed(front, region);
        let inner = placed(front, region);
        let k = choose|k: int| 0 <= k < inner.len() && inner[k] == region;
        assert(all[k] == region);
        assert forall|i: int| 0 <= i < ordered.len() implies all.contains(
            #[trigger] ordered[i],
        ) by {
            if i < front.len() {
                assert(inner.contains(front[i]));
                let m = choose|m: int| 0 <= m < inner.len() && inner[m] == front[i];
                assert(all[m] == ordered[i]);
            } else {
                assert(all[all.len() - 1] == ordered[i]);
            }
        }
    } else {
        assert(all[ordered.len() as int] == region);
        assert forall|i: int| 0 <= i < ordered.len() implies all.contains(
            #[trigger] ordered[i],
        ) by {
            assert(all[i] == ordered[i]);
        }
    }
}

proof fn lemma_all_in_order(raw: Seq<RawRegion>, lines: int)
    ensures
        forall|i: int|
            0 <= i < raw.len() && is_foldable(#[trigger] raw[i], lines) ==> in_order(
                raw,
                lines,
            ).contains(raw[i]),
        forall|i: int|
            0 <= i < in_order(raw, lines).len() ==> raw.contains(#[trigger] in_order(raw, lines)[i]),
    decreases raw.len(),
{
    if raw.len() > 0 {
        let front = raw.drop_last();
        lemma_all_in_order(front, lines);
        let before = in_order(front, lines);
        let all = in_order(raw, lines);
        lemma_in_order(front, lines);
        if is_foldable(raw.last(), lines) {
            lemma_all_placed(before, raw.last());
            lemma_placed(before, raw.last(), lines);
        }
        assert forall|i: int| 0 <= i < raw.len() && is_foldable(
            #[trigger] raw[i],
            lines,
        ) implies all.contains(raw[i]) by {
            if i < front.len() {
                assert(front[i] == raw[i]);
                assert(before.contains(raw[i]));
                let k = choose|k: int| 0 <= k < before.len() && before[k] == raw[i];
                assert(all.contains(before[k]));
            }
        }
        assert forall|i: int| 0 <= i < all.len() implies raw.contains(#[trigger] all[i]) by {
            if is_foldable(raw.last(), lines) && all[i] == raw.last() {
                assert(raw[raw.len() - 1] == all[i]);
            } else {
                assert(before.contains(all[i]));
                let k = choose|k: int| 0 <= k < before.len() && before[k] == all[i];
                assert(front.contains(before[k]));
                let m = choose|m: int| 0 <= m < front.len() && front[m] == before[k];
                assert(raw[m] == all[i]);
            }
        }
    }
}

proof fn lemma_last_open(open: Seq<RawRegion>, line: int)
    ensures
        still_open(open, line).len() > 0 ==> still_open(open, line).last().end_line >= line,
    decreases open.len(),
{
    if open.len() > 0 && open.last().end_line < line {
        lemma_last_open(open.drop_last(), line);
    }
}

spec fn is_barred(kept: Seq<RawRegion>, region: RawRegion) -> bool {
    exists|m: int| 0 <= m < kept.len() && raw_bars(#[trigger] kept[m], region)
}

proof fn lemma_barred(earlier: Nesting, front: Seq<RawRegion>, region: RawRegion, lines: int)
    requires
        earlier == nested(front),
        nesting_holds(
            earlier,
            if front.len() > 0 {
                front.last().start_line as int
            } else {
                0
            },
            lines,
        ),
        forall|m: int|
            0 <= m < earlier.kept.len() ==> (#[trigger] earlier.kept[m]).start_line
                <= region.start_line && (earlier.kept[m].start_line == region.start_line
                ==> earlier.kept[m].end_line >= region.end_line),
    ensures
        is_barred(nested(front.push(region)).kept, region),
{
    let ordered = front.push(region);
    assert(ordered.drop_last() =~= front);
    assert(ordered.last() == region);
    let line = region.start_line as int;
    let open = still_open(earlier.open, line);
    lemma_still_open(earlier.open, line);
    lemma_last_open(earlier.open, line);
    let kept = nested(ordered).kept;
    if earlier.kept.len() > 0 && earlier.kept.last().start_line == region.start_line {
        assert(raw_bars(kept[earlier.kept.len() - 1], region));
    } else if open.len() > 0 && region.end_line > open.last().end_line {
        let last = open.len() - 1;
        assert(earlier.open[last] == open.last());
        assert(earlier.kept.contains(earlier.open[last]));
        let m = choose|m: int| 0 <= m < earlier.kept.len() && earlier.kept[m] == open.last();
        let top = earlier.kept.len() - 1;
        if m < top {
            assert(raw_fits(earlier.kept[m], earlier.kept[top]));
        }
        assert(earlier.kept[top].start_line < line);
        assert(raw_bars(kept[m], region));
    } else {
        assert(kept[earlier.kept.len() as int] == region);
        assert(raw_bars(kept[earlier.kept.len() as int], region));
    }
}

proof fn lemma_nothing_lost(ordered: Seq<RawRegion>, lines: int)
    requires
        forall|i: int| 0 <= i < ordered.len() ==> is_foldable(#[trigger] ordered[i], lines),
        forall|i: int, j: int|
            0 <= i < j < ordered.len() ==> !precedes(#[trigger] ordered[j], #[trigger] ordered[i]),
    ensures
        forall|i: int|
            0 <= i < nested(ordered).kept.len() ==> ordered.contains(
                #[trigger] nested(ordered).kept[i],
            ),
        forall|i: int|
            0 <= i < ordered.len() ==> is_barred(nested(ordered).kept, #[trigger] ordered[i]),
    decreases ordered.len(),
{
    if ordered.len() > 0 {
        let front = ordered.drop_last();
        assert forall|i: int, j: int| 0 <= i < j < front.len() implies !precedes(
            #[trigger] front[j],
            #[trigger] front[i],
        ) by {
            assert(front[i] == ordered[i] && front[j] == ordered[j]);
        }
        assert forall|i: int| 0 <= i < front.len() implies is_foldable(
            #[trigger] front[i],
            lines,
        ) by {
            assert(front[i] == ordered[i]);
        }
        lemma_nothing_lost(front, lines);
        lemma_nested(front, lines);
        let earlier = nested(front);
        let region = ordered.last();
        let now = nested(ordered);
        let line = region.start_line as int;
        assert forall|i: int| 0 <= i < now.kept.len() implies ordered.contains(
            #[trigger] now.kept[i],
        ) by {
            if i < earlier.kept.len() {
                assert(now.kept[i] == earlier.kept[i]);
                let k = choose|k: int| 0 <= k < front.len() && front[k] == earlier.kept[i];
                assert(ordered[k] == now.kept[i]);
            } else {
                assert(ordered[ordered.len() - 1] == now.kept[i]);
            }
        }
        assert forall|m: int| 0 <= m < earlier.kept.len() implies (
        #[trigger] earlier.kept[m]).start_line <= line && (earlier.kept[m].start_line == line
            ==> earlier.kept[m].end_line >= region.end_line) by {
            let k = choose|k: int| 0 <= k < front.len() && front[k] == earlier.kept[m];
            assert(ordered[k] == earlier.kept[m]);
            assert(!precedes(ordered[ordered.len() - 1], ordered[k]));
        }
        assert(ordered =~= front.push(region));
        lemma_barred(earlier, front, region, lines);
        assert forall|i: int| 0 <= i < ordered.len() implies is_barred(
            now.kept,
            #[trigger] ordered[i],
        ) by {
            if i < front.len() {
                assert(is_barred(earlier.kept, front[i]));
                let m = choose|m: int|
                    0 <= m < earlier.kept.len() && raw_bars(#[trigger] earlier.kept[m], front[i]);
                assert(now.kept[m] == earlier.kept[m]);
            }
        }
    }
}

/// Every fold shows a region, and every region of several lines is a fold, or another fold
/// stands in its way. Where there are too many regions, nothing folds.
pub proof fn law_regions_fold_unless_barred(
    raw: Seq<RawRegion>,
    lines: Seq<String>,
    max_regions: usize,
)
    ensures
        raw.len() > max_regions ==> fold_tree(raw, lines, max_regions).len() == 0,
        raw.len() <= max_regions ==> {
            let folds = fold_tree(raw, lines, max_regions);
            &&& forall|i: int|
                0 <= i < folds.len() ==> exists|k: int|
                    0 <= k < raw.len() && shows_region(#[trigger] folds[i], #[trigger] raw[k])
            &&& forall|k: int|
                0 <= k < raw.len() && (#[trigger] raw[k]).start_line < raw[k].end_line < lines.len()
                    ==> exists|i: int|
                    0 <= i < folds.len() && bars(#[trigger] folds[i], #[trigger] raw[k])
        },
{
    if raw.len() <= max_regions {
        let folds = fold_tree(raw, lines, max_regions);
        let count = lines.len() as int;
        let ordered = in_order(raw, count);
        let kept = nested(ordered).kept;
        lemma_in_order(raw, count);
        lemma_all_in_order(raw, count);
        lemma_nothing_lost(ordered, count);
        assert forall|i: int| 0 <= i < folds.len() implies exists|k: int|
            0 <= k < raw.len() && shows_region(#[trigger] folds[i], #[trigger] raw[k]) by {
            assert(ordered.contains(kept[i]));
            let m = choose|m: int| 0 <= m < ordered.len() && ordered[m] == kept[i];
            assert(raw.contains(ordered[m]));
            let k = choose|k: int| 0 <= k < raw.len() && raw[k] == ordered[m];
            assert(shows_region(folds[i], raw[k]));
        }
        assert forall|k: int| 0 <= k < raw.len() && (#[trigger] raw[k]).start_line
            < raw[k].end_line < lines.len() implies exists|i: int|
            0 <= i < folds.len() && bars(#[trigger] folds[i], #[trigger] raw[k]) by {
            assert(is_foldable(raw[k], count));
            assert(ordered.contains(raw[k]));
            let m = choose|m: int| 0 <= m < ordered.len() && ordered[m] == raw[k];
            assert(is_barred(kept, ordered[m]));
            let i = choose|i: int| 0 <= i < kept.len() && raw_bars(#[trigger] kept[i], ordered[m]);
            assert(bars(folds[i], raw[k]));
        }
    }
}

/// The hash of a header is the one by Fowler, Noll and Vo, of the line without the blanks at
/// its ends.
pub proof fn law_headers_are_hashed_byte_by_byte(bytes: Seq<u8>, byte: u8)
    ensures
        fnv(Seq::empty()) == 0xcbf2_9ce4_8422_2325u64,
        fnv(bytes.push(byte)) == vstd::wrapping::u64_specs::wrapping_mul(
            fnv(bytes) ^ (byte as u64),
            0x100_0000_01b3u64,
        ),
{
    assert(bytes.push(byte).drop_last() =~= bytes);
}

} // verus!
