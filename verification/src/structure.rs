//! The structure of a document: its symbols, the tokens that can be looked up,
//! and both together with its folds.

use crate::bytes::text;
use crate::folding::{
    events_allowed, is_rust_method, rust_method, stands_in_a_body, CodeLanguage, FoldLimits,
    WorkBudget,
};
use crate::markdown::{event_records, EventRecord, EventTag, MarkdownEvent};
use crate::source::{
    as_ints, ascending, line_at, line_of, line_starts_of, range_at, source_range, SourceRange,
};
use crate::syntax::{is_listing, records, NameNode, NodeRecord, SyntaxNode};
use crate::text::{
    chars_of, copy_text, is_whitespace, slice_at, slice_text, text_equal, whitespace,
};
use vstd::prelude::*;

verus! {

pub const MAX_SYMBOL_NODES: usize = 100_000;

pub const MAX_MARKDOWN_SYMBOL_EVENTS: usize = 50_000;

pub const MAX_STRUCTURE_SYMBOLS: usize = 4_096;

pub const MAX_SYMBOL_DEPTH: usize = 64;

pub const MAX_TOKEN_NODES: usize = 100_000;

pub const MAX_RECOGNIZABLE_TOKENS: usize = 65_536;

#[derive(Clone, Copy, Debug, PartialEq, Eq, Structural)]
pub enum StructureSource {
    Absent,
    Markdown,
    TreeSitter,
}

/// The place of a symbol among those of its document.
#[derive(Clone, Copy, Debug, PartialEq, Eq, Structural)]
pub struct SymbolId(pub u32);

#[derive(Clone, Copy, Debug, PartialEq, Eq, Structural)]
pub enum SymbolKind {
    Heading,
    Function,
    Method,
    Type,
    Module,
}

#[derive(Debug, PartialEq, Eq)]
pub struct StructureSymbol {
    pub id: SymbolId,
    pub name: String,
    pub kind: SymbolKind,
    pub range: SourceRange,
    pub selection_range: SourceRange,
    pub parent: Option<SymbolId>,
    pub detail: Option<String>,
    pub container: Option<String>,
}

/// What a symbol says. Symbols found here have neither detail nor container.
pub struct SymbolRecord {
    pub id: SymbolId,
    pub name: Seq<char>,
    pub kind: SymbolKind,
    pub range: SourceRange,
    pub selection_range: SourceRange,
    pub parent: Option<SymbolId>,
    pub bare: bool,
}

impl View for StructureSymbol {
    type V = SymbolRecord;

    open spec fn view(&self) -> SymbolRecord {
        SymbolRecord {
            id: self.id,
            name: self.name@,
            kind: self.kind,
            range: self.range,
            selection_range: self.selection_range,
            parent: self.parent,
            bare: self.detail is None && self.container is None,
        }
    }
}

pub open spec fn symbol_records(symbols: Seq<StructureSymbol>) -> Seq<SymbolRecord> {
    Seq::new(symbols.len(), |i: int| symbols[i]@)
}

#[derive(Clone, Copy, Debug, PartialEq, Eq, Structural)]
pub struct StructureLimits {
    pub fold: FoldLimits,
    pub max_symbol_nodes: usize,
    pub max_markdown_symbol_events: usize,
    pub max_symbols: usize,
    pub max_symbol_depth: usize,
    pub cancel_symbols_after_work: Option<usize>,
    pub max_token_nodes: usize,
    pub max_tokens: usize,
    pub cancel_tokens_after_work: Option<usize>,
}

impl StructureLimits {
    pub open spec fn usual() -> StructureLimits {
        StructureLimits {
            fold: FoldLimits::usual(),
            max_symbol_nodes: MAX_SYMBOL_NODES,
            max_markdown_symbol_events: MAX_MARKDOWN_SYMBOL_EVENTS,
            max_symbols: MAX_STRUCTURE_SYMBOLS,
            max_symbol_depth: MAX_SYMBOL_DEPTH,
            cancel_symbols_after_work: None,
            max_token_nodes: MAX_TOKEN_NODES,
            max_tokens: MAX_RECOGNIZABLE_TOKENS,
            cancel_tokens_after_work: None,
        }
    }
}

impl Default for StructureLimits {
    fn default() -> (limits: Self)
        ensures
            limits == StructureLimits::usual(),
    {
        StructureLimits {
            fold: FoldLimits::default(),
            max_symbol_nodes: MAX_SYMBOL_NODES,
            max_markdown_symbol_events: MAX_MARKDOWN_SYMBOL_EVENTS,
            max_symbols: MAX_STRUCTURE_SYMBOLS,
            max_symbol_depth: MAX_SYMBOL_DEPTH,
            cancel_symbols_after_work: None,
            max_token_nodes: MAX_TOKEN_NODES,
            max_tokens: MAX_RECOGNIZABLE_TOKENS,
            cancel_tokens_after_work: None,
        }
    }
}

/// What a declaration is to the symbols inside it.
#[derive(Clone, Copy, Debug, PartialEq, Eq, Structural)]
pub enum SymbolOwner {
    RustModule,
    RustTrait,
    RustOtherType,
    RustFunction,
    TypeScriptModule,
    TypeScriptType,
    TypeScriptFunction,
    TypeScriptMethod,
    JavaScriptClass,
    JavaScriptFunction,
    JavaScriptMethod,
    PythonClass,
    PythonFunction,
    GoRoot,
}

#[derive(Clone, Copy, Debug, PartialEq, Eq, Structural)]
pub struct SymbolDescriptor {
    pub kind: SymbolKind,
    pub owner: SymbolOwner,
}

/// A symbol whose declaration the current node lies in, and how deep it lies.
#[derive(Clone, Copy, Debug, PartialEq, Eq, Structural)]
pub struct ActiveSymbol {
    pub id: SymbolId,
    pub owner: SymbolOwner,
    pub depth: usize,
}

/// The owner that symbols of this kind of declaration look for.
pub open spec fn owns(language: CodeLanguage, candidate: SymbolOwner, owner: SymbolOwner) -> bool {
    match language {
        CodeLanguage::Rust => match owner {
            SymbolOwner::RustFunction => candidate is RustModule || candidate is RustTrait,
            SymbolOwner::RustModule
            | SymbolOwner::RustTrait
            | SymbolOwner::RustOtherType => candidate is RustModule,
            _ => false,
        },
        CodeLanguage::TypeScript => match owner {
            SymbolOwner::TypeScriptModule => candidate is TypeScriptModule,
            SymbolOwner::TypeScriptType
            | SymbolOwner::TypeScriptFunction
            | SymbolOwner::TypeScriptMethod => candidate is TypeScriptModule
                || candidate is TypeScriptType,
            _ => false,
        },
        CodeLanguage::JavaScript => match owner {
            SymbolOwner::JavaScriptMethod => candidate is JavaScriptClass,
            SymbolOwner::JavaScriptClass
            | SymbolOwner::JavaScriptFunction => candidate is JavaScriptClass
                || candidate is JavaScriptFunction,
            _ => false,
        },
        CodeLanguage::Python => candidate is PythonClass || candidate is PythonFunction,
        CodeLanguage::Go => false,
    }
}

/// The innermost active symbol that may own a declaration.
pub open spec fn nearest_owner(
    language: CodeLanguage,
    active: Seq<ActiveSymbol>,
    owner: SymbolOwner,
) -> Option<ActiveSymbol>
    decreases active.len(),
{
    if active.len() == 0 {
        None
    } else if owns(language, active.last().owner, owner) {
        Some(active.last())
    } else {
        nearest_owner(language, active.drop_last(), owner)
    }
}

pub open spec fn described(kind: SymbolKind, owner: SymbolOwner) -> Option<SymbolDescriptor> {
    Some(SymbolDescriptor { kind, owner })
}

/// What the node at `i` declares, if it declares a symbol.
#[verifier::opaque]
pub open spec fn descriptor_of(
    language: CodeLanguage,
    nodes: Seq<NodeRecord>,
    i: int,
    active: Seq<ActiveSymbol>,
) -> Option<SymbolDescriptor> {
    let kind = nodes[i].kind;
    match language {
        CodeLanguage::Rust => if kind == "function_item"@ {
            described(
                if is_rust_method(nodes, i) {
                    SymbolKind::Method
                } else {
                    SymbolKind::Function
                },
                SymbolOwner::RustFunction,
            )
        } else if kind == "trait_item"@ {
            described(SymbolKind::Type, SymbolOwner::RustTrait)
        } else if kind == "struct_item"@ || kind == "enum_item"@ || kind == "union_item"@ || kind
            == "type_item"@ {
            described(SymbolKind::Type, SymbolOwner::RustOtherType)
        } else if kind == "mod_item"@ {
            described(SymbolKind::Module, SymbolOwner::RustModule)
        } else {
            None
        },
        CodeLanguage::TypeScript => if kind == "function_declaration"@ || kind
            == "generator_function_declaration"@ {
            described(SymbolKind::Function, SymbolOwner::TypeScriptFunction)
        } else if kind == "method_definition"@ || kind == "abstract_method_signature"@ || kind
            == "method_signature"@ {
            described(SymbolKind::Method, SymbolOwner::TypeScriptMethod)
        } else if kind == "class_declaration"@ || kind == "abstract_class_declaration"@ || kind
            == "interface_declaration"@ || kind == "enum_declaration"@ || kind
            == "type_alias_declaration"@ {
            described(SymbolKind::Type, SymbolOwner::TypeScriptType)
        } else if kind == "internal_module"@ {
            described(SymbolKind::Module, SymbolOwner::TypeScriptModule)
        } else {
            None
        },
        CodeLanguage::JavaScript => if kind == "function_declaration"@ || kind
            == "generator_function_declaration"@ {
            described(SymbolKind::Function, SymbolOwner::JavaScriptFunction)
        } else if kind == "method_definition"@ {
            described(SymbolKind::Method, SymbolOwner::JavaScriptMethod)
        } else if kind == "class_declaration"@ {
            described(SymbolKind::Type, SymbolOwner::JavaScriptClass)
        } else {
            None
        },
        CodeLanguage::Python => if kind == "function_definition"@ {
            described(
                match nearest_owner(CodeLanguage::Python, active, SymbolOwner::PythonFunction) {
                    Some(owner) => if owner.owner is PythonClass {
                        SymbolKind::Method
                    } else {
                        SymbolKind::Function
                    },
                    None => SymbolKind::Function,
                },
                SymbolOwner::PythonFunction,
            )
        } else if kind == "class_definition"@ {
            described(SymbolKind::Type, SymbolOwner::PythonClass)
        } else {
            None
        },
        CodeLanguage::Go => if kind == "function_declaration"@ {
            described(SymbolKind::Function, SymbolOwner::GoRoot)
        } else if kind == "method_declaration"@ {
            described(SymbolKind::Method, SymbolOwner::GoRoot)
        } else if kind == "type_spec"@ {
            described(SymbolKind::Type, SymbolOwner::GoRoot)
        } else {
            None
        },
    }
}

/// The symbols of the nodes read so far, how deep each lies among symbols, and
/// which of them are active.
pub struct SymbolState {
    pub symbols: Seq<SymbolRecord>,
    pub depths: Seq<int>,
    pub active: Seq<ActiveSymbol>,
}

/// The symbols that still enclose a node at this depth.
pub open spec fn enclosing(active: Seq<ActiveSymbol>, depth: usize) -> Seq<ActiveSymbol>
    decreases active.len(),
{
    if active.len() > 0 && active.last().depth >= depth {
        enclosing(active.drop_last(), depth)
    } else {
        active
    }
}

/// The depth of a symbol below its parent.
pub open spec fn depth_below(parent: Option<ActiveSymbol>, depths: Seq<int>) -> int {
    match parent {
        None => 1,
        Some(owner) => depths[owner.id.0 as int] + 1,
    }
}

/// The named declaration at `i` added to the symbols, or nothing if it is
/// broken or a limit is passed.
pub open spec fn declared(
    source: Seq<u8>,
    starts: Seq<usize>,
    language: CodeLanguage,
    limits: StructureLimits,
    node: NodeRecord,
    name: NameAt,
    descriptor: SymbolDescriptor,
    state: SymbolState,
) -> Option<SymbolState> {
    let parent = nearest_owner(language, state.active, descriptor.owner);
    let depth = depth_below(parent, state.depths);
    match (
        slice_at(source, name.start, name.end),
        range_at(source, starts, node.start as int, node.end as int),
        range_at(source, starts, name.start, name.end),
    ) {
        (Some(words), Some(range), Some(selection_range)) => if state.symbols.len()
            >= limits.max_symbols || depth > limits.max_symbol_depth || !selection_range.within(
            range,
        ) || state.symbols.len() > u32::MAX {
            None
        } else {
            let id = SymbolId(state.symbols.len() as u32);
            Some(
                SymbolState {
                    symbols: state.symbols.push(
                        SymbolRecord {
                            id,
                            name: words,
                            kind: descriptor.kind,
                            range,
                            selection_range,
                            parent: match parent {
                                Some(owner) => Some(owner.id),
                                None => None,
                            },
                            bare: true,
                        },
                    ),
                    depths: state.depths.push(depth),
                    active: state.active.push(
                        ActiveSymbol { id, owner: descriptor.owner, depth: node.depth },
                    ),
                },
            )
        },
        _ => None,
    }
}

/// The bytes of a name.
pub struct NameAt {
    pub start: int,
    pub end: int,
}

/// The symbols after the node at `i`. A declaration without a name makes no
/// symbol; one that is broken, or whose name is, makes the whole list fail.
pub open spec fn symbol_step(
    source: Seq<u8>,
    starts: Seq<usize>,
    language: CodeLanguage,
    limits: StructureLimits,
    nodes: Seq<NodeRecord>,
    i: int,
    state: SymbolState,
) -> Option<SymbolState> {
    let node = nodes[i];
    let state = SymbolState { active: enclosing(state.active, node.depth), ..state };
    match descriptor_of(language, nodes, i, state.active) {
        None => Some(state),
        Some(descriptor) => if node.error || node.missing {
            None
        } else {
            match node.name {
                None => Some(state),
                Some(name) => if name.error || name.missing {
                    None
                } else {
                    declared(
                        source,
                        starts,
                        language,
                        limits,
                        node,
                        NameAt { start: name.start as int, end: name.end as int },
                        descriptor,
                        state,
                    )
                },
            }
        },
    }
}

/// The symbols after the first `count` nodes. Each node is one step of work.
pub open spec fn symbols_after(
    source: Seq<u8>,
    starts: Seq<usize>,
    language: CodeLanguage,
    limits: StructureLimits,
    nodes: Seq<NodeRecord>,
    count: int,
) -> Option<SymbolState>
    decreases count,
{
    if count <= 0 {
        Some(
            SymbolState { symbols: Seq::empty(), depths: Seq::empty(), active: Seq::empty() },
        )
    } else {
        match symbols_after(source, starts, language, limits, nodes, count - 1) {
            None => None,
            Some(state) => if !events_allowed(
                count,
                limits.max_symbol_nodes,
                limits.cancel_symbols_after_work,
            ) {
                None
            } else {
                symbol_step(source, starts, language, limits, nodes, count - 1, state)
            },
        }
    }
}

/// The symbols of a listed syntax tree.
pub open spec fn code_symbols(
    source: Seq<u8>,
    starts: Seq<usize>,
    language: CodeLanguage,
    limits: StructureLimits,
    nodes: Seq<NodeRecord>,
) -> Option<Seq<SymbolRecord>> {
    match symbols_after(source, starts, language, limits, nodes, nodes.len() as int) {
        None => None,
        Some(state) => Some(state.symbols),
    }
}

pub open spec fn state_holds(state: SymbolState, limits: StructureLimits) -> bool {
    &&& state.depths.len() == state.symbols.len()
    &&& state.symbols.len() <= limits.max_symbols
    &&& forall|i: int|
        0 <= i < state.active.len() ==> (#[trigger] state.active[i]).id.0 < state.symbols.len()
    &&& forall|i: int|
        0 <= i < state.depths.len() ==> 1 <= #[trigger] state.depths[i] <= limits.max_symbol_depth
    &&& forall|i: int|
        0 <= i < state.symbols.len() ==> {
            let symbol = #[trigger] state.symbols[i];
            &&& symbol.id.0 == i
            &&& symbol.parent matches Some(parent) ==> parent.0 < i && state.depths[i]
                == state.depths[parent.0 as int] + 1
            &&& symbol.parent is None ==> state.depths[i] == 1
            &&& symbol.selection_range.within(symbol.range)
        }
}

proof fn lemma_enclosing(active: Seq<ActiveSymbol>, depth: usize)
    ensures
        enclosing(active, depth).len() <= active.len(),
        enclosing(active, depth) == active.subrange(0, enclosing(active, depth).len() as int),
    decreases active.len(),
{
    if active.len() > 0 && active.last().depth >= depth {
        lemma_enclosing(active.drop_last(), depth);
        let kept = enclosing(active, depth);
        assert(active.drop_last().subrange(0, kept.len() as int) =~= active.subrange(
            0,
            kept.len() as int,
        ));
    } else {
        assert(active.subrange(0, active.len() as int) =~= active);
    }
}

proof fn lemma_nearest_owner(
    language: CodeLanguage,
    active: Seq<ActiveSymbol>,
    owner: SymbolOwner,
)
    ensures
        nearest_owner(language, active, owner) matches Some(found) ==> active.contains(found),
    decreases active.len(),
{
    if active.len() > 0 {
        if owns(language, active.last().owner, owner) {
            assert(active[active.len() - 1] == active.last());
        } else {
            lemma_nearest_owner(language, active.drop_last(), owner);
            if nearest_owner(language, active.drop_last(), owner) is Some {
                let found = nearest_owner(language, active.drop_last(), owner)->0;
                let k = choose|k: int|
                    0 <= k < active.drop_last().len() && active.drop_last()[k] == found;
                assert(active[k] == found);
            }
        }
    }
}

proof fn lemma_symbols_after(
    source: Seq<u8>,
    starts: Seq<usize>,
    language: CodeLanguage,
    limits: StructureLimits,
    nodes: Seq<NodeRecord>,
    count: int,
)
    requires
        0 <= count <= nodes.len(),
    ensures
        symbols_after(source, starts, language, limits, nodes, count) matches Some(state)
            ==> state_holds(state, limits),
    decreases count,
{
    if count > 0 {
        lemma_symbols_after(source, starts, language, limits, nodes, count - 1);
        if symbols_after(source, starts, language, limits, nodes, count) is Some {
            let before = symbols_after(source, starts, language, limits, nodes, count - 1)->0;
            let state = symbols_after(source, starts, language, limits, nodes, count)->0;
            let active = enclosing(before.active, nodes[count - 1].depth);
            lemma_enclosing(before.active, nodes[count - 1].depth);
            assert forall|i: int| 0 <= i < active.len() implies (#[trigger] active[i]).id.0
                < before.symbols.len() by {
                assert(active[i] == before.active[i]);
            }
            if state.symbols.len() > before.symbols.len() {
                let owner = state.active.last().owner;
                lemma_nearest_owner(language, active, owner);
                let parent = nearest_owner(language, active, owner);
                if parent is Some {
                    let k = choose|k: int| 0 <= k < active.len() && active[k] == parent->0;
                    assert(active[k].id.0 < before.symbols.len());
                }
                assert forall|i: int| 0 <= i < state.active.len() implies (
                #[trigger] state.active[i]).id.0 < state.symbols.len() by {
                    if i < active.len() {
                        assert(state.active[i] == active[i]);
                    }
                }
                assert forall|i: int| 0 <= i < state.symbols.len() implies {
                    let symbol = #[trigger] state.symbols[i];
                    &&& symbol.id.0 == i
                    &&& symbol.parent matches Some(parent) ==> parent.0 < i && state.depths[i]
                        == state.depths[parent.0 as int] + 1
                    &&& symbol.parent is None ==> state.depths[i] == 1
                    &&& symbol.selection_range.within(symbol.range)
                } by {
                    if i < before.symbols.len() {
                        assert(state.symbols[i] == before.symbols[i]);
                        assert(state.depths[i] == before.depths[i]);
                    }
                }
            }
        }
    }
}

/// The symbols of a source form a forest: each has its place as its identity,
/// a parent that comes before it, and a name that lies inside it.
pub proof fn law_code_symbols_form_a_forest(
    source: Seq<u8>,
    starts: Seq<usize>,
    language: CodeLanguage,
    limits: StructureLimits,
    nodes: Seq<NodeRecord>,
)
    ensures
        code_symbols(source, starts, language, limits, nodes) matches Some(symbols) ==> {
            &&& symbols.len() <= limits.max_symbols
            &&& forall|i: int|
                0 <= i < symbols.len() ==> {
                    let symbol = #[trigger] symbols[i];
                    &&& symbol.id.0 == i
                    &&& symbol.parent matches Some(parent) ==> parent.0 < i
                    &&& symbol.selection_range.within(symbol.range)
                }
        },
{
    lemma_symbols_after(source, starts, language, limits, nodes, nodes.len() as int);
}

fn kind_is(nodes: &Vec<SyntaxNode>, at: usize, kind: &str) -> (same: bool)
    requires
        at < nodes@.len(),
    ensures
        same == (records(nodes@)[at as int].kind == kind@),
{
    text_equal(nodes[at].kind.as_str(), kind)
}

fn may_own(language: CodeLanguage, candidate: SymbolOwner, owner: SymbolOwner) -> (may: bool)
    ensures
        may == owns(language, candidate, owner),
{
    match language {
        CodeLanguage::Rust => match owner {
            SymbolOwner::RustFunction => candidate == SymbolOwner::RustModule || candidate
                == SymbolOwner::RustTrait,
            SymbolOwner::RustModule
            | SymbolOwner::RustTrait
            | SymbolOwner::RustOtherType => candidate == SymbolOwner::RustModule,
            _ => false,
        },
        CodeLanguage::TypeScript => match owner {
            SymbolOwner::TypeScriptModule => candidate == SymbolOwner::TypeScriptModule,
            SymbolOwner::TypeScriptType
            | SymbolOwner::TypeScriptFunction
            | SymbolOwner::TypeScriptMethod => candidate == SymbolOwner::TypeScriptModule
                || candidate == SymbolOwner::TypeScriptType,
            _ => false,
        },
        CodeLanguage::JavaScript => match owner {
            SymbolOwner::JavaScriptMethod => candidate == SymbolOwner::JavaScriptClass,
            SymbolOwner::JavaScriptClass
            | SymbolOwner::JavaScriptFunction => candidate == SymbolOwner::JavaScriptClass
                || candidate == SymbolOwner::JavaScriptFunction,
            _ => false,
        },
        CodeLanguage::Python => candidate == SymbolOwner::PythonClass || candidate
            == SymbolOwner::PythonFunction,
        CodeLanguage::Go => false,
    }
}

/// The innermost active symbol that may own a declaration.
pub fn symbol_parent(
    language: CodeLanguage,
    owner: SymbolOwner,
    active: &Vec<ActiveSymbol>,
) -> (parent: Option<ActiveSymbol>)
    ensures
        parent == nearest_owner(language, active@, owner),
{
    let mut left: usize = active.len();
    assert(active@.subrange(0, left as int) =~= active@);
    while left > 0
        invariant
            left <= active@.len(),
            nearest_owner(language, active@.subrange(0, left as int), owner) == nearest_owner(
                language,
                active@,
                owner,
            ),
        decreases left,
    {
        assert(active@.subrange(0, left as int).drop_last() =~= active@.subrange(0, left - 1));
        if may_own(language, active[left - 1].owner, owner) {
            return Some(active[left - 1]);
        }
        left = left - 1;
    }
    None
}

fn describe(kind: SymbolKind, owner: SymbolOwner) -> (descriptor: Option<SymbolDescriptor>)
    ensures
        descriptor == described(kind, owner),
{
    Some(SymbolDescriptor { kind, owner })
}

/// What a node declares, if it declares a symbol.
pub fn symbol_descriptor(
    language: CodeLanguage,
    nodes: &Vec<SyntaxNode>,
    at: usize,
    active: &Vec<ActiveSymbol>,
) -> (descriptor: Option<SymbolDescriptor>)
    requires
        is_listing(records(nodes@)),
        at < nodes@.len(),
    ensures
        descriptor == descriptor_of(language, records(nodes@), at as int, active@),
{
    reveal(descriptor_of);
    match language {
        CodeLanguage::Rust => {
            if kind_is(nodes, at, "function_item") {
                if rust_method(nodes, at) {
                    describe(SymbolKind::Method, SymbolOwner::RustFunction)
                } else {
                    describe(SymbolKind::Function, SymbolOwner::RustFunction)
                }
            } else if kind_is(nodes, at, "trait_item") {
                describe(SymbolKind::Type, SymbolOwner::RustTrait)
            } else if kind_is(nodes, at, "struct_item") || kind_is(nodes, at, "enum_item")
                || kind_is(nodes, at, "union_item") || kind_is(nodes, at, "type_item") {
                describe(SymbolKind::Type, SymbolOwner::RustOtherType)
            } else if kind_is(nodes, at, "mod_item") {
                describe(SymbolKind::Module, SymbolOwner::RustModule)
            } else {
                None
            }
        },
        CodeLanguage::TypeScript => {
            if kind_is(nodes, at, "function_declaration") || kind_is(
                nodes,
                at,
                "generator_function_declaration",
            ) {
                describe(SymbolKind::Function, SymbolOwner::TypeScriptFunction)
            } else if kind_is(nodes, at, "method_definition") || kind_is(
                nodes,
                at,
                "abstract_method_signature",
            ) || kind_is(nodes, at, "method_signature") {
                describe(SymbolKind::Method, SymbolOwner::TypeScriptMethod)
            } else if kind_is(nodes, at, "class_declaration") || kind_is(
                nodes,
                at,
                "abstract_class_declaration",
            ) || kind_is(nodes, at, "interface_declaration") || kind_is(
                nodes,
                at,
                "enum_declaration",
            ) || kind_is(nodes, at, "type_alias_declaration") {
                describe(SymbolKind::Type, SymbolOwner::TypeScriptType)
            } else if kind_is(nodes, at, "internal_module") {
                describe(SymbolKind::Module, SymbolOwner::TypeScriptModule)
            } else {
                None
            }
        },
        CodeLanguage::JavaScript => {
            if kind_is(nodes, at, "function_declaration") || kind_is(
                nodes,
                at,
                "generator_function_declaration",
            ) {
                describe(SymbolKind::Function, SymbolOwner::JavaScriptFunction)
            } else if kind_is(nodes, at, "method_definition") {
                describe(SymbolKind::Method, SymbolOwner::JavaScriptMethod)
            } else if kind_is(nodes, at, "class_declaration") {
                describe(SymbolKind::Type, SymbolOwner::JavaScriptClass)
            } else {
                None
            }
        },
        CodeLanguage::Python => {
            if kind_is(nodes, at, "function_definition") {
                match symbol_parent(CodeLanguage::Python, SymbolOwner::PythonFunction, active) {
                    Some(owner) => {
                        if owner.owner == SymbolOwner::PythonClass {
                            describe(SymbolKind::Method, SymbolOwner::PythonFunction)
                        } else {
                            describe(SymbolKind::Function, SymbolOwner::PythonFunction)
                        }
                    },
                    None => describe(SymbolKind::Function, SymbolOwner::PythonFunction),
                }
            } else if kind_is(nodes, at, "class_definition") {
                describe(SymbolKind::Type, SymbolOwner::PythonClass)
            } else {
                None
            }
        },
        CodeLanguage::Go => {
            if kind_is(nodes, at, "function_declaration") {
                describe(SymbolKind::Function, SymbolOwner::GoRoot)
            } else if kind_is(nodes, at, "method_declaration") {
                describe(SymbolKind::Method, SymbolOwner::GoRoot)
            } else if kind_is(nodes, at, "type_spec") {
                describe(SymbolKind::Type, SymbolOwner::GoRoot)
            } else {
                None
            }
        },
    }
}

/// Adds the symbol of a named declaration. Says `false`, and adds nothing, if the
/// declaration is broken or a limit is passed.
fn declare_symbol(
    source: &str,
    starts: &[usize],
    language: CodeLanguage,
    limits: &StructureLimits,
    node: &SyntaxNode,
    name: &NameNode,
    descriptor: &SymbolDescriptor,
    symbols: &mut Vec<StructureSymbol>,
    depths: &mut Vec<usize>,
    active: &mut Vec<ActiveSymbol>,
) -> (added: bool)
    requires
        line_starts_of(starts@, text(source)),
        old(depths)@.len() == old(symbols)@.len(),
        forall|i: int|
            0 <= i < old(active)@.len() ==> (#[trigger] old(active)@[i]).id.0 < old(
                symbols,
            )@.len(),
    ensures
        match declared(
            text(source),
            starts@,
            language,
            *limits,
            node@,
            (NameAt { start: name.start as int, end: name.end as int }),
            *descriptor,
            (SymbolState {
                symbols: symbol_records(old(symbols)@),
                depths: as_ints(old(depths)@),
                active: old(active)@,
            }),
        ) {
            None => !added,
            Some(state) => added && state == (SymbolState {
                symbols: symbol_records(final(symbols)@),
                depths: as_ints(final(depths)@),
                active: final(active)@,
            }),
        },
{
    let words = match slice_text(source, name.start, name.end) {
        None => {
            return false;
        },
        Some(words) => words,
    };
    if symbols.len() >= limits.max_symbols {
        return false;
    }
    let parent = symbol_parent(language, descriptor.owner, active);
    proof {
        lemma_nearest_owner(language, active@, descriptor.owner);
        if parent is Some {
            let k = choose|k: int| 0 <= k < active@.len() && active@[k] == parent->0;
            assert(parent->0.id.0 < symbols@.len());
            let at = parent->0.id.0 as int;
            assert(as_ints(depths@)[at] == depths@[at]);
        }
    }
    let level: usize = match parent {
        None => 1,
        Some(owner) => depths[owner.id.0 as usize].saturating_add(1),
    };
    if level > limits.max_symbol_depth || (match parent {
        None => false,
        Some(owner) => depths[owner.id.0 as usize] >= limits.max_symbol_depth,
    }) {
        return false;
    }
    let range = match source_range(source, starts, node.start, node.end) {
        None => {
            return false;
        },
        Some(range) => range,
    };
    let selection_range = match source_range(source, starts, name.start, name.end) {
        None => {
            return false;
        },
        Some(range) => range,
    };
    if !selection_range.lies_within(range) {
        return false;
    }
    if symbols.len() > u32::MAX as usize {
        return false;
    }
    let id = SymbolId(symbols.len() as u32);
    symbols.push(
        StructureSymbol {
            id,
            name: words,
            kind: descriptor.kind,
            range,
            selection_range,
            parent: match parent {
                Some(owner) => Some(owner.id),
                None => None,
            },
            detail: None,
            container: None,
        },
    );
    depths.push(level);
    active.push(ActiveSymbol { id, owner: descriptor.owner, depth: node.depth });
    assert(symbol_records(symbols@) =~= symbol_records(old(symbols)@).push(symbols@.last()@));
    assert(as_ints(depths@) =~= as_ints(old(depths)@).push(level as int));
    true
}

/// The symbols of a listed syntax tree, or nothing if a limit is passed or a
/// declaration is broken.
#[verifier::spinoff_prover]
#[verifier::rlimit(100)]
pub fn collect_code_symbols(
    nodes: &Vec<SyntaxNode>,
    source: &str,
    starts: &[usize],
    language: CodeLanguage,
    limits: StructureLimits,
) -> (result: Option<Vec<StructureSymbol>>)
    requires
        is_listing(records(nodes@)),
        line_starts_of(starts@, text(source)),
    ensures
        match code_symbols(text(source), starts@, language, limits, records(nodes@)) {
            None => result is None,
            Some(expected) => result matches Some(found) && symbol_records(found@) == expected,
        },
{
    let ghost listed = records(nodes@);
    let ghost bytes = text(source);
    let mut symbols: Vec<StructureSymbol> = Vec::new();
    let mut depths: Vec<usize> = Vec::new();
    let mut active: Vec<ActiveSymbol> = Vec::new();
    let mut budget = WorkBudget::new(limits.cancel_symbols_after_work);
    let mut index: usize = 0;
    assert(symbol_records(symbols@) =~= Seq::<SymbolRecord>::empty());
    assert(as_ints(depths@) =~= Seq::<int>::empty());
    while index < nodes.len()
        invariant
            index <= nodes@.len(),
            listed == records(nodes@),
            bytes == text(source),
            is_listing(listed),
            line_starts_of(starts@, bytes),
            budget.used == index,
            budget.cancel_after == limits.cancel_symbols_after_work,
            symbols_after(bytes, starts@, language, limits, listed, index as int) == Some(
                SymbolState {
                    symbols: symbol_records(symbols@),
                    depths: as_ints(depths@),
                    active: active@,
                },
            ),
        decreases nodes@.len() - index,
    {
        proof {
            lemma_symbols_after(bytes, starts@, language, limits, listed, index as int);
            lemma_failure_spreads(
                bytes,
                starts@,
                language,
                limits,
                listed,
                index + 1,
                listed.len() as int,
            );
            assert(listed[index as int] == nodes@[index as int]@);
        }
        let ghost before = SymbolState {
            symbols: symbol_records(symbols@),
            depths: as_ints(depths@),
            active: active@,
        };
        if index >= limits.max_symbol_nodes || !budget.step() {
            return None;
        }
        let depth: usize = nodes[index].depth;
        while active.len() > 0 && active[active.len() - 1].depth >= depth
            invariant
                enclosing(active@, depth) == enclosing(before.active, depth),
            decreases active@.len(),
        {
            let ghost given = active@;
            active.pop();
            assert(active@ =~= given.drop_last());
        }
        proof {
            lemma_enclosing(before.active, depth);
            assert(active@ == enclosing(before.active, depth));
            assert forall|i: int| 0 <= i < active@.len() implies (#[trigger] active@[i]).id.0
                < symbols@.len() by {
                assert(active@[i] == before.active[i]);
            }
        }
        if let Some(descriptor) = symbol_descriptor(language, nodes, index, &active) {
            if nodes[index].error || nodes[index].missing {
                return None;
            }
            if let Some(name) = nodes[index].name {
                if name.error || name.missing {
                    return None;
                }
                if !declare_symbol(
                    source,
                    starts,
                    language,
                    &limits,
                    &nodes[index],
                    &name,
                    &descriptor,
                    &mut symbols,
                    &mut depths,
                    &mut active,
                ) {
                    return None;
                }
            }
        }
        index = index + 1;
    }
    Some(symbols)
}

proof fn lemma_failure_spreads(
    source: Seq<u8>,
    starts: Seq<usize>,
    language: CodeLanguage,
    limits: StructureLimits,
    nodes: Seq<NodeRecord>,
    count: int,
    total: int,
)
    requires
        0 <= count <= total,
    ensures
        symbols_after(source, starts, language, limits, nodes, count) is None ==> symbols_after(
            source,
            starts,
            language,
            limits,
            nodes,
            total,
        ) is None,
    decreases total,
{
    if count < total {
        lemma_failure_spreads(source, starts, language, limits, nodes, count, total - 1);
    }
}

// Markdown --------------------------------------------------------------------------------

/// The words of a text with one space between each two.
pub open spec fn collapsed(s: Seq<char>) -> Seq<char>
    decreases s.len(),
{
    if s.len() == 0 {
        Seq::empty()
    } else {
        let earlier = collapsed(s.drop_last());
        if is_whitespace(s.last()) {
            earlier
        } else if s.len() >= 2 && is_whitespace(s[s.len() - 2]) && earlier.len() > 0 {
            earlier.push(' ').push(s.last())
        } else {
            earlier.push(s.last())
        }
    }
}

pub fn collapse_words(words: &str) -> (result: String)
    ensures
        result@ == collapsed(words@),
{
    let characters = chars_of(words);
    let mut result = String::new();
    let mut started = false;
    let mut index: usize = 0;
    while index < characters.len()
        invariant
            index <= characters@.len(),
            characters@ == words@,
            result@ == collapsed(words@.subrange(0, index as int)),
            started == (result@.len() > 0),
        decreases characters@.len() - index,
    {
        assert(words@.subrange(0, index + 1).drop_last() =~= words@.subrange(0, index as int));
        if !whitespace(characters[index]) {
            if index > 0 && whitespace(characters[index - 1]) && started {
                result.push(' ');
            }
            result.push(characters[index]);
            started = true;
        }
        index = index + 1;
    }
    assert(words@.subrange(0, words@.len() as int) =~= words@);
    result
}

/// A heading that is being read: its rank, line and words, and the bytes that
/// its words span.
pub struct HeadingDraft {
    pub rank: u8,
    pub line: usize,
    pub words: Seq<char>,
    pub start: Option<usize>,
    pub end: Option<usize>,
}

/// A heading that was read.
pub struct HeadingRecord {
    pub rank: u8,
    pub line: usize,
    pub name: Seq<char>,
    pub selection: Option<(usize, usize)>,
}

pub struct OutlineState {
    pub headings: Seq<HeadingRecord>,
    pub current: Option<HeadingDraft>,
}

/// The heading that a draft makes. Words that span no bytes make none.
pub open spec fn finished(draft: HeadingDraft) -> Option<HeadingRecord> {
    match (draft.start, draft.end) {
        (Some(start), Some(end)) => if start < end {
            Some(
                HeadingRecord {
                    rank: draft.rank,
                    line: draft.line,
                    name: collapsed(draft.words),
                    selection: Some((start, end)),
                },
            )
        } else {
            None
        },
        (None, None) => Some(
            HeadingRecord {
                rank: draft.rank,
                line: draft.line,
                name: collapsed(draft.words),
                selection: None,
            },
        ),
        _ => None,
    }
}

/// What one event adds to the outline. Headings do not stand in headings.
pub open spec fn outline_step(
    event: EventRecord,
    starts: Seq<usize>,
    state: OutlineState,
) -> Option<OutlineState> {
    match event.tag {
        EventTag::HeadingStart(rank) => if state.current is Some {
            None
        } else {
            Some(
                OutlineState {
                    current: Some(
                        HeadingDraft {
                            rank,
                            line: line_at(starts, event.start as int) as usize,
                            words: Seq::empty(),
                            start: None,
                            end: None,
                        },
                    ),
                    ..state
                },
            )
        },
        EventTag::Text | EventTag::Code => match state.current {
            None => Some(state),
            Some(draft) => Some(
                OutlineState {
                    current: Some(
                        HeadingDraft {
                            words: draft.words + event.words,
                            start: if draft.start is Some {
                                draft.start
                            } else {
                                Some(event.start)
                            },
                            end: Some(event.end),
                            ..draft
                        },
                    ),
                    ..state
                },
            ),
        },
        EventTag::SoftBreak | EventTag::HardBreak => match state.current {
            None => Some(state),
            Some(draft) => Some(
                OutlineState {
                    current: Some(HeadingDraft { words: draft.words.push(' '), ..draft }),
                    ..state
                },
            ),
        },
        EventTag::HeadingEnd => match state.current {
            None => None,
            Some(draft) => match finished(draft) {
                None => None,
                Some(heading) => Some(
                    OutlineState { headings: state.headings.push(heading), current: None },
                ),
            },
        },
        _ => Some(state),
    }
}

/// The outline after the first `count` events. Each event is one step of work.
pub open spec fn outline_after(
    events: Seq<EventRecord>,
    starts: Seq<usize>,
    limits: StructureLimits,
    count: int,
) -> Option<OutlineState>
    decreases count,
{
    if count <= 0 {
        Some(OutlineState { headings: Seq::empty(), current: None })
    } else {
        match outline_after(events, starts, limits, count - 1) {
            None => None,
            Some(state) => if !events_allowed(
                count,
                limits.max_markdown_symbol_events,
                limits.cancel_symbols_after_work,
            ) {
                None
            } else {
                outline_step(events[count - 1], starts, state)
            },
        }
    }
}

/// The byte at which the section of rank `rank` ends that is open before
/// heading `from`.
pub open spec fn section_limit(
    headings: Seq<HeadingRecord>,
    from: int,
    rank: u8,
    source_len: int,
    starts: Seq<usize>,
) -> int
    decreases headings.len() - from,
{
    if from < 0 || from >= headings.len() {
        source_len
    } else if headings[from].rank <= rank {
        starts[headings[from].line as int] as int
    } else {
        section_limit(headings, from + 1, rank, source_len, starts)
    }
}

/// The symbols made so far and the open sections, by rank, that they lie in.
pub struct SectionState {
    pub symbols: Seq<SymbolRecord>,
    pub hierarchy: Seq<(u8, SymbolId)>,
}

/// The open sections that a heading of this rank stands in.
pub open spec fn above_rank(hierarchy: Seq<(u8, SymbolId)>, rank: u8) -> Seq<(u8, SymbolId)>
    decreases hierarchy.len(),
{
    if hierarchy.len() > 0 && hierarchy.last().0 >= rank {
        above_rank(hierarchy.drop_last(), rank)
    } else {
        hierarchy
    }
}

/// What the heading at `i` adds. A heading without a name makes no symbol.
pub open spec fn section_step(
    source: Seq<u8>,
    starts: Seq<usize>,
    limits: StructureLimits,
    headings: Seq<HeadingRecord>,
    i: int,
    state: SectionState,
) -> Option<SectionState> {
    let heading = headings[i];
    let hierarchy = above_rank(state.hierarchy, heading.rank);
    if heading.name.len() == 0 {
        Some(SectionState { hierarchy, ..state })
    } else if state.symbols.len() >= limits.max_symbols || hierarchy.len()
        >= limits.max_symbol_depth || state.symbols.len() > u32::MAX {
        None
    } else {
        match heading.selection {
            None => None,
            Some((start, end)) => {
                let section_start = starts[heading.line as int] as int;
                let section_end = section_limit(
                    headings,
                    i + 1,
                    heading.rank,
                    source.len() as int,
                    starts,
                );
                match (
                    range_at(source, starts, section_start, section_end),
                    range_at(source, starts, start as int, end as int),
                ) {
                    (Some(range), Some(selection_range)) => if !selection_range.within(range) {
                        None
                    } else {
                        let id = SymbolId(state.symbols.len() as u32);
                        Some(
                            SectionState {
                                symbols: state.symbols.push(
                                    SymbolRecord {
                                        id,
                                        name: heading.name,
                                        kind: SymbolKind::Heading,
                                        range,
                                        selection_range,
                                        parent: if hierarchy.len() > 0 {
                                            Some(hierarchy.last().1)
                                        } else {
                                            None
                                        },
                                        bare: true,
                                    },
                                ),
                                hierarchy: hierarchy.push((heading.rank, id)),
                            },
                        )
                    },
                    _ => None,
                }
            },
        }
    }
}

pub open spec fn sections_after(
    source: Seq<u8>,
    starts: Seq<usize>,
    limits: StructureLimits,
    headings: Seq<HeadingRecord>,
    count: int,
) -> Option<SectionState>
    decreases count,
{
    if count <= 0 {
        Some(SectionState { symbols: Seq::empty(), hierarchy: Seq::empty() })
    } else {
        match sections_after(source, starts, limits, headings, count - 1) {
            None => None,
            Some(state) => section_step(source, starts, limits, headings, count - 1, state),
        }
    }
}

/// The headings of a document as symbols, or nothing if a limit is passed or a
/// heading is not closed.
pub open spec fn heading_symbols(
    source: Seq<u8>,
    starts: Seq<usize>,
    limits: StructureLimits,
    events: Seq<EventRecord>,
) -> Option<Seq<SymbolRecord>> {
    match outline_after(events, starts, limits, events.len() as int) {
        None => None,
        Some(outline) => if outline.current is Some {
            None
        } else {
            match sections_after(
                source,
                starts,
                limits,
                outline.headings,
                outline.headings.len() as int,
            ) {
                None => None,
                Some(state) => Some(state.symbols),
            }
        },
    }
}

proof fn lemma_outline_failure(
    events: Seq<EventRecord>,
    starts: Seq<usize>,
    limits: StructureLimits,
    count: int,
    total: int,
)
    requires
        0 <= count <= total,
    ensures
        outline_after(events, starts, limits, count) is None ==> outline_after(
            events,
            starts,
            limits,
            total,
        ) is None,
    decreases total,
{
    if count < total {
        lemma_outline_failure(events, starts, limits, count, total - 1);
    }
}

proof fn lemma_section_failure(
    source: Seq<u8>,
    starts: Seq<usize>,
    limits: StructureLimits,
    headings: Seq<HeadingRecord>,
    count: int,
    total: int,
)
    requires
        0 <= count <= total,
    ensures
        sections_after(source, starts, limits, headings, count) is None ==> sections_after(
            source,
            starts,
            limits,
            headings,
            total,
        ) is None,
    decreases total,
{
    if count < total {
        lemma_section_failure(source, starts, limits, headings, count, total - 1);
    }
}

proof fn lemma_above_rank(hierarchy: Seq<(u8, SymbolId)>, rank: u8)
    ensures
        above_rank(hierarchy, rank).len() <= hierarchy.len(),
        above_rank(hierarchy, rank) == hierarchy.subrange(
            0,
            above_rank(hierarchy, rank).len() as int,
        ),
    decreases hierarchy.len(),
{
    if hierarchy.len() > 0 && hierarchy.last().0 >= rank {
        lemma_above_rank(hierarchy.drop_last(), rank);
        let kept = above_rank(hierarchy, rank);
        assert(hierarchy.drop_last().subrange(0, kept.len() as int) =~= hierarchy.subrange(
            0,
            kept.len() as int,
        ));
    } else {
        assert(hierarchy.subrange(0, hierarchy.len() as int) =~= hierarchy);
    }
}

spec fn sections_hold(state: SectionState, limits: StructureLimits) -> bool {
    &&& state.symbols.len() <= limits.max_symbols
    &&& forall|i: int|
        0 <= i < state.hierarchy.len() ==> (#[trigger] state.hierarchy[i]).1.0
            < state.symbols.len()
    &&& forall|i: int|
        0 <= i < state.symbols.len() ==> {
            let symbol = #[trigger] state.symbols[i];
            &&& symbol.id.0 == i
            &&& symbol.parent matches Some(parent) ==> parent.0 < i
            &&& symbol.selection_range.within(symbol.range)
        }
}

proof fn lemma_sections_after(
    source: Seq<u8>,
    starts: Seq<usize>,
    limits: StructureLimits,
    headings: Seq<HeadingRecord>,
    count: int,
)
    requires
        0 <= count <= headings.len(),
    ensures
        sections_after(source, starts, limits, headings, count) matches Some(state)
            ==> sections_hold(state, limits),
    decreases count,
{
    if count > 0 {
        lemma_sections_after(source, starts, limits, headings, count - 1);
        if sections_after(source, starts, limits, headings, count) is Some {
            let before = sections_after(source, starts, limits, headings, count - 1)->0;
            let state = sections_after(source, starts, limits, headings, count)->0;
            let kept = above_rank(before.hierarchy, headings[count - 1].rank);
            lemma_above_rank(before.hierarchy, headings[count - 1].rank);
            assert forall|i: int| 0 <= i < state.hierarchy.len() implies (
            #[trigger] state.hierarchy[i]).1.0 < state.symbols.len() by {
                if i < kept.len() {
                    assert(state.hierarchy[i] == before.hierarchy[i]);
                }
            }
            assert forall|i: int| 0 <= i < state.symbols.len() implies {
                let symbol = #[trigger] state.symbols[i];
                &&& symbol.id.0 == i
                &&& symbol.parent matches Some(parent) ==> parent.0 < i
                &&& symbol.selection_range.within(symbol.range)
            } by {
                if i < before.symbols.len() {
                    assert(state.symbols[i] == before.symbols[i]);
                } else if kept.len() > 0 {
                    assert(kept.last() == before.hierarchy[kept.len() - 1]);
                }
            }
        }
    }
}

/// The headings of a document form a forest as the symbols of code do.
pub proof fn law_heading_symbols_form_a_forest(
    source: Seq<u8>,
    starts: Seq<usize>,
    limits: StructureLimits,
    events: Seq<EventRecord>,
)
    ensures
        heading_symbols(source, starts, limits, events) matches Some(symbols) ==> {
            &&& symbols.len() <= limits.max_symbols
            &&& forall|i: int|
                0 <= i < symbols.len() ==> {
                    let symbol = #[trigger] symbols[i];
                    &&& symbol.id.0 == i
                    &&& symbol.parent matches Some(parent) ==> parent.0 < i
                    &&& symbol.selection_range.within(symbol.range)
                }
        },
{
    if outline_after(events, starts, limits, events.len() as int) is Some {
        let headings = outline_after(events, starts, limits, events.len() as int)->0.headings;
        lemma_sections_after(source, starts, limits, headings, headings.len() as int);
    }
}

struct Draft {
    rank: u8,
    line: usize,
    words: String,
    start: Option<usize>,
    end: Option<usize>,
}

struct Heading {
    rank: u8,
    line: usize,
    name: String,
    selection: Option<(usize, usize)>,
}

spec fn draft_record(draft: Option<Draft>) -> Option<HeadingDraft> {
    match draft {
        None => None,
        Some(draft) => Some(
            HeadingDraft {
                rank: draft.rank,
                line: draft.line,
                words: draft.words@,
                start: draft.start,
                end: draft.end,
            },
        ),
    }
}

spec fn heading_records(headings: Seq<Heading>) -> Seq<HeadingRecord> {
    Seq::new(
        headings.len(),
        |i: int|
            HeadingRecord {
                rank: headings[i].rank,
                line: headings[i].line,
                name: headings[i].name@,
                selection: headings[i].selection,
            },
    )
}

/// Reads the headings out of the events.
fn read_outline(events: &Vec<MarkdownEvent>, starts: &[usize], limits: StructureLimits) -> (outline:
    Option<Vec<Heading>>)
    requires
        ascending(starts@),
        starts@.len() > 0,
        starts@[0] == 0,
    ensures
        match outline_after(
            event_records(events@),
            starts@,
            limits,
            events@.len() as int,
        ) {
            None => outline is None,
            Some(state) => if state.current is Some {
                outline is None
            } else {
                outline matches Some(headings) && heading_records(headings@) == state.headings
                    && forall|i: int|
                    0 <= i < headings@.len() ==> (#[trigger] headings@[i]).line < starts@.len()
            },
        },
{
    let ghost listed = event_records(events@);
    let mut headings: Vec<Heading> = Vec::new();
    let mut current: Option<Draft> = None;
    let mut budget = WorkBudget::new(limits.cancel_symbols_after_work);
    let mut index: usize = 0;
    assert(heading_records(headings@) =~= Seq::<HeadingRecord>::empty());
    while index < events.len()
        invariant
            index <= events@.len(),
            listed == event_records(events@),
            ascending(starts@),
            starts@.len() > 0,
            starts@[0] == 0,
            budget.used == index,
            budget.cancel_after == limits.cancel_symbols_after_work,
            outline_after(listed, starts@, limits, index as int) == Some(
                OutlineState {
                    headings: heading_records(headings@),
                    current: draft_record(current),
                },
            ),
            current matches Some(draft) ==> draft.line < starts@.len(),
            forall|i: int|
                0 <= i < headings@.len() ==> (#[trigger] headings@[i]).line < starts@.len(),
        decreases events@.len() - index,
    {
        proof {
            lemma_outline_failure(listed, starts@, limits, index + 1, listed.len() as int);
            assert(listed[index as int] == events@[index as int]@);
        }
        if index >= limits.max_markdown_symbol_events || !budget.step() {
            return None;
        }
        match events[index].tag {
            EventTag::HeadingStart(rank) => {
                if current.is_some() {
                    return None;
                }
                current = Some(
                    Draft {
                        rank,
                        line: line_of(starts, events[index].start),
                        words: String::new(),
                        start: None,
                        end: None,
                    },
                );
                assert(current->0.words@ =~= Seq::<char>::empty());
            },
            EventTag::Text | EventTag::Code => {
                if let Some(draft) = current {
                    let mut words = draft.words;
                    words.push_str(events[index].words.as_str());
                    let start = match draft.start {
                        Some(start) => Some(start),
                        None => Some(events[index].start),
                    };
                    current = Some(
                        Draft {
                            rank: draft.rank,
                            line: draft.line,
                            words,
                            start,
                            end: Some(events[index].end),
                        },
                    );
                }
            },
            EventTag::SoftBreak | EventTag::HardBreak => {
                if let Some(draft) = current {
                    let mut words = draft.words;
                    words.push(' ');
                    current = Some(
                        Draft {
                            rank: draft.rank,
                            line: draft.line,
                            words,
                            start: draft.start,
                            end: draft.end,
                        },
                    );
                }
            },
            EventTag::HeadingEnd => {
                match current {
                    None => {
                        return None;
                    },
                    Some(draft) => {
                        let selection = match (draft.start, draft.end) {
                            (Some(start), Some(end)) => {
                                if start < end {
                                    Some((start, end))
                                } else {
                                    return None;
                                }
                            },
                            (None, None) => None,
                            _ => {
                                return None;
                            },
                        };
                        let ghost earlier = headings@;
                        let name = collapse_words(draft.words.as_str());
                        headings.push(
                            Heading { rank: draft.rank, line: draft.line, name, selection },
                        );
                        assert(heading_records(headings@) =~= heading_records(earlier).push(
                            HeadingRecord {
                                rank: draft.rank,
                                line: draft.line,
                                name: name@,
                                selection,
                            },
                        ));
                        current = None;
                    },
                }
            },
            _ => {},
        }
        index = index + 1;
    }
    if current.is_some() {
        None
    } else {
        Some(headings)
    }
}

/// The headings of a document as symbols, or nothing if a limit is passed or a
/// heading is not closed.
pub fn markdown_symbols(
    events: &Vec<MarkdownEvent>,
    source: &str,
    starts: &[usize],
    limits: StructureLimits,
) -> (result: Option<Vec<StructureSymbol>>)
    requires
        line_starts_of(starts@, text(source)),
    ensures
        match heading_symbols(text(source), starts@, limits, event_records(events@)) {
            None => result is None,
            Some(expected) => result matches Some(found) && symbol_records(found@) == expected,
        },
{
    let headings = match read_outline(events, starts, limits) {
        None => {
            return None;
        },
        Some(headings) => headings,
    };
    let ghost listed = heading_records(headings@);
    let ghost bytes = text(source);
    assert(outline_after(event_records(events@), starts@, limits, events@.len() as int) == Some(
        OutlineState { headings: listed, current: None },
    ));
    let mut symbols: Vec<StructureSymbol> = Vec::new();
    let mut hierarchy: Vec<(u8, SymbolId)> = Vec::new();
    let mut index: usize = 0;
    assert(symbol_records(symbols@) =~= Seq::<SymbolRecord>::empty());
    while index < headings.len()
        invariant
            index <= headings@.len(),
            listed == heading_records(headings@),
            bytes == text(source),
            line_starts_of(starts@, bytes),
            outline_after(event_records(events@), starts@, limits, events@.len() as int) == Some(
                OutlineState { headings: listed, current: None },
            ),
            forall|i: int|
                0 <= i < headings@.len() ==> (#[trigger] headings@[i]).line < starts@.len(),
            sections_after(bytes, starts@, limits, listed, index as int) == Some(
                SectionState { symbols: symbol_records(symbols@), hierarchy: hierarchy@ },
            ),
        decreases headings@.len() - index,
    {
        let ghost before = hierarchy@;
        proof {
            lemma_section_failure(
                bytes,
                starts@,
                limits,
                listed,
                index + 1,
                listed.len() as int,
            );
        }
        let rank: u8 = headings[index].rank;
        while hierarchy.len() > 0 && hierarchy[hierarchy.len() - 1].0 >= rank
            invariant
                above_rank(hierarchy@, rank) == above_rank(before, rank),
            decreases hierarchy@.len(),
        {
            let ghost given = hierarchy@;
            hierarchy.pop();
            assert(hierarchy@ =~= given.drop_last());
        }
        assert(hierarchy@ == above_rank(before, rank));
        assert(listed[index as int].name == headings@[index as int].name@);
        if !headings[index].name.as_str().is_empty() {
            if symbols.len() >= limits.max_symbols || hierarchy.len() >= limits.max_symbol_depth
                || symbols.len() > u32::MAX as usize {
                return None;
            }
            let (start, end) = match headings[index].selection {
                None => {
                    return None;
                },
                Some(selection) => selection,
            };
            let mut next: usize = index + 1;
            while next < headings.len() && headings[next].rank > rank
                invariant
                    index < next <= headings@.len(),
                    listed == heading_records(headings@),
                    section_limit(listed, next as int, rank, bytes.len() as int, starts@)
                        == section_limit(listed, index + 1, rank, bytes.len() as int, starts@),
                decreases headings@.len() - next,
            {
                next = next + 1;
            }
            let section_end: usize = if next < headings.len() {
                starts[headings[next].line]
            } else {
                source.as_bytes().len()
            };
            let section_start: usize = starts[headings[index].line];
            let range = match source_range(source, starts, section_start, section_end) {
                None => {
                    return None;
                },
                Some(range) => range,
            };
            let selection_range = match source_range(source, starts, start, end) {
                None => {
                    return None;
                },
                Some(range) => range,
            };
            if !selection_range.lies_within(range) {
                return None;
            }
            let id = SymbolId(symbols.len() as u32);
            let parent = if hierarchy.len() > 0 {
                Some(hierarchy[hierarchy.len() - 1].1)
            } else {
                None
            };
            let ghost earlier = symbols@;
            symbols.push(
                StructureSymbol {
                    id,
                    name: copy_text(headings[index].name.as_str()),
                    kind: SymbolKind::Heading,
                    range,
                    selection_range,
                    parent,
                    detail: None,
                    container: None,
                },
            );
            hierarchy.push((rank, id));
            assert(symbol_records(symbols@) =~= symbol_records(earlier).push(symbols@.last()@));
        }
        index = index + 1;
    }
    Some(symbols)
}

// Headings and their sections -------------------------------------------------------------

/// How many of the first headings have a name.
pub open spec fn named_before(headings: Seq<HeadingRecord>, count: int) -> int
    decreases count,
{
    if count <= 0 {
        0
    } else {
        named_before(headings, count - 1) + (if headings[count - 1].name.len() > 0 {
            1int
        } else {
            0
        })
    }
}

/// Every heading between this one and that place is of a deeper rank: the section of this
/// one is still open there.
pub open spec fn is_open_at(headings: Seq<HeadingRecord>, at: int, place: int) -> bool {
    forall|k: int| at < k < place ==> (#[trigger] headings[k]).rank > headings[at].rank
}

pub open spec fn is_named(headings: Seq<HeadingRecord>, at: int) -> bool {
    0 <= at < headings.len() && headings[at].name.len() > 0
}

/// Where the section of a heading ends: where the next heading of no deeper rank begins, or
/// with the source.
pub open spec fn ends_at(
    headings: Seq<HeadingRecord>,
    at: int,
    source_len: int,
    starts: Seq<usize>,
    end: int,
) -> bool {
    ||| end == source_len && is_open_at(headings, at, headings.len() as int)
    ||| exists|next: int|
        at < next < headings.len() && #[trigger] is_open_at(headings, at, next)
            && headings[next].rank <= headings[at].rank && end
            == starts[headings[next].line as int]
}

/// The parent of a heading is the last named heading whose section is open at it.
pub open spec fn is_parent(
    headings: Seq<HeadingRecord>,
    at: int,
    parent: Option<SymbolId>,
) -> bool {
    match parent {
        None => forall|other: int|
            other < at && #[trigger] is_named(headings, other) ==> !is_open_at(
                headings,
                other,
                at + 1,
            ),
        Some(id) => exists|own: int|
            #![trigger is_named(headings, own)]
            {
                &&& own < at && is_named(headings, own) && is_open_at(headings, own, at + 1)
                &&& id.0 == named_before(headings, own)
                &&& forall|other: int|
                    own < other < at && #[trigger] is_named(headings, other) ==> !is_open_at(
                        headings,
                        other,
                        at + 1,
                    )
            },
    }
}

/// What a named heading is listed as.
pub open spec fn is_listed_as(
    source: Seq<u8>,
    starts: Seq<usize>,
    headings: Seq<HeadingRecord>,
    at: int,
    symbol: SymbolRecord,
) -> bool {
    &&& symbol.name == headings[at].name
    &&& symbol.kind == SymbolKind::Heading
    &&& is_parent(headings, at, symbol.parent)
    &&& headings[at].selection matches Some(selection) && range_at(
        source,
        starts,
        selection.0 as int,
        selection.1 as int,
    ) == Some(symbol.selection_range)
    &&& exists|end: int| #[trigger]
        ends_at(headings, at, source.len() as int, starts, end) && range_at(
            source,
            starts,
            starts[headings[at].line as int] as int,
            end,
        ) == Some(symbol.range)
}

proof fn lemma_named_before(headings: Seq<HeadingRecord>, low: int, high: int)
    requires
        0 <= low <= high,
    ensures
        0 <= named_before(headings, low) <= named_before(headings, high),
        low < high && headings[low].name.len() > 0 ==> named_before(headings, low) < named_before(
            headings,
            high,
        ),
    decreases high,
{
    if low < high {
        lemma_named_before(headings, low, high - 1);
    } else if high > 0 {
        lemma_named_before(headings, low - 1, high - 1);
    }
}

proof fn lemma_section_limit(
    headings: Seq<HeadingRecord>,
    at: int,
    from: int,
    source_len: int,
    starts: Seq<usize>,
)
    requires
        0 <= at < from <= headings.len(),
        is_open_at(headings, at, from),
    ensures
        ends_at(
            headings,
            at,
            source_len,
            starts,
            section_limit(headings, from, headings[at].rank, source_len, starts),
        ),
    decreases headings.len() - from,
{
    if from < headings.len() && headings[from].rank > headings[at].rank {
        lemma_section_limit(headings, at, from + 1, source_len, starts);
    }
}

proof fn lemma_ranks_kept(hierarchy: Seq<(u8, SymbolId)>, rank: u8) -> (count: int)
    ensures
        0 <= count <= hierarchy.len(),
        above_rank(hierarchy, rank) == hierarchy.subrange(0, count),
        count > 0 ==> hierarchy[count - 1].0 < rank,
        forall|i: int| count <= i < hierarchy.len() ==> (#[trigger] hierarchy[i]).0 >= rank,
    decreases hierarchy.len(),
{
    if hierarchy.len() > 0 && hierarchy.last().0 >= rank {
        let front = hierarchy.drop_last();
        let count = lemma_ranks_kept(front, rank);
        assert(front.subrange(0, count) =~= hierarchy.subrange(0, count));
        if count > 0 {
            assert(front[count - 1] == hierarchy[count - 1]);
        }
        assert forall|i: int| count <= i < hierarchy.len() implies (#[trigger] hierarchy[i]).0
            >= rank by {
            if i < front.len() {
                assert(front[i] == hierarchy[i]);
            }
        }
        count
    } else {
        assert(hierarchy.subrange(0, hierarchy.len() as int) =~= hierarchy);
        hierarchy.len() as int
    }
}

/// The open sections are those of these headings.
spec fn are_open(
    headings: Seq<HeadingRecord>,
    count: int,
    hierarchy: Seq<(u8, SymbolId)>,
    open: Seq<int>,
) -> bool {
    &&& open.len() == hierarchy.len()
    &&& forall|m: int|
        0 <= m < open.len() ==> {
            &&& 0 <= #[trigger] open[m] < count
            &&& is_named(headings, open[m])
            &&& is_open_at(headings, open[m], count)
            &&& hierarchy[m].0 == headings[open[m]].rank
            &&& hierarchy[m].1.0 == named_before(headings, open[m])
        }
    &&& forall|m: int, n: int| 0 <= m < n < open.len() ==> #[trigger] open[m] < #[trigger] open[n]
    &&& forall|j: int|
        j < count && #[trigger] is_named(headings, j) && is_open_at(headings, j, count)
            ==> open.contains(j)
}

proof fn lemma_still_open_sections(
    headings: Seq<HeadingRecord>,
    at: int,
    hierarchy: Seq<(u8, SymbolId)>,
    open: Seq<int>,
) -> (left: Seq<int>)
    requires
        0 <= at < headings.len(),
        are_open(headings, at, hierarchy, open),
    ensures
        left.len() == above_rank(hierarchy, headings[at].rank).len(),
        are_open_but(headings, at, above_rank(hierarchy, headings[at].rank), left),
{
    let rank = headings[at].rank;
    let count = lemma_ranks_kept(hierarchy, rank);
    let left = open.subrange(0, count);
    let kept = above_rank(hierarchy, rank);
    assert forall|m: int| 0 <= m < left.len() implies {
        &&& 0 <= #[trigger] left[m] < at
        &&& is_named(headings, left[m])
        &&& is_open_at(headings, left[m], at + 1)
        &&& kept[m].0 == headings[left[m]].rank
        &&& kept[m].1.0 == named_before(headings, left[m])
    } by {
        assert(left[m] == open[m]);
        assert(kept[m] == hierarchy[m]);
        if m < count - 1 {
            assert(open[m] < open[count - 1]);
            assert(is_open_at(headings, open[m], at));
            assert(headings[open[count - 1]].rank > headings[open[m]].rank);
        }
        assert(headings[open[m]].rank < rank);
    }
    assert forall|j: int|
        j < at && #[trigger] is_named(headings, j) && is_open_at(
            headings,
            j,
            at + 1,
        ) implies left.contains(j) by {
        assert(is_open_at(headings, j, at));
        let m = choose|m: int| 0 <= m < open.len() && open[m] == j;
        assert(headings[at].rank > headings[j].rank);
        assert(hierarchy[m].0 == headings[open[m]].rank);
        assert(m < count);
        assert(left[m] == j);
    }
    left
}

spec fn are_open_but(
    headings: Seq<HeadingRecord>,
    at: int,
    hierarchy: Seq<(u8, SymbolId)>,
    open: Seq<int>,
) -> bool {
    &&& open.len() == hierarchy.len()
    &&& forall|m: int|
        0 <= m < open.len() ==> {
            &&& 0 <= #[trigger] open[m] < at
            &&& is_named(headings, open[m])
            &&& is_open_at(headings, open[m], at + 1)
            &&& hierarchy[m].0 == headings[open[m]].rank
            &&& hierarchy[m].1.0 == named_before(headings, open[m])
        }
    &&& forall|m: int, n: int| 0 <= m < n < open.len() ==> #[trigger] open[m] < #[trigger] open[n]
    &&& forall|j: int|
        j < at && #[trigger] is_named(headings, j) && is_open_at(headings, j, at + 1)
            ==> open.contains(j)
}

proof fn lemma_parent_found(
    headings: Seq<HeadingRecord>,
    at: int,
    hierarchy: Seq<(u8, SymbolId)>,
    open: Seq<int>,
)
    requires
        0 <= at < headings.len(),
        are_open_but(headings, at, hierarchy, open),
    ensures
        is_parent(
            headings,
            at,
            if hierarchy.len() > 0 {
                Some(hierarchy.last().1)
            } else {
                None
            },
        ),
{
    if hierarchy.len() > 0 {
        let own = open[open.len() - 1];
        assert(is_named(headings, own));
        assert forall|other: int|
            own < other < at && #[trigger] is_named(headings, other) implies !is_open_at(
            headings,
            other,
            at + 1,
        ) by {
            if is_open_at(headings, other, at + 1) {
                let m = choose|m: int| 0 <= m < open.len() && open[m] == other;
                if m < open.len() - 1 {
                    assert(open[m] < open[open.len() - 1]);
                }
            }
        }
    }
}

proof fn lemma_sections_listed(
    source: Seq<u8>,
    starts: Seq<usize>,
    limits: StructureLimits,
    headings: Seq<HeadingRecord>,
    count: int,
) -> (open: Seq<int>)
    requires
        0 <= count <= headings.len(),
        sections_after(source, starts, limits, headings, count) is Some,
    ensures
        ({
            let state = sections_after(source, starts, limits, headings, count)->0;
            &&& are_open(headings, count, state.hierarchy, open)
            &&& state.symbols.len() == named_before(headings, count)
            &&& forall|at: int|
                0 <= at < count && #[trigger] is_named(headings, at) ==> is_listed_as(
                    source,
                    starts,
                    headings,
                    at,
                    state.symbols[named_before(headings, at)],
                )
        }),
    decreases count,
{
    if count == 0 {
        Seq::empty()
    } else {
        let at = count - 1;
        let before = sections_after(source, starts, limits, headings, at)->0;
        let open = lemma_sections_listed(source, starts, limits, headings, at);
        let state = sections_after(source, starts, limits, headings, count)->0;
        let kept = above_rank(before.hierarchy, headings[at].rank);
        let left = lemma_still_open_sections(headings, at, before.hierarchy, open);
        lemma_parent_found(headings, at, kept, left);
        let named = headings[at].name.len() > 0;
        let now = if named {
            left.push(at)
        } else {
            left
        };
        assert(is_open_at(headings, at, count));
        assert forall|m: int| 0 <= m < now.len() implies {
            &&& 0 <= #[trigger] now[m] < count
            &&& is_named(headings, now[m])
            &&& is_open_at(headings, now[m], count)
            &&& state.hierarchy[m].0 == headings[now[m]].rank
            &&& state.hierarchy[m].1.0 == named_before(headings, now[m])
        } by {
            if m < left.len() {
                assert(left[m] == now[m]);
                assert(state.hierarchy[m] == kept[m]);
            }
        }
        assert forall|j: int|
            j < count && #[trigger] is_named(headings, j) && is_open_at(
                headings,
                j,
                count,
            ) implies now.contains(j) by {
            if j < at {
                let m = choose|m: int| 0 <= m < left.len() && left[m] == j;
                assert(now[m] == j);
            } else {
                assert(now[now.len() - 1] == j);
            }
        }
        assert(are_open(headings, count, state.hierarchy, now));
        if named {
            lemma_section_limit(headings, at, at + 1, source.len() as int, starts);
            assert(is_listed_as(
                source,
                starts,
                headings,
                at,
                state.symbols[named_before(headings, at)],
            ));
        }
        assert forall|i: int| 0 <= i < count && #[trigger] is_named(
            headings,
            i,
        ) implies is_listed_as(
            source,
            starts,
            headings,
            i,
            state.symbols[named_before(headings, i)],
        ) by {
            if i < at {
                lemma_named_before(headings, i, at);
                assert(state.symbols[named_before(headings, i)] == before.symbols[named_before(
                    headings,
                    i,
                )]);
            }
        }
        now
    }
}

/// The symbols of a document are its named headings in order. The section of a heading
/// reaches to the next heading of no deeper rank, and the parent of a heading is the last
/// named heading before it whose section it stands in.
pub proof fn law_headings_stand_in_the_sections_open_at_them(
    source: Seq<u8>,
    starts: Seq<usize>,
    limits: StructureLimits,
    headings: Seq<HeadingRecord>,
)
    requires
        sections_after(source, starts, limits, headings, headings.len() as int) is Some,
    ensures
        ({
            let symbols = sections_after(
                source,
                starts,
                limits,
                headings,
                headings.len() as int,
            )->0.symbols;
            &&& symbols.len() == named_before(headings, headings.len() as int)
            &&& forall|at: int| #[trigger]
                is_named(headings, at) ==> is_listed_as(
                    source,
                    starts,
                    headings,
                    at,
                    symbols[named_before(headings, at)],
                )
        }),
{
    lemma_sections_listed(source, starts, limits, headings, headings.len() as int);
}

/// In the name of a heading a run of blanks is one space, and there is none at its ends; all
/// else stays as it is.
pub proof fn law_runs_of_blanks_are_one_space(front: Seq<char>, blanks: Seq<char>, word: Seq<char>)
    requires
        forall|i: int| 0 <= i < blanks.len() ==> is_whitespace(#[trigger] blanks[i]),
        forall|i: int| 0 <= i < word.len() ==> !is_whitespace(#[trigger] word[i]),
        word.len() > 0,
        blanks.len() > 0,
    ensures
        collapsed(word) == word,
        collapsed(front + blanks) == collapsed(front),
        collapsed(front + blanks + word) == (if collapsed(front).len() > 0 {
            collapsed(front) + seq![' '] + word
        } else {
            word
        }),
{
    lemma_collapsed_blanks(front, blanks);
    assert(Seq::<char>::empty() + blanks =~= blanks);
    lemma_collapsed_word(front + blanks, word);
    lemma_collapsed_word(Seq::empty(), word);
    assert(Seq::<char>::empty() + word =~= word);
    assert((front + blanks).last() == blanks[blanks.len() - 1]);
}

proof fn lemma_collapsed_blanks(front: Seq<char>, blanks: Seq<char>)
    requires
        forall|i: int| 0 <= i < blanks.len() ==> is_whitespace(#[trigger] blanks[i]),
    ensures
        collapsed(front + blanks) == collapsed(front),
    decreases blanks.len(),
{
    if blanks.len() == 0 {
        assert(front + blanks =~= front);
    } else {
        let fewer = blanks.drop_last();
        assert forall|i: int| 0 <= i < fewer.len() implies is_whitespace(#[trigger] fewer[i]) by {
            assert(fewer[i] == blanks[i]);
        }
        lemma_collapsed_blanks(front, fewer);
        assert((front + blanks).drop_last() =~= front + fewer);
        assert((front + blanks).last() == blanks[blanks.len() - 1]);
    }
}

proof fn lemma_collapsed_word(front: Seq<char>, word: Seq<char>)
    requires
        forall|i: int| 0 <= i < word.len() ==> !is_whitespace(#[trigger] word[i]),
        front.len() > 0 ==> is_whitespace(front.last()),
    ensures
        word.len() > 0 ==> collapsed(front + word) == (if collapsed(front).len() > 0 {
            collapsed(front) + seq![' '] + word
        } else {
            word
        }),
    decreases word.len(),
{
    if word.len() > 0 {
        let fewer = word.drop_last();
        assert forall|i: int| 0 <= i < fewer.len() implies !is_whitespace(#[trigger] fewer[i]) by {
            assert(fewer[i] == word[i]);
        }
        lemma_collapsed_word(front, fewer);
        let all = front + word;
        assert(all.drop_last() =~= front + fewer);
        assert(all.last() == word[word.len() - 1]);
        if fewer.len() > 0 {
            assert(all[all.len() - 2] == word[word.len() - 2]);
            assert(fewer.push(word.last()) =~= word);
            assert((collapsed(front) + seq![' '] + fewer).push(word.last()) =~= collapsed(front)
                + seq![' '] + word);
        } else {
            assert(front + fewer =~= front);
            assert(word =~= seq![word.last()]);
            if front.len() > 0 {
                assert(all[all.len() - 2] == front.last());
            }
            assert(collapsed(front).push(' ').push(word.last()) =~= collapsed(front) + seq![' ']
                + word);
            if collapsed(front).len() == 0 {
                assert(collapsed(front).push(word.last()) =~= word);
            }
        }
    }
}

// Which nodes are symbols -----------------------------------------------------------------

pub open spec fn is_of(found: Option<SymbolDescriptor>, kind: SymbolKind) -> bool {
    found matches Some(descriptor) && descriptor.kind == kind
}

/// A node of Rust is a symbol of the kind that it declares.
pub proof fn law_rust_symbols_go_by_kind(
    nodes: Seq<NodeRecord>,
    i: int,
    active: Seq<ActiveSymbol>,
)
    ensures
        ({
            let kind = nodes[i].kind;
            let found = descriptor_of(CodeLanguage::Rust, nodes, i, active);
            &&& is_of(found, SymbolKind::Function) <==> kind == "function_item"@
                && !stands_in_a_body(nodes, i)
            &&& is_of(found, SymbolKind::Method) <==> kind == "function_item"@ && stands_in_a_body(
                nodes,
                i,
            )
            &&& is_of(found, SymbolKind::Type) <==> (
                kind == "struct_item"@ || kind == "enum_item"@ || kind == "union_item"@
                || kind == "trait_item"@ || kind == "type_item"@
            )
            &&& is_of(found, SymbolKind::Module) <==> kind == "mod_item"@
            &&& !is_of(found, SymbolKind::Heading)
        }),
{
    reveal(descriptor_of);
    reveal_strlit("function_item");
    reveal_strlit("struct_item");
    reveal_strlit("enum_item");
    reveal_strlit("union_item");
    reveal_strlit("trait_item");
    reveal_strlit("type_item");
    reveal_strlit("mod_item");
    assert("function_item"@.len() == 13);
    assert("struct_item"@.len() == 11);
    assert("enum_item"@.len() == 9);
    assert("union_item"@.len() == 10);
    assert("trait_item"@.len() == 10);
    assert("type_item"@.len() == 9);
    assert("mod_item"@.len() == 8);
    assert("enum_item"@[0] == 'e' && "type_item"@[0] == 't');
    assert("union_item"@[0] == 'u' && "trait_item"@[0] == 't');
}

/// A node of TypeScript is a symbol of the kind that it declares.
pub proof fn law_typescript_symbols_go_by_kind(
    nodes: Seq<NodeRecord>,
    i: int,
    active: Seq<ActiveSymbol>,
)
    ensures
        ({
            let kind = nodes[i].kind;
            let found = descriptor_of(CodeLanguage::TypeScript, nodes, i, active);
            &&& is_of(found, SymbolKind::Function) <==> (
                kind == "function_declaration"@ || kind == "generator_function_declaration"@
            )
            &&& is_of(found, SymbolKind::Method) <==> (
                kind == "method_definition"@ || kind == "abstract_method_signature"@
                || kind == "method_signature"@
            )
            &&& is_of(found, SymbolKind::Type) <==> (
                kind == "class_declaration"@ || kind == "abstract_class_declaration"@
                || kind == "interface_declaration"@ || kind == "enum_declaration"@
                || kind == "type_alias_declaration"@
            )
            &&& is_of(found, SymbolKind::Module) <==> kind == "internal_module"@
            &&& !is_of(found, SymbolKind::Heading)
        }),
{
    reveal(descriptor_of);
    reveal_strlit("function_declaration");
    reveal_strlit("generator_function_declaration");
    reveal_strlit("method_definition");
    reveal_strlit("abstract_method_signature");
    reveal_strlit("method_signature");
    reveal_strlit("class_declaration");
    reveal_strlit("abstract_class_declaration");
    reveal_strlit("interface_declaration");
    reveal_strlit("enum_declaration");
    reveal_strlit("type_alias_declaration");
    reveal_strlit("internal_module");
    assert("function_declaration"@.len() == 20);
    assert("generator_function_declaration"@.len() == 30);
    assert("method_definition"@.len() == 17);
    assert("abstract_method_signature"@.len() == 25);
    assert("method_signature"@.len() == 16);
    assert("class_declaration"@.len() == 17);
    assert("abstract_class_declaration"@.len() == 26);
    assert("interface_declaration"@.len() == 21);
    assert("enum_declaration"@.len() == 16);
    assert("type_alias_declaration"@.len() == 22);
    assert("internal_module"@.len() == 15);
    assert("method_definition"@[0] == 'm' && "class_declaration"@[0] == 'c');
    assert("method_signature"@[0] == 'm' && "enum_declaration"@[0] == 'e');
}

/// A node of JavaScript, of Python or of Go is a symbol of the kind that it declares. A
/// function of Python is a method where the innermost symbol around it is a class.
pub proof fn law_other_symbols_go_by_kind(
    nodes: Seq<NodeRecord>,
    i: int,
    active: Seq<ActiveSymbol>,
)
    ensures
        ({
            let kind = nodes[i].kind;
            let found = descriptor_of(CodeLanguage::JavaScript, nodes, i, active);
            &&& is_of(found, SymbolKind::Function) <==> (
                kind == "function_declaration"@ || kind == "generator_function_declaration"@
            )
            &&& is_of(found, SymbolKind::Method) <==> kind == "method_definition"@
            &&& is_of(found, SymbolKind::Type) <==> kind == "class_declaration"@
            &&& !is_of(found, SymbolKind::Module) && !is_of(found, SymbolKind::Heading)
        }),
        ({
            let kind = nodes[i].kind;
            let found = descriptor_of(CodeLanguage::Go, nodes, i, active);
            &&& is_of(found, SymbolKind::Function) <==> kind == "function_declaration"@
            &&& is_of(found, SymbolKind::Method) <==> kind == "method_declaration"@
            &&& is_of(found, SymbolKind::Type) <==> kind == "type_spec"@
            &&& !is_of(found, SymbolKind::Module) && !is_of(found, SymbolKind::Heading)
        }),
        ({
            let kind = nodes[i].kind;
            let found = descriptor_of(CodeLanguage::Python, nodes, i, active);
            &&& is_of(found, SymbolKind::Type) <==> kind == "class_definition"@
            &&& is_of(found, SymbolKind::Function) || is_of(found, SymbolKind::Method) <==> kind
                == "function_definition"@
            &&& active.len() == 0 ==> !is_of(found, SymbolKind::Method)
            &&& kind == "function_definition"@ && active.len() > 0 && active.last().owner
                is PythonClass ==> is_of(found, SymbolKind::Method)
            &&& active.len() > 0 && active.last().owner is PythonFunction ==> !is_of(
                found,
                SymbolKind::Method,
            )
            &&& !is_of(found, SymbolKind::Module) && !is_of(found, SymbolKind::Heading)
        }),
{
    reveal(descriptor_of);
    reveal_strlit("function_declaration");
    reveal_strlit("generator_function_declaration");
    reveal_strlit("method_definition");
    reveal_strlit("class_declaration");
    reveal_strlit("method_declaration");
    reveal_strlit("type_spec");
    reveal_strlit("class_definition");
    reveal_strlit("function_definition");
    assert("function_declaration"@.len() == 20);
    assert("generator_function_declaration"@.len() == 30);
    assert("method_definition"@.len() == 17);
    assert("class_declaration"@.len() == 17);
    assert("method_declaration"@.len() == 18);
    assert("type_spec"@.len() == 9);
    assert("class_definition"@.len() == 16);
    assert("function_definition"@.len() == 19);
    assert("method_definition"@[0] == 'm' && "class_declaration"@[0] == 'c');
}

/// A symbol is put under the innermost symbol around it that may hold it, and the one that
/// does may hold it.
pub proof fn law_the_innermost_owner_is_taken(
    language: CodeLanguage,
    active: Seq<ActiveSymbol>,
    owner: SymbolOwner,
)
    ensures
        match nearest_owner(language, active, owner) {
            Some(found) => exists|m: int|
                0 <= m < active.len() && #[trigger] active[m] == found && owns(
                    language,
                    found.owner,
                    owner,
                ) && forall|n: int|
                    m < n < active.len() ==> !owns(language, (#[trigger] active[n]).owner, owner),
            None => forall|n: int|
                0 <= n < active.len() ==> !owns(language, (#[trigger] active[n]).owner, owner),
        },
    decreases active.len(),
{
    if active.len() > 0 {
        if owns(language, active.last().owner, owner) {
            assert(active[active.len() - 1] == active.last());
        } else {
            let front = active.drop_last();
            law_the_innermost_owner_is_taken(language, front, owner);
            match nearest_owner(language, front, owner) {
                Some(found) => {
                    let m = choose|m: int|
                        0 <= m < front.len() && #[trigger] front[m] == found && owns(
                            language,
                            found.owner,
                            owner,
                        ) && forall|n: int|
                            m < n < front.len() ==> !owns(
                                language,
                                (#[trigger] front[n]).owner,
                                owner,
                            );
                    assert(active[m] == found);
                    assert forall|n: int| m < n < active.len() implies !owns(
                        language,
                        (#[trigger] active[n]).owner,
                        owner,
                    ) by {
                        if n < front.len() {
                            assert(front[n] == active[n]);
                        }
                    }
                },
                None => {
                    assert forall|n: int| 0 <= n < active.len() implies !owns(
                        language,
                        (#[trigger] active[n]).owner,
                        owner,
                    ) by {
                        if n < front.len() {
                            assert(front[n] == active[n]);
                        }
                    }
                },
            }
        }
    }
}

/// What may hold what: modules and traits hold in Rust, modules and types in TypeScript,
/// classes and functions in JavaScript and in Python, and nothing does in Go.
pub proof fn law_owners_hold_by_language(outer: SymbolOwner, inner: SymbolOwner)
    ensures
        !owns(CodeLanguage::Go, outer, inner),
        owns(CodeLanguage::Python, outer, inner) <==> outer is PythonClass || outer
            is PythonFunction,
        owns(CodeLanguage::Rust, outer, inner) ==> outer is RustModule || (outer is RustTrait
            && inner is RustFunction),
        outer is RustModule && (inner is RustModule || inner is RustTrait || inner is RustOtherType
            || inner is RustFunction) ==> owns(CodeLanguage::Rust, outer, inner),
        outer is RustTrait && inner is RustFunction ==> owns(CodeLanguage::Rust, outer, inner),
        owns(CodeLanguage::TypeScript, outer, inner) ==> outer is TypeScriptModule || (outer
            is TypeScriptType && !(inner is TypeScriptModule)),
        outer is TypeScriptModule && (inner is TypeScriptModule || inner is TypeScriptType || inner
            is TypeScriptFunction || inner is TypeScriptMethod) ==> owns(
            CodeLanguage::TypeScript,
            outer,
            inner,
        ),
        outer is TypeScriptType && (inner is TypeScriptType || inner is TypeScriptFunction || inner
            is TypeScriptMethod) ==> owns(CodeLanguage::TypeScript, outer, inner),
        owns(CodeLanguage::JavaScript, outer, inner) ==> outer is JavaScriptClass || (outer
            is JavaScriptFunction && !(inner is JavaScriptMethod)),
        outer is JavaScriptClass && (inner is JavaScriptMethod || inner is JavaScriptClass || inner
            is JavaScriptFunction) ==> owns(CodeLanguage::JavaScript, outer, inner),
        outer is JavaScriptFunction && (inner is JavaScriptClass || inner is JavaScriptFunction)
            ==> owns(CodeLanguage::JavaScript, outer, inner),
{
}

// What headings are read from -------------------------------------------------------------

/// A heading begins with its rank and on its line, takes up the text and the code in it, and
/// breaks as spaces, and ends as one heading more, with its name and the bytes from its first
/// text to its last. Outside a heading nothing is taken up.
pub proof fn law_headings_take_up_their_text(
    event: EventRecord,
    starts: Seq<usize>,
    state: OutlineState,
)
    ensures
        event.tag is HeadingStart && state.current is None ==> (outline_step(
            event,
            starts,
            state,
        ) matches Some(after) && after.headings == state.headings && (after.current matches Some(
            draft,
        ) && draft.rank == event.tag->HeadingStart_0 && draft.line == line_at(starts, event.start as int) as usize
            && draft.words.len() == 0 && draft.start is None && draft.end is None)),
        (event.tag is Text || event.tag is Code) && state.current is Some ==> (outline_step(
            event,
            starts,
            state,
        ) matches Some(after) && after.headings == state.headings && (after.current matches Some(
            draft,
        ) && draft.rank == state.current->0.rank && draft.line == state.current->0.line
            && draft.words == state.current->0.words + event.words && draft.end == Some(event.end)
            && draft.start == (if state.current->0.start is Some {
            state.current->0.start
        } else {
            Some(event.start)
        }))),
        (event.tag is SoftBreak || event.tag is HardBreak) && state.current is Some ==> (
        outline_step(event, starts, state) matches Some(after) && after.headings == state.headings
            && (after.current matches Some(draft) && draft.words == state.current->0.words.push(' ')
            && draft.rank == state.current->0.rank && draft.line == state.current->0.line
            && draft.start == state.current->0.start && draft.end == state.current->0.end)),
        event.tag is HeadingEnd && state.current is Some && state.current->0.start is Some
            && state.current->0.end is Some && state.current->0.start->0 < state.current->0.end->0
            ==> (outline_step(event, starts, state) matches Some(after) && after.current is None
            && after.headings.len() == state.headings.len() + 1 && after.headings.drop_last()
            == state.headings && after.headings.last().rank == state.current->0.rank
            && after.headings.last().line == state.current->0.line && after.headings.last().name
            == collapsed(state.current->0.words) && after.headings.last().selection == Some(
            (state.current->0.start->0, state.current->0.end->0),
        )),
        state.current is None && !(event.tag is HeadingStart) && !(event.tag is HeadingEnd)
            ==> outline_step(event, starts, state) == Some(state),
{
    if event.tag is HeadingEnd && state.current is Some && outline_step(
        event,
        starts,
        state,
    ) is Some {
        assert(outline_step(event, starts, state)->0.headings.drop_last() =~= state.headings);
    }
}

} // verus!
