//! The symbols of a document that a server answers with.

use crate::document::NavigationSource;
use crate::locations::MAX_NORMALIZED_RESULT_BYTES;
use crate::paths::{paths_equal, same_path, PathStyle};
use crate::payload::{GlobalPayloadBudget, PayloadBudget, PayloadError, PayloadPermit};
use crate::positions::{source_range_of, PositionError, Range};
use crate::protocol::{
    bounded, bounded_raw_string_charge, decode_bounded_owned_string, decode_uri, raw_starts_with,
    starts_with_mark, token_charge, token_text, token_uri, TokenError, MAX_RESULT_URI_BYTES,
};
use crate::source::SourceRange;
use crate::text::{copy_text, text_equal, trim_text, trimmed};
use vstd::prelude::*;
use vstd::utf8::encode_utf8;

verus! {

pub const MAX_SYMBOL_RESULTS: usize = 4_096;

pub const MAX_SYMBOL_STRING_BYTES: usize = 4 * 1024;

pub const MAX_SYMBOL_TEXT_BYTES: usize = 512 * 1024;

pub const MAX_NESTED_DEPTH: usize = 64;

/// Whether a reader looks behind and below an item: one that is over a limit is the last
/// that counts.
pub fn reads_on(items: usize, depth: usize) -> (more: bool)
    ensures
        more == (items <= MAX_SYMBOL_RESULTS && depth <= MAX_NESTED_DEPTH),
{
    items <= MAX_SYMBOL_RESULTS && depth <= MAX_NESTED_DEPTH
}

/// What a symbol costs besides its texts.
pub const SYMBOL_CHARGE: usize = 176;

#[derive(Clone, Copy, Debug, PartialEq, Eq, Structural)]
pub enum ProtocolSymbolKind {
    Function,
    Method,
    Type,
    Module,
    Other,
}

/// The kind of a symbol by the number that the protocol gives it.
pub open spec fn kind_of(kind: int) -> ProtocolSymbolKind {
    if kind == 12 {
        ProtocolSymbolKind::Function
    } else if kind == 6 || kind == 9 {
        ProtocolSymbolKind::Method
    } else if kind == 5 || kind == 10 || kind == 11 || kind == 23 || kind == 26 {
        ProtocolSymbolKind::Type
    } else if kind == 2 || kind == 3 || kind == 4 {
        ProtocolSymbolKind::Module
    } else {
        ProtocolSymbolKind::Other
    }
}

pub fn normalize_symbol_kind(kind: i32) -> (normal: ProtocolSymbolKind)
    ensures
        normal == kind_of(kind as int),
{
    if kind == 12 {
        ProtocolSymbolKind::Function
    } else if kind == 6 || kind == 9 {
        ProtocolSymbolKind::Method
    } else if kind == 5 || kind == 10 || kind == 11 || kind == 23 || kind == 26 {
        ProtocolSymbolKind::Type
    } else if kind == 2 || kind == 3 || kind == 4 {
        ProtocolSymbolKind::Module
    } else {
        ProtocolSymbolKind::Other
    }
}

/// A symbol as it was written. The texts are tokens.
#[derive(Debug)]
pub enum SymbolBody {
    /// A symbol with a range of its own, and perhaps with children.
    Nested {
        name: String,
        detail: Option<String>,
        kind: i32,
        range: Range,
        selection_range: Range,
    },
    /// A symbol at a location. `target` is the file of the workspace that its
    /// URI names, or why it names none.
    Flat {
        name: String,
        kind: i32,
        uri: String,
        target: Result<Vec<u8>, String>,
        range: Range,
        container: Option<String>,
    },
    /// Both at once, or neither.
    Mixed,
    /// Something that could not be read.
    Unread(UnreadSymbol),
}

/// What could not be read of a symbol.
#[derive(Clone, Copy, Debug, PartialEq, Eq, Structural)]
pub enum UnreadSymbol {
    /// Which of the two kinds it is.
    Item,
    /// The parts of a symbol with a range of its own.
    Nested,
    /// The parts of a symbol at a location.
    Flat,
    /// The list of the children of the symbol in front of this item.
    Children,
}

/// A symbol and its depth, which starts at one. The symbols of a document come with
/// children behind their parents.
#[derive(Debug)]
pub struct SymbolItem {
    pub depth: usize,
    pub body: SymbolBody,
    /// What a parser adds of the place behind the outermost symbol around this one when
    /// it stops there.
    pub place: String,
}

/// The path of a file, and how paths are written where it is.
pub struct FilePath {
    pub style: PathStyle,
    pub bytes: Seq<u8>,
}

pub open spec fn source_path(source: NavigationSource) -> FilePath {
    FilePath { style: source.style, bytes: source.absolute_path@ }
}

/// A symbol that was let in, and the permits that it holds.
#[derive(Debug)]
pub struct ProtocolDocumentSymbol {
    pub name: String,
    pub detail: Option<String>,
    pub container: Option<String>,
    pub kind: ProtocolSymbolKind,
    pub range: SourceRange,
    pub selection_range: SourceRange,
    pub parent: Option<usize>,
    pub permit: PayloadPermit,
    pub uri_permit: Option<PayloadPermit>,
}

/// What a symbol says, and what it costs.
pub struct DocumentSymbolRecord {
    pub name: Seq<char>,
    pub detail: Option<Seq<char>>,
    pub container: Option<Seq<char>>,
    pub kind: ProtocolSymbolKind,
    pub range: SourceRange,
    pub selection_range: SourceRange,
    pub parent: Option<int>,
    pub charge: int,
    pub uri_charge: int,
}

pub open spec fn words_of(words: Option<String>) -> Option<Seq<char>> {
    match words {
        Some(words) => Some(words@),
        None => None,
    }
}

impl View for ProtocolDocumentSymbol {
    type V = DocumentSymbolRecord;

    open spec fn view(&self) -> DocumentSymbolRecord {
        DocumentSymbolRecord {
            name: self.name@,
            detail: words_of(self.detail),
            container: words_of(self.container),
            kind: self.kind,
            range: self.range,
            selection_range: self.selection_range,
            parent: match self.parent {
                Some(parent) => Some(parent as int),
                None => None,
            },
            charge: self.permit.bytes as int,
            uri_charge: match self.uri_permit {
                Some(permit) => permit.bytes as int,
                None => 0,
            },
        }
    }
}

pub open spec fn document_symbols(symbols: Seq<ProtocolDocumentSymbol>) -> Seq<
    DocumentSymbolRecord,
> {
    Seq::new(symbols.len(), |i: int| symbols[i]@)
}

/// What symbols cost together.
pub open spec fn symbols_charge(symbols: Seq<DocumentSymbolRecord>) -> int
    decreases symbols.len(),
{
    if symbols.len() == 0 {
        0
    } else {
        symbols_charge(symbols.drop_last()) + symbols.last().charge + symbols.last().uri_charge
    }
}

#[derive(Clone, Copy, Debug, PartialEq, Eq, Structural)]
pub enum SymbolError {
    Unread,
    UnreadItem,
    UnreadNested,
    UnreadFlat,
    UnreadChildren,
    Shape,
    MixedVariants,
    TooDeep,
    Position(PositionError),
    SelectionOutside,
    UriTooLong,
    ResultTooLarge,
    Payload(PayloadError),
    InvalidUri,
    UnsafeTarget,
    OtherDocument,
    TooMany,
    Token(TokenError),
    EmptyName,
    TextTooLarge,
}

impl SymbolError {
    pub open spec fn text(self) -> Seq<char> {
        match self {
            SymbolError::Unread => "invalid bounded document symbol result"@,
            SymbolError::UnreadItem => "invalid document symbol result item"@,
            SymbolError::UnreadNested => "invalid nested DocumentSymbol"@,
            SymbolError::UnreadFlat => "invalid flat SymbolInformation"@,
            SymbolError::UnreadChildren => "invalid nested DocumentSymbol children"@,
            SymbolError::Shape => "document symbol item has an invalid or mixed variant shape"@,
            SymbolError::MixedVariants =>
                "document symbol result mixes nested and flat variants"@,
            SymbolError::TooDeep => "nested document symbols exceed depth 64"@,
            SymbolError::Position(error) => error.text(),
            SymbolError::SelectionOutside => "DocumentSymbol selectionRange is outside range"@,
            SymbolError::UriTooLong => "SymbolInformation URI exceeds 64 KiB"@,
            SymbolError::ResultTooLarge => "normalized document symbol result exceeds 1 MiB"@,
            SymbolError::Payload(error) => error.text(),
            SymbolError::InvalidUri => "invalid SymbolInformation URI"@,
            SymbolError::UnsafeTarget =>
                "navigation target is not a safe regular workspace file"@,
            SymbolError::OtherDocument =>
                "SymbolInformation URI does not match the requested document"@,
            SymbolError::TooMany =>
                "language server returned more than 4,096 document symbols"@,
            SymbolError::Token(error) => error.text(),
            SymbolError::EmptyName => "document symbol name is empty"@,
            SymbolError::TextTooLarge => "document symbol strings exceed 512 KiB"@,
        }
    }

    pub fn message(&self) -> (text: &'static str)
        ensures
            text@ == self.text(),
    {
        match self {
            SymbolError::Unread => "invalid bounded document symbol result",
            SymbolError::UnreadItem => "invalid document symbol result item",
            SymbolError::UnreadNested => "invalid nested DocumentSymbol",
            SymbolError::UnreadFlat => "invalid flat SymbolInformation",
            SymbolError::UnreadChildren => "invalid nested DocumentSymbol children",
            SymbolError::Shape => "document symbol item has an invalid or mixed variant shape",
            SymbolError::MixedVariants => "document symbol result mixes nested and flat variants",
            SymbolError::TooDeep => "nested document symbols exceed depth 64",
            SymbolError::Position(error) => error.message(),
            SymbolError::SelectionOutside => "DocumentSymbol selectionRange is outside range",
            SymbolError::UriTooLong => "SymbolInformation URI exceeds 64 KiB",
            SymbolError::ResultTooLarge => "normalized document symbol result exceeds 1 MiB",
            SymbolError::Payload(error) => error.message(),
            SymbolError::InvalidUri => "invalid SymbolInformation URI",
            SymbolError::UnsafeTarget => "navigation target is not a safe regular workspace file",
            SymbolError::OtherDocument =>
                "SymbolInformation URI does not match the requested document",
            SymbolError::TooMany => "language server returned more than 4,096 document symbols",
            SymbolError::Token(error) => error.message(),
            SymbolError::EmptyName => "document symbol name is empty",
            SymbolError::TextTooLarge => "document symbol strings exceed 512 KiB",
        }
    }
}

/// Why a result is refused, and the place of the item that it is refused for.
#[derive(Clone, Copy, Debug, PartialEq, Eq, Structural)]
pub struct SymbolFault {
    pub error: SymbolError,
    pub at: usize,
}

#[derive(Clone, Copy, Debug, PartialEq, Eq, Structural)]
pub enum SymbolVariant {
    Nested,
    Flat,
}

/// What was read of the symbols so far.
pub struct SymbolReading {
    pub variant: Option<SymbolVariant>,
    pub string_bytes: int,
    pub total_bytes: int,
    /// The places of the last symbol's ancestors and of itself, from the top down.
    pub path: Seq<int>,
    pub symbols: Seq<DocumentSymbolRecord>,
}

pub open spec fn no_symbols() -> SymbolReading {
    SymbolReading {
        variant: None,
        string_bytes: 0,
        total_bytes: 0,
        path: Seq::empty(),
        symbols: Seq::empty(),
    }
}

/// What is charged after another charge, under the limit of a result and of the room.
pub open spec fn charged(total: int, charge: int, room: int) -> Result<int, SymbolError> {
    if total + charge > MAX_NORMALIZED_RESULT_BYTES {
        Err(SymbolError::ResultTooLarge)
    } else if total + charge > room {
        Err(SymbolError::Payload(PayloadError::Exhausted))
    } else {
        Ok(total + charge)
    }
}

/// What a token costs; nothing if there is none.
pub open spec fn part_charge(raw: Option<Seq<char>>) -> Option<int> {
    match raw {
        None => Some(0),
        Some(raw) => token_charge(raw, MAX_SYMBOL_STRING_BYTES as int),
    }
}

/// The text of a token, if there is one.
pub open spec fn part_text(raw: Option<Seq<char>>) -> Result<Option<Seq<char>>, TokenError> {
    match raw {
        None => Ok(None),
        Some(raw) => match token_text(raw, MAX_SYMBOL_STRING_BYTES as int) {
            Ok(value) => Ok(Some(value)),
            Err(error) => Err(error),
        },
    }
}

pub open spec fn part_bytes(words: Option<Seq<char>>) -> int {
    match words {
        Some(words) => encode_utf8(words).len() as int,
        None => 0,
    }
}

/// The texts of a symbol.
pub struct SymbolTexts {
    pub name: Seq<char>,
    pub detail: Option<Seq<char>>,
    pub container: Option<Seq<char>>,
}

pub open spec fn symbol_texts(
    name: Seq<char>,
    detail: Option<Seq<char>>,
    container: Option<Seq<char>>,
) -> Result<SymbolTexts, SymbolError> {
    match token_text(name, MAX_SYMBOL_STRING_BYTES as int) {
        Err(error) => Err(SymbolError::Token(error)),
        Ok(words) => if trimmed(words).len() == 0 {
            Err(SymbolError::EmptyName)
        } else {
            match part_text(detail) {
                Err(error) => Err(SymbolError::Token(error)),
                Ok(detail) => match part_text(container) {
                    Err(error) => Err(SymbolError::Token(error)),
                    Ok(container) => Ok(
                        SymbolTexts { name: trimmed(words), detail, container },
                    ),
                },
            }
        },
    }
}

/// What the tokens of a symbol cost together with the symbol.
pub open spec fn symbol_charge(
    name: Seq<char>,
    detail: Option<Seq<char>>,
    container: Option<Seq<char>>,
) -> Option<int> {
    match (
        token_charge(name, MAX_SYMBOL_STRING_BYTES as int),
        part_charge(detail),
        part_charge(container),
    ) {
        (Some(name), Some(detail), Some(container)) => Some(
            name + detail + container + SYMBOL_CHARGE,
        ),
        _ => None,
    }
}

/// What is said of a symbol before its texts are read.
pub struct SymbolPlace {
    pub kind: ProtocolSymbolKind,
    pub range: SourceRange,
    pub selection_range: SourceRange,
    pub parent: Option<int>,
    pub uri_charge: int,
}

/// One more symbol. `total` is what is charged already.
pub open spec fn with_symbol(
    reading: SymbolReading,
    total: int,
    name: Seq<char>,
    detail: Option<Seq<char>>,
    container: Option<Seq<char>>,
    place: SymbolPlace,
    room: int,
) -> Result<SymbolReading, SymbolError> {
    if reading.symbols.len() >= MAX_SYMBOL_RESULTS {
        Err(SymbolError::TooMany)
    } else {
        match symbol_charge(name, detail, container) {
            None => Err(SymbolError::Token(TokenError::TokenTooLarge)),
            Some(charge) => match charged(total, charge, room) {
                Err(error) => Err(error),
                Ok(after) => match symbol_texts(name, detail, container) {
                    Err(error) => Err(error),
                    Ok(texts) => {
                        let bytes = reading.string_bytes + encode_utf8(texts.name).len()
                            + part_bytes(texts.detail) + part_bytes(texts.container);
                        if bytes > MAX_SYMBOL_TEXT_BYTES {
                            Err(SymbolError::TextTooLarge)
                        } else {
                            Ok(
                                SymbolReading {
                                    variant: reading.variant,
                                    string_bytes: bytes,
                                    total_bytes: after,
                                    path: reading.path,
                                    symbols: reading.symbols.push(
                                        DocumentSymbolRecord {
                                            name: texts.name,
                                            detail: texts.detail,
                                            container: texts.container,
                                            kind: place.kind,
                                            range: place.range,
                                            selection_range: place.selection_range,
                                            parent: place.parent,
                                            charge,
                                            uri_charge: place.uri_charge,
                                        },
                                    ),
                                },
                            )
                        }
                    },
                },
            },
        }
    }
}

/// The variant of the symbols after one more.
pub open spec fn with_variant(reading: SymbolReading, variant: SymbolVariant) -> Result<
    SymbolReading,
    SymbolError,
> {
    if reading.variant is Some && reading.variant != Some(variant) {
        Err(SymbolError::MixedVariants)
    } else {
        Ok(SymbolReading { variant: Some(variant), ..reading })
    }
}

/// One more symbol with a range of its own. It belongs to the last symbol of the
/// depth above it.
pub open spec fn with_nested(
    reading: SymbolReading,
    depth: int,
    name: Seq<char>,
    detail: Option<Seq<char>>,
    kind: int,
    range: Range,
    selection_range: Range,
    lines: Seq<Seq<char>>,
    room: int,
) -> Result<SymbolReading, SymbolError> {
    if depth > MAX_NESTED_DEPTH {
        Err(SymbolError::TooDeep)
    } else if depth < 1 || depth > reading.path.len() + 1 {
        Err(SymbolError::Shape)
    } else {
        match source_range_of(lines, range) {
            Err(error) => Err(SymbolError::Position(error)),
            Ok(whole) => match source_range_of(lines, selection_range) {
                Err(error) => Err(SymbolError::Position(error)),
                Ok(selected) => if !selected.within(whole) {
                    Err(SymbolError::SelectionOutside)
                } else {
                    let parent = if depth == 1 {
                        None
                    } else {
                        Some(reading.path[depth - 2])
                    };
                    let place = SymbolPlace {
                        kind: kind_of(kind),
                        range: whole,
                        selection_range: selected,
                        parent,
                        uri_charge: 0,
                    };
                    match with_symbol(
                        reading,
                        reading.total_bytes,
                        name,
                        detail,
                        None,
                        place,
                        room,
                    ) {
                        Err(error) => Err(error),
                        Ok(after) => Ok(
                            SymbolReading {
                                path: reading.path.subrange(0, depth - 1).push(
                                    reading.symbols.len() as int,
                                ),
                                ..after
                            },
                        ),
                    }
                },
            },
        }
    }
}

/// One more symbol at a location, which must be in the document.
pub open spec fn with_flat(
    reading: SymbolReading,
    name: Seq<char>,
    kind: int,
    uri: Seq<char>,
    target: Option<Seq<u8>>,
    range: Range,
    container: Option<Seq<char>>,
    path: FilePath,
    lines: Seq<Seq<char>>,
    room: int,
) -> Result<SymbolReading, SymbolError> {
    let uri_charge = encode_utf8(uri).len() as int;
    if !starts_with_mark(uri, 34) || uri_charge > MAX_RESULT_URI_BYTES {
        Err(SymbolError::UriTooLong)
    } else {
        match charged(reading.total_bytes, uri_charge, room) {
            Err(error) => Err(error),
            Ok(total) => if token_uri(uri) is None {
                Err(SymbolError::InvalidUri)
            } else {
                match target {
                    None => Err(SymbolError::UnsafeTarget),
                    Some(file) => if !same_path(path.style, file, path.bytes) {
                        Err(SymbolError::OtherDocument)
                    } else {
                        match source_range_of(lines, range) {
                            Err(error) => Err(SymbolError::Position(error)),
                            Ok(whole) => with_symbol(
                                reading,
                                total,
                                name,
                                None,
                                container,
                                SymbolPlace {
                                    kind: kind_of(kind),
                                    range: whole,
                                    selection_range: whole,
                                    parent: None,
                                    uri_charge,
                                },
                                room,
                            ),
                        }
                    },
                }
            },
        }
    }
}

/// Why a symbol that could not be read is refused. Its kind counts before its parts.
pub open spec fn unread_error(reading: SymbolReading, unread: UnreadSymbol) -> SymbolError {
    match unread {
        UnreadSymbol::Item => SymbolError::UnreadItem,
        UnreadSymbol::Nested => match with_variant(reading, SymbolVariant::Nested) {
            Err(error) => error,
            Ok(_) => SymbolError::UnreadNested,
        },
        UnreadSymbol::Flat => match with_variant(reading, SymbolVariant::Flat) {
            Err(error) => error,
            Ok(_) => SymbolError::UnreadFlat,
        },
        UnreadSymbol::Children => SymbolError::UnreadChildren,
    }
}

pub open spec fn target_bytes(target: Result<Vec<u8>, String>) -> Option<Seq<u8>> {
    match target {
        Ok(file) => Some(file@),
        Err(_) => None,
    }
}

/// One more item.
#[verifier::opaque]
pub open spec fn with_symbol_item(
    reading: SymbolReading,
    item: SymbolItem,
    path: FilePath,
    lines: Seq<Seq<char>>,
    room: int,
) -> Result<SymbolReading, SymbolError> {
    match item.body {
        SymbolBody::Mixed => Err(SymbolError::Shape),
        SymbolBody::Unread(unread) => Err(unread_error(reading, unread)),
        SymbolBody::Nested { name, detail, kind, range, selection_range } => match with_variant(
            reading,
            SymbolVariant::Nested,
        ) {
            Err(error) => Err(error),
            Ok(reading) => with_nested(
                reading,
                item.depth as int,
                name@,
                words_of(detail),
                kind as int,
                range,
                selection_range,
                lines,
                room,
            ),
        },
        SymbolBody::Flat { name, kind, uri, target, range, container } => match with_variant(
            reading,
            SymbolVariant::Flat,
        ) {
            Err(error) => Err(error),
            Ok(reading) => if item.depth != 1 {
                Err(SymbolError::Shape)
            } else {
                with_flat(
                    reading,
                    name@,
                    kind as int,
                    uri@,
                    target_bytes(target),
                    range,
                    words_of(container),
                    path,
                    lines,
                    room,
                )
            },
        },
    }
}

/// The first `count` items read one after the other.
pub open spec fn read_symbols(
    items: Seq<SymbolItem>,
    count: int,
    path: FilePath,
    lines: Seq<Seq<char>>,
    room: int,
) -> Result<SymbolReading, SymbolFault>
    decreases count,
{
    if count <= 0 {
        Ok(no_symbols())
    } else {
        match read_symbols(items, count - 1, path, lines, room) {
            Err(fault) => Err(fault),
            Ok(reading) => match with_symbol_item(reading, items[count - 1], path, lines, room) {
                Err(error) => Err(SymbolFault { error, at: (count - 1) as usize }),
                Ok(after) => Ok(after),
            },
        }
    }
}

proof fn lemma_symbols_fail(
    items: Seq<SymbolItem>,
    count: int,
    total: int,
    path: FilePath,
    lines: Seq<Seq<char>>,
    room: int,
)
    requires
        count <= total,
        read_symbols(items, count, path, lines, room) is Err,
    ensures
        read_symbols(items, total, path, lines, room) == read_symbols(
            items,
            count,
            path,
            lines,
            room,
        ),
    decreases total - count,
{
    if count < total {
        lemma_symbols_fail(items, count, total - 1, path, lines, room);
    }
}

proof fn lemma_a_symbol_each(
    items: Seq<SymbolItem>,
    count: int,
    path: FilePath,
    lines: Seq<Seq<char>>,
    room: int,
)
    requires
        0 <= count,
    ensures
        read_symbols(items, count, path, lines, room) matches Ok(reading)
            ==> reading.symbols.len() == count,
    decreases count,
{
    reveal(with_symbol_item);
    if count > 0 {
        lemma_a_symbol_each(items, count - 1, path, lines, room);
    }
}

/// An item that is over a limit is refused, and nothing behind it counts: a reader that
/// stops there gives the same result.
pub proof fn law_nothing_counts_behind_a_limit(
    items: Seq<SymbolItem>,
    count: int,
    path: FilePath,
    lines: Seq<Seq<char>>,
    room: int,
)
    requires
        0 < count <= items.len(),
        count > MAX_SYMBOL_RESULTS || items[count - 1].depth > MAX_NESTED_DEPTH,
    ensures
        read_symbols(items, items.len() as int, path, lines, room) is Err,
        read_symbols(items, items.len() as int, path, lines, room) == read_symbols(
            items.subrange(0, count),
            count,
            path,
            lines,
            room,
        ),
{
    reveal(with_symbol_item);
    lemma_a_symbol_each(items, count - 1, path, lines, room);
    lemma_symbols_fail(items, count, items.len() as int, path, lines, room);
    lemma_front_reads_alike(items, count, count, path, lines, room);
}

proof fn lemma_front_reads_alike(
    items: Seq<SymbolItem>,
    cut: int,
    count: int,
    path: FilePath,
    lines: Seq<Seq<char>>,
    room: int,
)
    requires
        0 <= count <= cut <= items.len(),
    ensures
        read_symbols(items, count, path, lines, room) == read_symbols(
            items.subrange(0, cut),
            count,
            path,
            lines,
            room,
        ),
    decreases count,
{
    if count > 0 {
        lemma_front_reads_alike(items, cut, count - 1, path, lines, room);
    }
}

/// What holds of every reading.
pub open spec fn is_reading(reading: SymbolReading) -> bool {
    &&& 0 <= reading.string_bytes <= MAX_SYMBOL_TEXT_BYTES
    &&& 0 <= reading.total_bytes <= MAX_NORMALIZED_RESULT_BYTES
    &&& reading.total_bytes == symbols_charge(reading.symbols)
    &&& reading.symbols.len() <= MAX_SYMBOL_RESULTS
    &&& reading.path.len() <= MAX_NESTED_DEPTH
    &&& forall|i: int|
        0 <= i < reading.path.len() ==> 0 <= #[trigger] reading.path[i] < reading.symbols.len()
    &&& forall|i: int|
        0 <= i < reading.symbols.len() ==> is_placed((#[trigger] reading.symbols[i]), i)
}

/// A symbol stands behind its parent, and what it selects lies in its range.
pub open spec fn is_placed(symbol: DocumentSymbolRecord, index: int) -> bool {
    &&& symbol.parent matches Some(parent) ==> 0 <= parent < index
    &&& symbol.selection_range.within(symbol.range)
    &&& symbol.name.len() > 0
    &&& symbol.charge >= 0
    &&& symbol.uri_charge >= 0
}

proof fn lemma_with_symbol(
    reading: SymbolReading,
    total: int,
    name: Seq<char>,
    detail: Option<Seq<char>>,
    container: Option<Seq<char>>,
    place: SymbolPlace,
    room: int,
)
    requires
        is_reading(reading),
        total == reading.total_bytes + place.uri_charge,
        place.uri_charge >= 0,
        place.selection_range.within(place.range),
        place.parent matches Some(parent) ==> 0 <= parent < reading.symbols.len(),
    ensures
        with_symbol(reading, total, name, detail, container, place, room) matches Ok(after)
            ==> is_reading(after) && after.path == reading.path && after.symbols.len()
            == reading.symbols.len() + 1,
{
    if let Ok(after) = with_symbol(reading, total, name, detail, container, place, room) {
        assert(after.symbols.drop_last() =~= reading.symbols);
        assert forall|i: int| 0 <= i < after.symbols.len() implies is_placed(
            (#[trigger] after.symbols[i]),
            i,
        ) by {
            if i < reading.symbols.len() {
                assert(after.symbols[i] == reading.symbols[i]);
            }
        }
        assert forall|i: int| 0 <= i < after.path.len() implies 0 <= #[trigger] after.path[i]
            < after.symbols.len() by {
            assert(reading.path[i] < reading.symbols.len());
        }
    }
}

proof fn lemma_with_item(
    reading: SymbolReading,
    item: SymbolItem,
    path: FilePath,
    lines: Seq<Seq<char>>,
    room: int,
)
    requires
        is_reading(reading),
    ensures
        with_symbol_item(reading, item, path, lines, room) matches Ok(after) ==> is_reading(after),
{
    reveal(with_symbol_item);
    match item.body {
        SymbolBody::Mixed => {},
        SymbolBody::Unread(_) => {},
        SymbolBody::Nested { name, detail, kind, range, selection_range } => {
            if let Ok(own) = with_variant(reading, SymbolVariant::Nested) {
                assert(is_reading(own));
                let depth = item.depth as int;
                if depth <= MAX_NESTED_DEPTH && 1 <= depth <= own.path.len() + 1 {
                    if let Ok(whole) = source_range_of(lines, range) {
                        if let Ok(selected) = source_range_of(lines, selection_range) {
                            if selected.within(whole) {
                                let parent = if depth == 1 {
                                    None
                                } else {
                                    Some(own.path[depth - 2])
                                };
                                let place = SymbolPlace {
                                    kind: kind_of(kind as int),
                                    range: whole,
                                    selection_range: selected,
                                    parent,
                                    uri_charge: 0,
                                };
                                lemma_with_symbol(
                                    own,
                                    own.total_bytes,
                                    name@,
                                    words_of(detail),
                                    None,
                                    place,
                                    room,
                                );
                            }
                        }
                    }
                }
            }
        },
        SymbolBody::Flat { name, kind, uri, target, range, container } => {
            if let Ok(own) = with_variant(reading, SymbolVariant::Flat) {
                assert(is_reading(own));
                let uri_charge = encode_utf8(uri@).len() as int;
                if let Ok(whole) = source_range_of(lines, range) {
                    lemma_range_in_itself(whole);
                    lemma_with_symbol(
                        own,
                        own.total_bytes + uri_charge,
                        name@,
                        None,
                        words_of(container),
                        SymbolPlace {
                            kind: kind_of(kind as int),
                            range: whole,
                            selection_range: whole,
                            parent: None,
                            uri_charge,
                        },
                        room,
                    );
                }
            }
        },
    }
}

proof fn lemma_range_in_itself(range: SourceRange)
    ensures
        range.within(range),
{
}

/// Symbols stand behind their parents, select a part of their range, have a name
/// and stay within the limits, whatever the server wrote.
pub proof fn law_symbols_stand_behind_their_parents(
    items: Seq<SymbolItem>,
    count: int,
    path: FilePath,
    lines: Seq<Seq<char>>,
    room: int,
)
    ensures
        read_symbols(items, count, path, lines, room) matches Ok(reading) ==> is_reading(reading),
    decreases count,
{
    if count > 0 {
        law_symbols_stand_behind_their_parents(items, count - 1, path, lines, room);
        if let Ok(reading) = read_symbols(items, count - 1, path, lines, room) {
            lemma_with_item(reading, items[count - 1], path, lines, room);
        }
    }
}

// Reading ---------------------------------------------------------------------------------

/// Symbols while they are read.
struct SymbolBuild {
    output: Vec<ProtocolDocumentSymbol>,
    variant: Option<SymbolVariant>,
    string_bytes: usize,
    total_bytes: usize,
    path: Vec<usize>,
}

spec fn as_places(path: Seq<usize>) -> Seq<int> {
    Seq::new(path.len(), |i: int| path[i] as int)
}

/// What a symbol is before its texts are read.
struct PlaceFacts {
    kind: ProtocolSymbolKind,
    range: SourceRange,
    selection_range: SourceRange,
    parent: Option<usize>,
}

fn charge_of(raw: &Option<String>) -> (charge: Option<usize>)
    ensures
        match part_charge(words_of(*raw)) {
            None => charge is None,
            Some(expected) => charge == Some(expected as usize) && 0 <= expected
                <= crate::protocol::longest_token(MAX_SYMBOL_STRING_BYTES as int),
        },
{
    match raw {
        None => Some(0),
        Some(raw) => bounded_raw_string_charge(raw.as_str(), MAX_SYMBOL_STRING_BYTES),
    }
}

fn text_of(raw: &Option<String>) -> (result: Result<Option<String>, TokenError>)
    ensures
        match part_text(words_of(*raw)) {
            Ok(words) => result matches Ok(found) && words_of(found) == words,
            Err(error) => result == Err::<Option<String>, _>(error),
        },
{
    match raw {
        None => Ok(None),
        Some(raw) => match decode_bounded_owned_string(raw.as_str(), MAX_SYMBOL_STRING_BYTES) {
            Ok(value) => Ok(Some(value)),
            Err(error) => Err(error),
        },
    }
}

fn length_of(words: &Option<String>) -> (length: usize)
    ensures
        length == part_bytes(words_of(*words)),
{
    match words {
        Some(words) => words.as_str().as_bytes().len(),
        None => 0,
    }
}

/// The texts of a symbol.
struct Texts {
    name: String,
    detail: Option<String>,
    container: Option<String>,
}

fn read_texts(name: &String, detail: &Option<String>, container: &Option<String>) -> (result:
    Result<Texts, SymbolError>)
    ensures
        match symbol_texts(name@, words_of(*detail), words_of(*container)) {
            Ok(texts) => {
                &&& result matches Ok(found)
                &&& found.name@ == texts.name
                &&& words_of(found.detail) == texts.detail
                &&& words_of(found.container) == texts.container
                &&& part_bytes(texts.detail) <= MAX_SYMBOL_STRING_BYTES
                &&& part_bytes(texts.container) <= MAX_SYMBOL_STRING_BYTES
                &&& encode_utf8(texts.name).len() <= usize::MAX
            },
            Err(error) => result == Err::<Texts, _>(error),
        },
{
    let words = match decode_bounded_owned_string(name.as_str(), MAX_SYMBOL_STRING_BYTES) {
        Err(error) => {
            return Err(SymbolError::Token(error));
        },
        Ok(words) => words,
    };
    let name = trim_text(words.as_str());
    if name.as_str().as_bytes().len() == 0 {
        proof {
            vstd::utf8::encode_utf8_decode_utf8(name@);
            lemma_no_bytes(name@);
        }
        return Err(SymbolError::EmptyName);
    }
    proof {
        lemma_some_bytes(name@);
    }
    let detail = match text_of(detail) {
        Err(error) => {
            return Err(SymbolError::Token(error));
        },
        Ok(detail) => detail,
    };
    let container = match text_of(container) {
        Err(error) => {
            return Err(SymbolError::Token(error));
        },
        Ok(container) => container,
    };
    Ok(Texts { name, detail, container })
}

proof fn lemma_no_bytes(words: Seq<char>)
    requires
        encode_utf8(words).len() == 0,
    ensures
        words.len() == 0,
{
    if words.len() > 0 {
        crate::positions::lemma_bytes_ascend(words, 0, words.len() as int);
        assert(words.subrange(0, words.len() as int) =~= words);
    }
}

proof fn lemma_some_bytes(words: Seq<char>)
    requires
        encode_utf8(words).len() > 0,
    ensures
        words.len() > 0,
{
    if words.len() == 0 {
        assert(words =~= Seq::<char>::empty());
    }
}

impl SymbolBuild {
    spec fn reading(&self) -> SymbolReading {
        SymbolReading {
            variant: self.variant,
            string_bytes: self.string_bytes as int,
            total_bytes: self.total_bytes as int,
            path: as_places(self.path@),
            symbols: document_symbols(self.output@),
        }
    }

    fn push_symbol(
        &mut self,
        name: &String,
        detail: &Option<String>,
        container: &Option<String>,
        facts: PlaceFacts,
        uri_permit: Option<PayloadPermit>,
        budget: &mut PayloadBudget,
        global: &mut GlobalPayloadBudget,
        Ghost(room): Ghost<int>,
    ) -> (result: Result<(), SymbolError>)
        requires
            is_reading(old(self).reading()),
            old(budget).well_formed(),
            old(global).well_formed(),
            ({
                let uri_charge = match uri_permit {
                    Some(permit) => permit.bytes as int,
                    None => 0,
                };
                &&& uri_charge <= MAX_RESULT_URI_BYTES
                &&& room == old(budget).room(old(global)) + old(self).total_bytes + uri_charge
                &&& old(budget).session.used >= uri_charge
                &&& old(global).pool.used >= uri_charge
            }),
        ensures
            final(budget).well_formed(),
            final(global).well_formed(),
            ({
                let uri_charge = match uri_permit {
                    Some(permit) => permit.bytes as int,
                    None => 0,
                };
                match with_symbol(
                    old(self).reading(),
                    old(self).total_bytes + uri_charge,
                    name@,
                    words_of(*detail),
                    words_of(*container),
                    SymbolPlace {
                        kind: facts.kind,
                        range: facts.range,
                        selection_range: facts.selection_range,
                        parent: match facts.parent {
                            Some(parent) => Some(parent as int),
                            None => None,
                        },
                        uri_charge,
                    },
                    room,
                ) {
                    Ok(after) => {
                        &&& result is Ok
                        &&& final(self).reading() == after
                        &&& final(budget).session.used == old(budget).session.used
                            + final(self).total_bytes - old(self).total_bytes - uri_charge
                        &&& final(global).pool.used == old(global).pool.used
                            + final(self).total_bytes - old(self).total_bytes - uri_charge
                    },
                    Err(error) => {
                        &&& result == Err::<(), _>(error)
                        &&& *final(self) == *old(self)
                        &&& final(budget).session.used == old(budget).session.used - uri_charge
                        &&& final(global).pool.used == old(global).pool.used - uri_charge
                    },
                }
            }),
    {
        let uri_charge: usize = match &uri_permit {
            Some(permit) => permit.bytes,
            None => 0,
        };
        if self.output.len() >= MAX_SYMBOL_RESULTS {
            give_back(uri_permit, budget, global);
            return Err(SymbolError::TooMany);
        }
        let charge: usize = match (
            bounded_raw_string_charge(name.as_str(), MAX_SYMBOL_STRING_BYTES),
            charge_of(detail),
            charge_of(container),
        ) {
            (Some(name), Some(detail), Some(container)) => name + detail + container
                + SYMBOL_CHARGE,
            _ => {
                give_back(uri_permit, budget, global);
                return Err(SymbolError::Token(TokenError::TokenTooLarge));
            },
        };
        let total: usize = self.total_bytes + uri_charge + charge;
        if total > MAX_NORMALIZED_RESULT_BYTES {
            give_back(uri_permit, budget, global);
            return Err(SymbolError::ResultTooLarge);
        }
        let permit = match budget.reserve(global, charge) {
            Err(error) => {
                give_back(uri_permit, budget, global);
                return Err(SymbolError::Payload(error));
            },
            Ok(permit) => permit,
        };
        let texts = match read_texts(name, detail, container) {
            Err(error) => {
                budget.release(global, permit);
                give_back(uri_permit, budget, global);
                return Err(error);
            },
            Ok(texts) => texts,
        };
        let own: usize = texts.name.as_str().as_bytes().len();
        let more: usize = length_of(&texts.detail) + length_of(&texts.container);
        if own > MAX_SYMBOL_TEXT_BYTES || self.string_bytes + own + more > MAX_SYMBOL_TEXT_BYTES {
            budget.release(global, permit);
            give_back(uri_permit, budget, global);
            return Err(SymbolError::TextTooLarge);
        }
        self.string_bytes = self.string_bytes + own + more;
        self.total_bytes = total;
        let ghost before = self.output@;
        let symbol = ProtocolDocumentSymbol {
            name: texts.name,
            detail: texts.detail,
            container: texts.container,
            kind: facts.kind,
            range: facts.range,
            selection_range: facts.selection_range,
            parent: facts.parent,
            permit,
            uri_permit,
        };
        let ghost said = symbol@;
        self.output.push(symbol);
        assert(document_symbols(self.output@) =~= document_symbols(before).push(said));
        Ok(())
    }

    fn push_nested(
        &mut self,
        depth: usize,
        name: &String,
        detail: &Option<String>,
        kind: i32,
        range: Range,
        selection_range: Range,
        source: &NavigationSource,
        budget: &mut PayloadBudget,
        global: &mut GlobalPayloadBudget,
        Ghost(room): Ghost<int>,
    ) -> (result: Result<(), SymbolError>)
        requires
            is_reading(old(self).reading()),
            source.well_formed(),
            old(budget).well_formed(),
            old(global).well_formed(),
            room == old(budget).room(old(global)) + old(self).total_bytes,
        ensures
            final(budget).well_formed(),
            final(global).well_formed(),
            match with_nested(
                old(self).reading(),
                depth as int,
                name@,
                words_of(*detail),
                kind as int,
                range,
                selection_range,
                source.line_index@,
                room,
            ) {
                Ok(after) => {
                    &&& result is Ok
                    &&& final(self).reading() == after
                    &&& final(budget).session.used == old(budget).session.used
                        + final(self).total_bytes - old(self).total_bytes
                    &&& final(global).pool.used == old(global).pool.used + final(self).total_bytes
                        - old(self).total_bytes
                },
                Err(error) => {
                    &&& result == Err::<(), _>(error)
                    &&& final(self).output@ == old(self).output@
                    &&& *final(budget) == *old(budget)
                    &&& *final(global) == *old(global)
                },
            },
    {
        if depth > MAX_NESTED_DEPTH {
            return Err(SymbolError::TooDeep);
        }
        if depth < 1 || depth > self.path.len() + 1 {
            return Err(SymbolError::Shape);
        }
        let whole = match source.line_index.range_from_utf16(range) {
            Err(error) => {
                return Err(SymbolError::Position(error));
            },
            Ok(whole) => whole,
        };
        let selected = match source.line_index.range_from_utf16(selection_range) {
            Err(error) => {
                return Err(SymbolError::Position(error));
            },
            Ok(selected) => selected,
        };
        if !selected.lies_within(whole) {
            return Err(SymbolError::SelectionOutside);
        }
        let ghost path = self.path@;
        let parent: Option<usize> = if depth == 1 {
            None
        } else {
            Some(self.path[depth - 2])
        };
        let index: usize = self.output.len();
        let facts = PlaceFacts {
            kind: normalize_symbol_kind(kind),
            range: whole,
            selection_range: selected,
            parent,
        };
        let container: Option<String> = None;
        match self.push_symbol(
            name,
            detail,
            &container,
            facts,
            None,
            budget,
            global,
            Ghost(room),
        ) {
            Err(error) => Err(error),
            Ok(()) => {
                proof {
                    assert(as_places(self.path@) == as_places(path));
                    assert(self.path@.len() == as_places(self.path@).len());
                }
                self.path.truncate(depth - 1);
                self.path.push(index);
                assert(as_places(self.path@) =~= as_places(path).subrange(0, depth - 1).push(
                    index as int,
                ));
                Ok(())
            },
        }
    }

    fn push_flat(
        &mut self,
        name: &String,
        kind: i32,
        uri: &String,
        target: &Result<Vec<u8>, String>,
        range: Range,
        container: &Option<String>,
        source: &NavigationSource,
        budget: &mut PayloadBudget,
        global: &mut GlobalPayloadBudget,
        Ghost(room): Ghost<int>,
    ) -> (result: Result<(), SymbolError>)
        requires
            is_reading(old(self).reading()),
            source.well_formed(),
            old(budget).well_formed(),
            old(global).well_formed(),
            room == old(budget).room(old(global)) + old(self).total_bytes,
        ensures
            final(budget).well_formed(),
            final(global).well_formed(),
            match with_flat(
                old(self).reading(),
                name@,
                kind as int,
                uri@,
                target_bytes(*target),
                range,
                words_of(*container),
                source_path(*source),
                source.line_index@,
                room,
            ) {
                Ok(after) => {
                    &&& result is Ok
                    &&& final(self).reading() == after
                    &&& final(budget).session.used == old(budget).session.used
                        + final(self).total_bytes - old(self).total_bytes
                    &&& final(global).pool.used == old(global).pool.used + final(self).total_bytes
                        - old(self).total_bytes
                },
                Err(error) => {
                    &&& result == Err::<(), _>(error)
                    &&& final(self).output@ == old(self).output@
                    &&& *final(budget) == *old(budget)
                    &&& *final(global) == *old(global)
                },
            },
    {
        let uri_charge: usize = uri.as_str().as_bytes().len();
        if !raw_starts_with(uri.as_str(), 34) || uri_charge > MAX_RESULT_URI_BYTES {
            return Err(SymbolError::UriTooLong);
        }
        if self.total_bytes + uri_charge > MAX_NORMALIZED_RESULT_BYTES {
            return Err(SymbolError::ResultTooLarge);
        }
        let permit = match budget.reserve(global, uri_charge) {
            Err(error) => {
                return Err(SymbolError::Payload(error));
            },
            Ok(permit) => permit,
        };
        if decode_uri(uri.as_str()).is_none() {
            budget.release(global, permit);
            return Err(SymbolError::InvalidUri);
        }
        match target {
            Err(_) => {
                budget.release(global, permit);
                return Err(SymbolError::UnsafeTarget);
            },
            Ok(file) => {
                if !paths_equal(
                    source.style,
                    file.as_slice(),
                    source.absolute_path.as_slice(),
                ) {
                    budget.release(global, permit);
                    return Err(SymbolError::OtherDocument);
                }
            },
        }
        let whole = match source.line_index.range_from_utf16(range) {
            Err(error) => {
                budget.release(global, permit);
                return Err(SymbolError::Position(error));
            },
            Ok(whole) => whole,
        };
        let facts = PlaceFacts {
            kind: normalize_symbol_kind(kind),
            range: whole,
            selection_range: whole,
            parent: None,
        };
        let detail: Option<String> = None;
        self.push_symbol(
            name,
            &detail,
            container,
            facts,
            Some(permit),
            budget,
            global,
            Ghost(room),
        )
    }

    fn unread(&self, unread: UnreadSymbol) -> (error: SymbolError)
        ensures
            error == unread_error(self.reading(), unread),
    {
        match (unread, self.variant) {
            (UnreadSymbol::Item, _) => SymbolError::UnreadItem,
            (UnreadSymbol::Children, _) => SymbolError::UnreadChildren,
            (UnreadSymbol::Nested, Some(SymbolVariant::Flat)) => SymbolError::MixedVariants,
            (UnreadSymbol::Nested, _) => SymbolError::UnreadNested,
            (UnreadSymbol::Flat, Some(SymbolVariant::Nested)) => SymbolError::MixedVariants,
            (UnreadSymbol::Flat, _) => SymbolError::UnreadFlat,
        }
    }

    fn push_item(
        &mut self,
        item: &SymbolItem,
        source: &NavigationSource,
        budget: &mut PayloadBudget,
        global: &mut GlobalPayloadBudget,
        Ghost(room): Ghost<int>,
    ) -> (result: Result<(), SymbolError>)
        requires
            is_reading(old(self).reading()),
            source.well_formed(),
            old(budget).well_formed(),
            old(global).well_formed(),
            room == old(budget).room(old(global)) + old(self).total_bytes,
        ensures
            final(budget).well_formed(),
            final(global).well_formed(),
            match with_symbol_item(
                old(self).reading(),
                *item,
                source_path(*source),
                source.line_index@,
                room,
            ) {
                Ok(after) => {
                    &&& result is Ok
                    &&& final(self).reading() == after
                    &&& final(budget).session.used == old(budget).session.used
                        + final(self).total_bytes - old(self).total_bytes
                    &&& final(global).pool.used == old(global).pool.used + final(self).total_bytes
                        - old(self).total_bytes
                },
                Err(error) => {
                    &&& result == Err::<(), _>(error)
                    &&& final(self).output@ == old(self).output@
                    &&& *final(budget) == *old(budget)
                    &&& *final(global) == *old(global)
                },
            },
    {
        proof {
            reveal(with_symbol_item);
        }
        let variant = match &item.body {
            SymbolBody::Mixed => {
                return Err(SymbolError::Shape);
            },
            SymbolBody::Unread(unread) => {
                return Err(self.unread(*unread));
            },
            SymbolBody::Nested { .. } => SymbolVariant::Nested,
            SymbolBody::Flat { .. } => SymbolVariant::Flat,
        };
        if let Some(current) = self.variant {
            if current != variant {
                return Err(SymbolError::MixedVariants);
            }
        }
        self.variant = Some(variant);
        match &item.body {
            SymbolBody::Mixed => Err(SymbolError::Shape),
            SymbolBody::Unread(unread) => Err(self.unread(*unread)),
            SymbolBody::Nested { name, detail, kind, range, selection_range } => self.push_nested(
                item.depth,
                name,
                detail,
                *kind,
                *range,
                *selection_range,
                source,
                budget,
                global,
                Ghost(room),
            ),
            SymbolBody::Flat { name, kind, uri, target, range, container } => {
                if item.depth != 1 {
                    return Err(SymbolError::Shape);
                }
                self.push_flat(
                    name,
                    *kind,
                    uri,
                    target,
                    *range,
                    container,
                    source,
                    budget,
                    global,
                    Ghost(room),
                )
            },
        }
    }
}

fn give_back(
    permit: Option<PayloadPermit>,
    budget: &mut PayloadBudget,
    global: &mut GlobalPayloadBudget,
)
    requires
        old(budget).well_formed(),
        old(global).well_formed(),
        permit matches Some(held) ==> old(budget).session.used >= held.bytes && old(
            global,
        ).pool.used >= held.bytes,
    ensures
        final(budget).well_formed(),
        final(global).well_formed(),
        ({
            let bytes = match permit {
                Some(held) => held.bytes as int,
                None => 0,
            };
            final(budget).session.used == old(budget).session.used - bytes
                && final(global).pool.used == old(global).pool.used - bytes
        }),
{
    if let Some(held) = permit {
        budget.release(global, held);
    }
}

/// Hands the permits of symbols back.
pub fn release_symbols(
    symbols: Vec<ProtocolDocumentSymbol>,
    budget: &mut PayloadBudget,
    global: &mut GlobalPayloadBudget,
)
    requires
        old(budget).well_formed(),
        old(global).well_formed(),
        old(budget).session.used >= symbols_charge(document_symbols(symbols@)),
        old(global).pool.used >= symbols_charge(document_symbols(symbols@)),
    ensures
        final(budget).well_formed(),
        final(global).well_formed(),
        final(budget).session.used == old(budget).session.used - symbols_charge(
            document_symbols(symbols@),
        ),
        final(global).pool.used == old(global).pool.used - symbols_charge(
            document_symbols(symbols@),
        ),
{
    let mut symbols = symbols;
    let ghost all = symbols_charge(document_symbols(symbols@));
    let ghost own = budget.session.used;
    let ghost shared = global.pool.used;
    proof {
        lemma_symbols_count(symbols@);
    }
    while symbols.len() > 0
        invariant
            budget.well_formed(),
            global.well_formed(),
            own >= all,
            shared >= all,
            symbols_charge(document_symbols(symbols@)) >= 0,
            budget.session.used == own - all + symbols_charge(document_symbols(symbols@)),
            global.pool.used == shared - all + symbols_charge(document_symbols(symbols@)),
        decreases symbols@.len(),
    {
        let ghost before = document_symbols(symbols@);
        proof {
            lemma_symbols_count(symbols@.drop_last());
        }
        match symbols.pop() {
            None => {},
            Some(symbol) => {
                proof {
                    assert(document_symbols(symbols@) =~= before.drop_last());
                    assert(before.last() == symbol@);
                }
                budget.release(global, symbol.permit);
                give_back(symbol.uri_permit, budget, global);
            },
        }
    }
}

proof fn lemma_symbols_count(symbols: Seq<ProtocolDocumentSymbol>)
    ensures
        symbols_charge(document_symbols(symbols)) >= 0,
    decreases symbols.len(),
{
    if symbols.len() > 0 {
        lemma_symbols_count(symbols.drop_last());
        assert(document_symbols(symbols).drop_last() =~= document_symbols(symbols.drop_last()));
    }
}

/// The symbols in a result. `items` is what was read out of its token, if it is a list.
pub open spec fn result_symbols(
    raw: Seq<char>,
    items: Option<Seq<SymbolItem>>,
    path: FilePath,
    lines: Seq<Seq<char>>,
    room: int,
) -> Result<Seq<DocumentSymbolRecord>, SymbolFault> {
    if raw == "null"@ {
        Ok(Seq::empty())
    } else {
        match items {
            None => Err(SymbolFault { error: SymbolError::Unread, at: 0 }),
            Some(items) => match read_symbols(items, items.len() as int, path, lines, room) {
                Err(fault) => Err(fault),
                Ok(reading) => Ok(reading.symbols),
            },
        }
    }
}

pub open spec fn listed(items: Result<Vec<SymbolItem>, String>) -> Option<Seq<SymbolItem>> {
    match items {
        Ok(items) => Some(items@),
        Err(_) => None,
    }
}

/// What is said of an item that is refused. A fault below the outermost symbols is one
/// of the children of such a symbol.
pub open spec fn item_fault_text(item: SymbolItem, error: SymbolError) -> Seq<char> {
    if item.depth > 1 {
        SymbolError::UnreadChildren.text() + item.place@
    } else {
        match (error, item.body) {
            (SymbolError::UnsafeTarget, SymbolBody::Flat { target: Err(words), .. }) => words@
                + item.place@,
            _ => error.text() + item.place@,
        }
    }
}

/// What is said of a result that is refused. What a parser said comes last.
pub open spec fn symbol_fault_text(items: Result<Vec<SymbolItem>, String>, fault: SymbolFault) -> Seq<
    char,
> {
    SymbolError::Unread.text() + ": "@ + match items {
        Err(words) => words@,
        Ok(items) => if fault.at < items@.len() {
            item_fault_text(items@[fault.at as int], fault.error)
        } else {
            fault.error.text()
        },
    }
}

/// Says why a result is refused.
pub fn explain_symbols(items: &Result<Vec<SymbolItem>, String>, fault: SymbolFault) -> (words:
    String)
    ensures
        words@ == symbol_fault_text(*items, fault),
{
    let mut words = copy_text(SymbolError::Unread.message());
    words.push_str(": ");
    match items {
        Err(reason) => {
            words.push_str(reason.as_str());
        },
        Ok(list) => {
            if fault.at < list.len() {
                let item = &list[fault.at];
                words.push_str(refusal(item, fault.error));
                words.push_str(item.place.as_str());
            } else {
                words.push_str(fault.error.message());
            }
        },
    }
    assert(words@ =~= symbol_fault_text(*items, fault));
    words
}

fn refusal(item: &SymbolItem, error: SymbolError) -> (words: &str)
    ensures
        words@ + item.place@ == item_fault_text(*item, error),
{
    if item.depth > 1 {
        return SymbolError::UnreadChildren.message();
    }
    if let SymbolError::UnsafeTarget = error {
        if let SymbolBody::Flat { target: Err(words), .. } = &item.body {
            return words.as_str();
        }
    }
    error.message()
}

/// Reads the symbols in a result. If one fails, nothing stays charged.
pub fn parse_document_symbol_result(
    raw: &str,
    items: &Result<Vec<SymbolItem>, String>,
    source: &NavigationSource,
    budget: &mut PayloadBudget,
    global: &mut GlobalPayloadBudget,
) -> (result: Result<Vec<ProtocolDocumentSymbol>, SymbolFault>)
    requires
        source.well_formed(),
        old(budget).well_formed(),
        old(global).well_formed(),
    ensures
        final(budget).well_formed(),
        final(global).well_formed(),
        match result_symbols(
            raw@,
            listed(*items),
            source_path(*source),
            source.line_index@,
            old(budget).room(old(global)),
        ) {
            Ok(symbols) => {
                &&& result matches Ok(found)
                &&& document_symbols(found@) == symbols
                &&& final(budget).session.used == old(budget).session.used + symbols_charge(
                    symbols,
                )
                &&& final(global).pool.used == old(global).pool.used + symbols_charge(symbols)
            },
            Err(fault) => {
                &&& result == Err::<Vec<ProtocolDocumentSymbol>, _>(fault)
                &&& *final(budget) == *old(budget)
                &&& *final(global) == *old(global)
            },
        },
{
    if text_equal(raw, "null") {
        let found: Vec<ProtocolDocumentSymbol> = Vec::new();
        assert(document_symbols(found@) =~= Seq::<DocumentSymbolRecord>::empty());
        return Ok(found);
    }
    let list = match items {
        Err(_) => {
            return Err(SymbolFault { error: SymbolError::Unread, at: 0 });
        },
        Ok(list) => list,
    };
    let ghost room = budget.room(global);
    let ghost own = *budget;
    let ghost shared = *global;
    let ghost path = source_path(*source);
    let ghost lines = source.line_index@;
    let mut build = SymbolBuild {
        output: Vec::new(),
        variant: None,
        string_bytes: 0,
        total_bytes: 0,
        path: Vec::new(),
    };
    let mut index: usize = 0;
    proof {
        assert(document_symbols(build.output@) =~= Seq::<DocumentSymbolRecord>::empty());
        assert(as_places(build.path@) =~= Seq::<int>::empty());
    }
    while index < list.len()
        invariant
            index <= list@.len(),
            raw@ != "null"@,
            listed(*items) == Some(list@),
            source.well_formed(),
            path == source_path(*source),
            lines == source.line_index@,
            budget.well_formed(),
            global.well_formed(),
            own.well_formed(),
            shared.well_formed(),
            own == *old(budget),
            shared == *old(global),
            room == own.room(&shared),
            budget.session.used == own.session.used + build.total_bytes,
            global.pool.used == shared.pool.used + build.total_bytes,
            is_reading(build.reading()),
            read_symbols(list@, index as int, path, lines, room) == Ok::<_, SymbolFault>(
                build.reading(),
            ),
        decreases list@.len() - index,
    {
        let ghost before = build.reading();
        proof {
            lemma_with_item(before, list@[index as int], path, lines, room);
        }
        match build.push_item(&list[index], source, budget, global, Ghost(room)) {
            Err(error) => {
                proof {
                    lemma_symbols_fail(list@, index + 1, list@.len() as int, path, lines, room);
                }
                release_symbols(build.output, budget, global);
                return Err(SymbolFault { error, at: index });
            },
            Ok(()) => {},
        }
        index = index + 1;
    }
    Ok(build.output)
}

/// Symbols are sorted by the numbers of the protocol: a function; methods and constructors;
/// classes, enums, interfaces, structs and type parameters; modules, namespaces and
/// packages. Every other number is of no such kind.
pub proof fn law_symbol_kinds_go_by_number(kind: int)
    ensures
        kind_of(kind) is Function <==> kind == 12,
        kind_of(kind) is Method <==> kind == 6 || kind == 9,
        kind_of(kind) is Type <==> seq![5int, 10, 11, 23, 26].contains(kind),
        kind_of(kind) is Module <==> 2 <= kind <= 4,
{
    let types = seq![5int, 10, 11, 23, 26];
    assert(types[0] == 5 && types[1] == 10 && types[2] == 11 && types[3] == 23 && types[4] == 26);
}

// What symbols say ------------------------------------------------------------------------

/// A text that was written as a token, if it was written.
pub open spec fn is_written_as(words: Option<Seq<char>>, token: Option<String>) -> bool {
    match token {
        None => words is None,
        Some(token) => words is Some && crate::protocol::json_string(token@) == Ok::<
            _,
            Seq<char>,
        >(words->0),
    }
}

/// The parent of an item is the last one before it that is one level up.
pub open spec fn is_item_parent(items: Seq<SymbolItem>, at: int, parent: Option<int>) -> bool {
    match parent {
        None => items[at].depth == 1,
        Some(above) => {
            &&& 0 <= above < at
            &&& items[above].depth + 1 == items[at].depth
            &&& forall|m: int| above < m < at ==> (#[trigger] items[m]).depth >= items[at].depth
        },
    }
}

/// What a symbol says of the item that it was read from.
pub open spec fn is_told_by(
    items: Seq<SymbolItem>,
    at: int,
    lines: Seq<Seq<char>>,
    symbol: DocumentSymbolRecord,
) -> bool {
    match items[at].body {
        SymbolBody::Nested { name, detail, kind, range, selection_range } => {
            &&& crate::protocol::json_string(name@) is Ok
            &&& symbol.name == trimmed(crate::protocol::json_string(name@)->Ok_0)
            &&& is_written_as(symbol.detail, detail)
            &&& symbol.container is None
            &&& symbol.kind == kind_of(kind as int)
            &&& source_range_of(lines, range) == Ok::<_, PositionError>(symbol.range)
            &&& source_range_of(lines, selection_range) == Ok::<_, PositionError>(
                symbol.selection_range,
            )
            &&& is_item_parent(items, at, symbol.parent)
        },
        SymbolBody::Flat { name, kind, uri, target, range, container } => {
            &&& crate::protocol::json_string(name@) is Ok
            &&& symbol.name == trimmed(crate::protocol::json_string(name@)->Ok_0)
            &&& symbol.detail is None
            &&& is_written_as(symbol.container, container)
            &&& symbol.kind == kind_of(kind as int)
            &&& source_range_of(lines, range) == Ok::<_, PositionError>(symbol.range)
            &&& symbol.selection_range == symbol.range
            &&& symbol.parent is None
        },
        _ => false,
    }
}

spec fn path_leads(items: Seq<SymbolItem>, count: int, reading: SymbolReading) -> bool {
    &&& reading.variant == Some(SymbolVariant::Nested) || reading.path.len() == 0
    &&& forall|k: int|
        0 <= k < reading.path.len() ==> {
            &&& 0 <= #[trigger] reading.path[k] < count
            &&& items[reading.path[k]].depth == k + 1
            &&& forall|m: int|
                reading.path[k] < m < count ==> (#[trigger] items[m]).depth > k + 1
        }
}

proof fn lemma_item_told(
    items: Seq<SymbolItem>,
    at: int,
    path: FilePath,
    lines: Seq<Seq<char>>,
    room: int,
    reading: SymbolReading,
)
    requires
        0 <= at < items.len(),
        reading.symbols.len() == at,
        path_leads(items, at, reading),
        with_symbol_item(reading, items[at], path, lines, room) is Ok,
    ensures
        ({
            let after = with_symbol_item(reading, items[at], path, lines, room)->Ok_0;
            &&& after.symbols.len() == at + 1
            &&& after.symbols.drop_last() == reading.symbols
            &&& is_told_by(items, at, lines, after.symbols.last())
            &&& path_leads(items, at + 1, after)
        }),
{
    reveal(with_symbol_item);
    let after = with_symbol_item(reading, items[at], path, lines, room)->Ok_0;
    assert(after.symbols.drop_last() =~= reading.symbols);
    match items[at].body {
        SymbolBody::Nested { name, detail, kind, range, selection_range } => {
            let depth = items[at].depth as int;
            if depth > 1 {
                assert(items[reading.path[depth - 2]].depth == depth - 1);
            }
            assert forall|k: int| 0 <= k < after.path.len() implies {
                &&& 0 <= #[trigger] after.path[k] < at + 1
                &&& items[after.path[k]].depth == k + 1
                &&& forall|m: int|
                    after.path[k] < m < at + 1 ==> (#[trigger] items[m]).depth > k + 1
            } by {
                if k < depth - 1 {
                    assert(after.path[k] == reading.path[k]);
                }
            }
        },
        _ => {},
    }
}

proof fn lemma_items_told(
    items: Seq<SymbolItem>,
    count: int,
    path: FilePath,
    lines: Seq<Seq<char>>,
    room: int,
)
    requires
        0 <= count <= items.len(),
        read_symbols(items, count, path, lines, room) is Ok,
    ensures
        ({
            let reading = read_symbols(items, count, path, lines, room)->Ok_0;
            &&& reading.symbols.len() == count
            &&& path_leads(items, count, reading)
            &&& forall|i: int|
                0 <= i < count ==> is_told_by(items, i, lines, #[trigger] reading.symbols[i])
        }),
    decreases count,
{
    if count > 0 {
        lemma_items_told(items, count - 1, path, lines, room);
        let before = read_symbols(items, count - 1, path, lines, room)->Ok_0;
        let after = read_symbols(items, count, path, lines, room)->Ok_0;
        lemma_item_told(items, count - 1, path, lines, room, before);
        assert forall|i: int| 0 <= i < count implies is_told_by(
            items,
            i,
            lines,
            #[trigger] after.symbols[i],
        ) by {
            if i < count - 1 {
                assert(after.symbols.drop_last()[i] == before.symbols[i]);
            }
        }
    }
}

/// Where a result is taken, every item of it is a symbol, in its place, with the name, the
/// kind and the ranges that the item gives, and under the item it is nested in.
pub proof fn law_symbols_say_what_their_items_say(
    raw: Seq<char>,
    items: Seq<SymbolItem>,
    path: FilePath,
    lines: Seq<Seq<char>>,
    room: int,
)
    requires
        raw != "null"@,
        result_symbols(raw, Some(items), path, lines, room) is Ok,
    ensures
        ({
            let symbols = result_symbols(raw, Some(items), path, lines, room)->Ok_0;
            &&& symbols.len() == items.len()
            &&& forall|i: int|
                0 <= i < items.len() ==> is_told_by(items, i, lines, #[trigger] symbols[i])
        }),
{
    lemma_items_told(items, items.len() as int, path, lines, room);
}

} // verus!
