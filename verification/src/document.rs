//! The documents that navigation works on, and what they cost.

use crate::language::LanguageDescriptor;
use crate::payload::{GlobalPayloadBudget, PayloadBudget, PayloadError, PayloadPermit};
use crate::positions::{are_small, protocol_lines, LineIndex, PositionError};
use crate::snapshot::StructureSnapshot;
use crate::paths::PathStyle;
use crate::targets::{path_to_lsp_uri, path_uri, uri_words, UriError};
use std::sync::Arc;
use vstd::prelude::*;

verus! {

/// What one document may cost.
pub const MAX_DOCUMENT_CHARGE: usize = 3 * 1024 * 1024;

/// What a line of the index costs.
pub const LINE_CHARGE: usize = 8;

/// What a recognizable token costs.
pub const TOKEN_CHARGE: usize = 32;

/// Names a file inside its content root.
#[derive(Debug, PartialEq, Eq)]
pub struct ContentIdentity {
    pub bytes: Vec<u8>,
}

#[derive(Clone, Copy, Debug, PartialEq, Eq, Hash, Structural)]
pub struct DocumentVersion(pub u64);

#[derive(Clone, Copy, Debug, PartialEq, Eq, Structural)]
pub enum NavigationOperation {
    Definition,
    References,
    Implementations,
    DocumentSymbols,
}

/// A state of a source file that was read whole.
#[derive(Debug)]
pub struct NavigationSource {
    pub identity: ContentIdentity,
    /// How the paths are written.
    pub style: PathStyle,
    pub absolute_path: Vec<u8>,
    /// The URI of the path, or why it has none.
    pub uri: Result<String, UriError>,
    /// The root under which the file is read again.
    pub content_root: Vec<u8>,
    pub disk_raw_len: u64,
    pub server_root: Vec<u8>,
    pub language: LanguageDescriptor,
    pub text: String,
    pub line_index: LineIndex,
    pub structure: StructureSnapshot,
}

impl NavigationSource {
    /// The index is that of the text, and the URI that of the path.
    pub open spec fn well_formed(&self) -> bool {
        &&& self.line_index@ == protocol_lines(self.text@)
        &&& self.line_index.well_formed()
        &&& uri_words(self.uri) == path_uri(self.style, self.absolute_path@)
    }

    /// What the source costs: its text, its lines and its tokens.
    pub open spec fn charge(&self) -> int {
        document_charge(
            vstd::utf8::encode_utf8(self.text@).len() as int,
            self.line_index@.len() as int,
            self.structure.recognizable_tokens.ranges@.len() as int,
        )
    }

    /// Indexes the lines of a source that is not too large.
    pub fn new(
        identity: ContentIdentity,
        style: PathStyle,
        absolute_path: Vec<u8>,
        content_root: Vec<u8>,
        disk_raw_len: u64,
        server_root: Vec<u8>,
        language: LanguageDescriptor,
        words: String,
        structure: StructureSnapshot,
    ) -> (result: Result<Self, PositionError>)
        ensures
            match result {
                Ok(source) => {
                    &&& source.well_formed()
                    &&& source.identity == identity
                    &&& source.style == style
                    &&& source.absolute_path == absolute_path
                    &&& source.content_root == content_root
                    &&& source.disk_raw_len == disk_raw_len
                    &&& source.server_root == server_root
                    &&& source.language == language
                    &&& source.text == words
                    &&& source.structure == structure
                },
                Err(error) => error == PositionError::TextTooLong || error
                    == PositionError::TooManyLines,
            },
            (result == Err::<Self, _>(PositionError::TextTooLong)) == (vstd::utf8::encode_utf8(
                words@,
            ).len() > crate::positions::MAX_NAVIGATION_TEXT_BYTES),
            (result == Err::<Self, _>(PositionError::TooManyLines)) == (vstd::utf8::encode_utf8(
                words@,
            ).len() <= crate::positions::MAX_NAVIGATION_TEXT_BYTES && protocol_lines(words@).len()
                > crate::positions::MAX_NAVIGATION_LINES + 1),
    {
        match LineIndex::new(words.as_str()) {
            Err(error) => Err(error),
            Ok(line_index) => Ok(
                NavigationSource {
                    identity,
                    style,
                    uri: path_to_lsp_uri(style, absolute_path.as_slice()),
                    absolute_path,
                    content_root,
                    disk_raw_len,
                    server_root,
                    language,
                    text: words,
                    line_index,
                    structure,
                },
            ),
        }
    }
}

/// What a document of these sizes costs.
pub open spec fn document_charge(bytes: int, lines: int, tokens: int) -> int {
    bytes + lines * LINE_CHARGE + tokens * TOKEN_CHARGE
}

#[derive(Clone, Copy, Debug, PartialEq, Eq, Structural)]
pub enum DocumentError {
    Lines(PositionError),
    TooLarge,
    Payload(PayloadError),
}

impl DocumentError {
    pub open spec fn text(self) -> Seq<char> {
        match self {
            DocumentError::Lines(error) => error.text(),
            DocumentError::TooLarge => "navigation document exceeds its 3 MiB payload sub-cap"@,
            DocumentError::Payload(error) => error.text(),
        }
    }

    pub fn message(&self) -> (text: &'static str)
        ensures
            text@ == self.text(),
    {
        match self {
            DocumentError::Lines(error) => error.message(),
            DocumentError::TooLarge => "navigation document exceeds its 3 MiB payload sub-cap",
            DocumentError::Payload(error) => error.message(),
        }
    }
}

/// The text is longer than navigation takes.
pub open spec fn is_long(words: Seq<char>) -> bool {
    vstd::utf8::encode_utf8(words).len() > crate::positions::MAX_NAVIGATION_TEXT_BYTES
}

/// The text is short enough in bytes and in lines.
pub open spec fn is_indexed(words: Seq<char>) -> bool {
    !is_long(words) && protocol_lines(words).len() <= crate::positions::MAX_NAVIGATION_LINES + 1
}

/// Why a document of this text and structure is not admitted, if it is not.
pub open spec fn new_refusal(
    words: Seq<char>,
    structure: StructureSnapshot,
    budget: &PayloadBudget,
    global: &GlobalPayloadBudget,
) -> Option<DocumentError> {
    let charge = document_charge(
        vstd::utf8::encode_utf8(words).len() as int,
        protocol_lines(words).len() as int,
        structure.recognizable_tokens.ranges@.len() as int,
    );
    if charge > MAX_DOCUMENT_CHARGE {
        Some(DocumentError::TooLarge)
    } else {
        match budget.refusal(global, charge) {
            None => None,
            Some(error) => Some(DocumentError::Payload(error)),
        }
    }
}

/// A source that a session works on, and the permit that it holds meanwhile.
#[derive(Debug)]
pub struct NavigationDocument {
    pub source: Arc<NavigationSource>,
    pub version: DocumentVersion,
    pub permit: PayloadPermit,
}

impl NavigationDocument {
    /// Indexes the lines of a source and charges it to the budget.
    pub fn new(
        identity: ContentIdentity,
        style: PathStyle,
        absolute_path: Vec<u8>,
        content_root: Vec<u8>,
        disk_raw_len: u64,
        server_root: Vec<u8>,
        language: LanguageDescriptor,
        version: DocumentVersion,
        words: String,
        structure: StructureSnapshot,
        budget: &mut PayloadBudget,
        global: &mut GlobalPayloadBudget,
    ) -> (result: Result<Self, DocumentError>)
        requires
            old(budget).well_formed(),
            old(global).well_formed(),
        ensures
            final(budget).well_formed(),
            final(global).well_formed(),
            match result {
                Ok(document) => {
                    &&& document.source.well_formed()
                    &&& document.source.identity == identity
                    &&& document.source.style == style
                    &&& document.source.absolute_path == absolute_path
                    &&& document.source.content_root == content_root
                    &&& document.source.disk_raw_len == disk_raw_len
                    &&& document.source.server_root == server_root
                    &&& document.source.language == language
                    &&& document.source.text == words
                    &&& document.source.structure == structure
                    &&& document.version == version
                    &&& document.permit.bytes == document.source.charge()
                    &&& document.permit.bytes <= MAX_DOCUMENT_CHARGE
                    &&& final(budget).session.used == old(budget).session.used
                        + document.permit.bytes
                    &&& final(global).pool.used == old(global).pool.used + document.permit.bytes
                },
                Err(_) => *final(budget) == *old(budget) && *final(global) == *old(global),
            },
            match result {
                Ok(_) => is_indexed(words@) && new_refusal(
                    words@,
                    structure,
                    old(budget),
                    old(global),
                ) is None,
                Err(DocumentError::Lines(error)) => !is_indexed(words@) && error == (if is_long(
                    words@,
                ) {
                    PositionError::TextTooLong
                } else {
                    PositionError::TooManyLines
                }),
                Err(error) => is_indexed(words@) && new_refusal(
                    words@,
                    structure,
                    old(budget),
                    old(global),
                ) == Some(error),
            },
    {
        match NavigationSource::new(
            identity,
            style,
            absolute_path,
            content_root,
            disk_raw_len,
            server_root,
            language,
            words,
            structure,
        ) {
            Err(error) => Err(DocumentError::Lines(error)),
            Ok(source) => NavigationDocument::from_source(Arc::new(source), version, budget, global),
        }
    }

    /// Charges a source to the budget.
    pub fn from_source(
        source: Arc<NavigationSource>,
        version: DocumentVersion,
        budget: &mut PayloadBudget,
        global: &mut GlobalPayloadBudget,
    ) -> (result: Result<Self, DocumentError>)
        requires
            source.well_formed(),
            old(budget).well_formed(),
            old(global).well_formed(),
        ensures
            final(budget).well_formed(),
            final(global).well_formed(),
            match result {
                Ok(document) => {
                    &&& document.source == source
                    &&& document.version == version
                    &&& document.permit.bytes == source.charge()
                    &&& source.charge() <= MAX_DOCUMENT_CHARGE
                    &&& old(budget).refusal(old(global), source.charge()) is None
                    &&& final(budget).session.used == old(budget).session.used + source.charge()
                    &&& final(global).pool.used == old(global).pool.used + source.charge()
                },
                Err(error) => {
                    &&& *final(budget) == *old(budget)
                    &&& *final(global) == *old(global)
                    &&& match error {
                        DocumentError::Lines(_) => false,
                        DocumentError::TooLarge => source.charge() > MAX_DOCUMENT_CHARGE,
                        DocumentError::Payload(refusal) => source.charge() <= MAX_DOCUMENT_CHARGE
                            && old(budget).refusal(old(global), source.charge()) == Some(refusal),
                    }
                },
            },
    {
        let bytes: usize = source.text.as_str().as_bytes().len();
        let lines: usize = source.line_index.line_count();
        let tokens: usize = source.structure.recognizable_tokens.ranges.len();
        assert(are_small(source.line_index@));
        if bytes > MAX_DOCUMENT_CHARGE || tokens > MAX_DOCUMENT_CHARGE {
            return Err(DocumentError::TooLarge);
        }
        let charge: usize = bytes + lines * LINE_CHARGE + tokens * TOKEN_CHARGE;
        if charge > MAX_DOCUMENT_CHARGE {
            return Err(DocumentError::TooLarge);
        }
        match budget.reserve(global, charge) {
            Err(error) => Err(DocumentError::Payload(error)),
            Ok(permit) => Ok(NavigationDocument { source, version, permit }),
        }
    }
}

/// `Arc::clone`: another pointer to the same value.
#[verifier::external_body]
pub(crate) fn share<T>(value: &Arc<T>) -> (copy: Arc<T>)
    ensures
        copy == *value,
{
    Arc::clone(value)
}

/// A document is charged for its bytes, its lines and its words, and it is refused exactly if
/// that is over three mebibytes or over what the budget has left.
pub proof fn law_documents_are_charged_by_size(
    words: Seq<char>,
    structure: StructureSnapshot,
    budget: &PayloadBudget,
    global: &GlobalPayloadBudget,
)
    ensures
        ({
            let charge = vstd::utf8::encode_utf8(words).len() + 8 * protocol_lines(words).len() + 32
                * structure.recognizable_tokens.ranges@.len();
            let refusal = new_refusal(words, structure, budget, global);
            &&& (refusal matches Some(DocumentError::TooLarge)) <==> charge > 3145728
            &&& refusal is None <==> charge <= 3145728 && budget.refusal(global, charge as int)
                is None
        }),
{
}

} // verus!
