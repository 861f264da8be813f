//! What servers send, once its JSON has been taken apart: limits on texts,
//! errors, capabilities and the requests of servers.

use crate::bytes::text;
use crate::json::{broken_limit, json_preflight, Place};
use crate::payload::{GlobalPayloadBudget, PayloadBudget, PayloadError, PayloadPermit};
use crate::rpc::{NavigationCapabilities, RpcId, TextChangeCapability, TextSyncCapability};
use crate::targets::{is_short_uri, short_uri, uri_words, UriError};
use crate::text::{chars_of, control, copy_text, is_control, text_equal};
use vstd::prelude::*;
use vstd::utf8::encode_utf8;

verus! {

pub const MAX_CONFIGURATION_ITEMS: usize = 64;

pub const MAX_SERVER_CALL_PARAMS_BYTES: usize = 64 * 1024;

pub const MAX_CONFIGURATION_STRING_BYTES: usize = 4 * 1024;

pub const MAX_RESULT_URI_BYTES: usize = 64 * 1024;

pub const MAX_POSITION_ENCODING_BYTES: usize = 32;

pub const MAX_MESSAGE_CHARACTERS: usize = 240;

// Tokens ----------------------------------------------------------------------------------

/// The bytes that JSON and ASCII call white space.
pub open spec fn is_blank(byte: u8) -> bool {
    byte == 32 || byte == 9 || byte == 10 || byte == 12 || byte == 13
}

/// The first byte that is not blank.
pub open spec fn first_mark(bytes: Seq<u8>, from: int) -> Option<u8>
    decreases bytes.len() - from,
{
    if from < 0 || from >= bytes.len() {
        None
    } else if is_blank(bytes[from]) {
        first_mark(bytes, from + 1)
    } else {
        Some(bytes[from])
    }
}

pub fn first_mark_of(raw: &str) -> (mark: Option<u8>)
    ensures
        mark == first_mark(text(raw), 0),
{
    let bytes = raw.as_bytes();
    let mut index: usize = 0;
    while index < bytes.len()
        invariant
            index <= bytes@.len(),
            bytes@ == text(raw),
            first_mark(bytes@, 0) == first_mark(bytes@, index as int),
        decreases bytes@.len() - index,
    {
        let byte = bytes[index];
        if !(byte == 32 || byte == 9 || byte == 10 || byte == 12 || byte == 13) {
            return Some(byte);
        }
        index = index + 1;
    }
    None
}

/// The token begins with this byte.
pub open spec fn starts_with_mark(raw: Seq<char>, expected: u8) -> bool {
    first_mark(encode_utf8(raw), 0) == Some(expected)
}

pub fn raw_starts_with(raw: &str, expected: u8) -> (yes: bool)
    ensures
        yes == starts_with_mark(raw@, expected),
{
    match first_mark_of(raw) {
        Some(mark) => mark == expected,
        None => false,
    }
}

/// How long the token of a text of this length can be: six bytes for each byte,
/// and two quotes.
pub open spec fn longest_token(max_decoded: int) -> int {
    max_decoded * 6 + 2
}

/// What the token of a text costs, if it is one and not too long.
pub open spec fn token_charge(raw: Seq<char>, max_decoded: int) -> Option<int> {
    if starts_with_mark(raw, 34) && encode_utf8(raw).len() <= longest_token(max_decoded)
        && longest_token(max_decoded) <= usize::MAX {
        Some(encode_utf8(raw).len() as int)
    } else {
        None
    }
}

pub fn bounded_raw_string_charge(raw: &str, max_decoded: usize) -> (charge: Option<usize>)
    ensures
        match token_charge(raw@, max_decoded as int) {
            None => charge is None,
            Some(expected) => charge == Some(expected as usize) && expected <= usize::MAX,
        },
{
    if max_decoded > (usize::MAX - 2) / 6 {
        return None;
    }
    if !raw_starts_with(raw, 34) || raw.as_bytes().len() > max_decoded * 6 + 2 {
        return None;
    }
    Some(raw.as_bytes().len())
}

/// The text that `serde_json` reads out of a token, or what it says is wrong with it.
pub uninterp spec fn json_string(raw: Seq<char>) -> Result<Seq<char>, Seq<char>>;

/// `serde_json::from_str` for a `String`, and the words of its error. How escapes are
/// read has only a name here.
#[verifier::external_body]
fn decode_json_string(raw: &str) -> (value: Result<String, String>)
    ensures
        match value {
            Ok(found) => json_string(raw@) == Ok::<Seq<char>, Seq<char>>(found@),
            Err(words) => json_string(raw@) == Err::<Seq<char>, Seq<char>>(words@),
        },
{
    serde_json::from_str::<String>(raw).map_err(|error| error.to_string())
}

/// The text of a token, if it is one.
pub open spec fn json_text(raw: Seq<char>) -> Option<Seq<char>> {
    match json_string(raw) {
        Ok(value) => Some(value),
        Err(_) => None,
    }
}

fn decode_text(raw: &str) -> (value: Option<String>)
    ensures
        match json_text(raw@) {
            Some(expected) => value matches Some(found) && found@ == expected,
            None => value is None,
        },
{
    match decode_json_string(raw) {
        Ok(value) => Some(value),
        Err(_) => None,
    }
}

#[derive(Clone, Copy, Debug, PartialEq, Eq, Structural)]
pub enum TokenError {
    TokenTooLarge,
    Invalid,
    DecodedTooLarge,
}

impl TokenError {
    pub open spec fn text(self) -> Seq<char> {
        match self {
            TokenError::TokenTooLarge => "bounded JSON string token is too large"@,
            TokenError::Invalid => "invalid JSON string"@,
            TokenError::DecodedTooLarge => "decoded JSON string is too large"@,
        }
    }

    pub fn message(&self) -> (text: &'static str)
        ensures
            text@ == self.text(),
    {
        match self {
            TokenError::TokenTooLarge => "bounded JSON string token is too large",
            TokenError::Invalid => "invalid JSON string",
            TokenError::DecodedTooLarge => "decoded JSON string is too large",
        }
    }
}

/// What a decoded token comes to under a limit.
pub open spec fn bounded(decoded: Option<Seq<char>>, max_decoded: int) -> Result<
    Seq<char>,
    TokenError,
> {
    match decoded {
        None => Err(TokenError::Invalid),
        Some(value) => if encode_utf8(value).len() > max_decoded {
            Err(TokenError::DecodedTooLarge)
        } else {
            Ok(value)
        },
    }
}

/// The text of a token under a limit.
pub open spec fn token_text(raw: Seq<char>, max_decoded: int) -> Result<Seq<char>, TokenError> {
    if token_charge(raw, max_decoded) is None {
        Err(TokenError::TokenTooLarge)
    } else {
        bounded(json_text(raw), max_decoded)
    }
}

/// Holds a decoded token to a limit.
pub fn bound_string(decoded: Option<String>, max_decoded: usize) -> (result: Result<
    String,
    TokenError,
>)
    ensures
        match bounded(
            match decoded {
                Some(value) => Some(value@),
                None => None,
            },
            max_decoded as int,
        ) {
            Ok(value) => result matches Ok(found) && found@ == value,
            Err(error) => result == Err::<String, _>(error),
        },
{
    match decoded {
        None => Err(TokenError::Invalid),
        Some(value) => {
            if value.as_str().as_bytes().len() > max_decoded {
                Err(TokenError::DecodedTooLarge)
            } else {
                Ok(value)
            }
        },
    }
}

pub fn decode_bounded_owned_string(raw: &str, max_decoded: usize) -> (result: Result<
    String,
    TokenError,
>)
    ensures
        match token_text(raw@, max_decoded as int) {
            Ok(value) => result matches Ok(found) && found@ == value,
            Err(error) => result == Err::<String, _>(error),
        },
{
    if bounded_raw_string_charge(raw, max_decoded).is_none() {
        return Err(TokenError::TokenTooLarge);
    }
    bound_string(decode_text(raw), max_decoded)
}

/// The token is that of a text under a limit.
pub open spec fn is_bounded_string(raw: Seq<char>, max_decoded: int) -> bool {
    &&& encode_utf8(raw).len() <= longest_token(max_decoded)
    &&& json_text(raw) matches Some(value)
    &&& encode_utf8(value).len() <= max_decoded
}

pub fn validate_param_string(raw: &str, max_decoded: usize) -> (valid: bool)
    requires
        longest_token(max_decoded as int) <= usize::MAX,
    ensures
        valid == is_bounded_string(raw@, max_decoded as int),
{
    if raw.as_bytes().len() > max_decoded * 6 + 2 {
        return false;
    }
    match decode_text(raw) {
        None => false,
        Some(value) => value.as_str().as_bytes().len() <= max_decoded,
    }
}

/// The token is that of a URI.
pub open spec fn is_uri_token(raw: Seq<char>) -> bool {
    is_bounded_string(raw, MAX_RESULT_URI_BYTES as int) && is_short_uri(json_text(raw)->0)
}

pub fn validate_param_uri(raw: &str) -> (valid: bool)
    ensures
        valid == is_uri_token(raw@),
{
    if !validate_param_string(raw, MAX_RESULT_URI_BYTES) {
        return false;
    }
    match decode_text(raw) {
        None => false,
        Some(value) => short_uri(value.as_str()),
    }
}

/// The URI in a token, if there is one.
pub open spec fn token_uri(raw: Seq<char>) -> Option<Seq<char>> {
    match json_text(raw) {
        Some(value) => if is_short_uri(value) {
            Some(value)
        } else {
            None
        },
        None => None,
    }
}

pub fn decode_uri(raw: &str) -> (uri: Option<String>)
    ensures
        match token_uri(raw@) {
            None => uri is None,
            Some(expected) => uri matches Some(found) && found@ == expected,
        },
{
    match decode_text(raw) {
        None => None,
        Some(value) => {
            if short_uri(value.as_str()) {
                Some(value)
            } else {
                None
            }
        },
    }
}

// Messages --------------------------------------------------------------------------------

/// The characters that are not control characters.
pub open spec fn printable(message: Seq<char>) -> Seq<char>
    decreases message.len(),
{
    if message.len() == 0 {
        Seq::empty()
    } else if is_control(message.last()) {
        printable(message.drop_last())
    } else {
        printable(message.drop_last()).push(message.last())
    }
}

/// A message as it is shown: without control characters, and not too long.
pub open spec fn cleaned(message: Seq<char>) -> Seq<char> {
    let shown = printable(message);
    if shown.len() > MAX_MESSAGE_CHARACTERS {
        shown.subrange(0, MAX_MESSAGE_CHARACTERS as int)
    } else {
        shown
    }
}

proof fn lemma_printable_front(message: Seq<char>, count: int)
    requires
        0 <= count <= message.len(),
    ensures
        printable(message.subrange(0, count)).len() <= printable(message).len(),
        printable(message).subrange(0, printable(message.subrange(0, count)).len() as int)
            == printable(message.subrange(0, count)),
    decreases message.len() - count,
{
    let front = printable(message.subrange(0, count));
    if count == message.len() {
        assert(message.subrange(0, count) =~= message);
        assert(front.subrange(0, front.len() as int) =~= front);
    } else {
        lemma_printable_front(message, count + 1);
        let longer = message.subrange(0, count + 1);
        assert(longer.drop_last() =~= message.subrange(0, count));
        assert(printable(message).subrange(0, front.len() as int) =~= front) by {
            let more = printable(longer);
            assert forall|i: int| 0 <= i < front.len() implies printable(message)[i]
                == front[i] by {
                assert(printable(message).subrange(0, more.len() as int)[i] == more[i]);
            }
        }
    }
}

pub fn clean_protocol_message(message: &str) -> (shown: String)
    ensures
        shown@ == cleaned(message@),
{
    let characters = chars_of(message);
    let mut shown = String::new();
    let mut count: usize = 0;
    let mut index: usize = 0;
    assert(shown@ =~= printable(message@.subrange(0, 0)));
    while index < characters.len() && count < MAX_MESSAGE_CHARACTERS
        invariant
            index <= characters@.len(),
            characters@ == message@,
            count == shown@.len(),
            count <= MAX_MESSAGE_CHARACTERS,
            shown@ == printable(message@.subrange(0, index as int)),
        decreases characters@.len() - index,
    {
        proof {
            let longer = message@.subrange(0, index + 1);
            assert(longer.drop_last() =~= message@.subrange(0, index as int));
            assert(longer.last() == message@[index as int]);
        }
        if !control(characters[index]) {
            shown.push(characters[index]);
            count = count + 1;
        }
        index = index + 1;
    }
    proof {
        lemma_printable_front(message@, index as int);
        if index == message@.len() {
            assert(message@.subrange(0, index as int) =~= message@);
        }
        assert(printable(message@).subrange(0, shown@.len() as int) == shown@);
        if printable(message@).len() == shown@.len() {
            assert(printable(message@).subrange(0, shown@.len() as int) =~= printable(message@));
        }
    }
    shown
}

/// A message that is shown has no control characters and is not too long.
pub proof fn law_messages_are_short_and_plain(message: Seq<char>)
    ensures
        cleaned(message).len() <= MAX_MESSAGE_CHARACTERS,
        forall|i: int|
            0 <= i < cleaned(message).len() ==> !is_control(#[trigger] cleaned(message)[i]),
{
    lemma_printable(message);
    assert forall|i: int| 0 <= i < cleaned(message).len() implies !is_control(
        #[trigger] cleaned(message)[i],
    ) by {
        assert(cleaned(message)[i] == printable(message)[i]);
    }
}

proof fn lemma_printable(message: Seq<char>)
    ensures
        forall|i: int|
            0 <= i < printable(message).len() ==> !is_control(#[trigger] printable(message)[i]),
    decreases message.len(),
{
    if message.len() > 0 {
        let rest = printable(message.drop_last());
        lemma_printable(message.drop_last());
        assert forall|i: int| 0 <= i < printable(message).len() implies !is_control(
            #[trigger] printable(message)[i],
        ) by {
            if i < rest.len() {
                assert(printable(message)[i] == rest[i]);
            }
        }
    }
}

// Envelopes -------------------------------------------------------------------------------

/// A message of the protocol. The values are kept as tokens.
#[derive(Debug)]
pub struct Envelope {
    pub jsonrpc: String,
    pub id: Option<RpcId>,
    pub method: Option<String>,
    pub params: Option<String>,
    pub result: Option<String>,
    pub error: Option<String>,
}

impl Envelope {
    /// The version of the protocol is the one that is spoken.
    pub open spec fn is_current(&self) -> bool {
        self.jsonrpc@ == "2.0"@
    }

    /// The message answers a shutdown with this identifier.
    pub open spec fn ends_shutdown(&self, id: RpcId) -> bool {
        &&& self.is_current()
        &&& self.id matches Some(own)
        &&& own@ == id@
        &&& self.method is None
        &&& self.result is Some
        &&& self.error is None
    }
}

/// The frame may be read: its JSON is within the limits and its size fits the budget.
pub open spec fn is_admissible(
    frame: Seq<u8>,
    budget: &PayloadBudget,
    global: &GlobalPayloadBudget,
) -> bool {
    broken_limit(frame, 0, 0, Place::Code) is None && budget.refusal(
        global,
        frame.len() as int,
    ) is None
}

/// Whether a frame answers a shutdown. The envelope is what was read out of it.
pub fn is_shutdown_response(
    frame: &[u8],
    envelope: Option<&Envelope>,
    budget: &mut PayloadBudget,
    global: &mut GlobalPayloadBudget,
    shutdown_id: &RpcId,
) -> (answers: bool)
    requires
        old(budget).well_formed(),
        old(global).well_formed(),
    ensures
        *final(budget) == *old(budget),
        *final(global) == *old(global),
        answers == (is_admissible(frame@, old(budget), old(global)) && (envelope matches Some(
            message,
        ) && message.ends_shutdown(*shutdown_id))),
{
    if json_preflight(frame).is_err() {
        return false;
    }
    let scratch = match budget.reserve(global, frame.len()) {
        Err(_) => {
            return false;
        },
        Ok(scratch) => scratch,
    };
    budget.release(global, scratch);
    match envelope {
        None => false,
        Some(message) => {
            let named = match &message.id {
                None => false,
                Some(id) => id.same(shutdown_id),
            };
            text_equal(message.jsonrpc.as_str(), "2.0") && named && message.method.is_none()
                && message.result.is_some() && message.error.is_none()
        },
    }
}

#[derive(Clone, Copy, Debug, PartialEq, Eq, Structural)]
pub enum ProtocolErrorFault {
    Token(TokenError),
    Payload(PayloadError),
}

impl ProtocolErrorFault {
    pub open spec fn text(self) -> Seq<char> {
        match self {
            ProtocolErrorFault::Token(error) => error.text(),
            ProtocolErrorFault::Payload(error) => error.text(),
        }
    }

    pub fn message(&self) -> (text: &'static str)
        ensures
            text@ == self.text(),
    {
        match self {
            ProtocolErrorFault::Token(error) => error.message(),
            ProtocolErrorFault::Payload(error) => error.message(),
        }
    }
}

/// What the message of an error comes to: its cost and its text, or a fault.
pub open spec fn error_message(
    raw: Seq<char>,
    budget: &PayloadBudget,
    global: &GlobalPayloadBudget,
) -> Result<(int, Seq<char>), ProtocolErrorFault> {
    match token_charge(raw, MAX_CONFIGURATION_STRING_BYTES as int) {
        None => Err(ProtocolErrorFault::Token(TokenError::TokenTooLarge)),
        Some(charge) => match budget.refusal(global, charge) {
            Some(error) => Err(ProtocolErrorFault::Payload(error)),
            None => match bounded(json_text(raw), MAX_CONFIGURATION_STRING_BYTES as int) {
                Err(error) => Err(ProtocolErrorFault::Token(error)),
                Ok(message) => Ok((charge, cleaned(message))),
            },
        },
    }
}

/// Reads the message of an error, and charges it as long as it is kept.
pub fn parse_protocol_error(
    raw: &str,
    budget: &mut PayloadBudget,
    global: &mut GlobalPayloadBudget,
) -> (result: Result<(String, PayloadPermit), ProtocolErrorFault>)
    requires
        old(budget).well_formed(),
        old(global).well_formed(),
    ensures
        final(budget).well_formed(),
        final(global).well_formed(),
        match error_message(raw@, old(budget), old(global)) {
            Ok((charge, message)) => {
                &&& result matches Ok(found)
                &&& found.0@ == message
                &&& found.1.bytes == charge
                &&& final(budget).session.used == old(budget).session.used + charge
                &&& final(global).pool.used == old(global).pool.used + charge
            },
            Err(fault) => {
                &&& result == Err::<(String, PayloadPermit), _>(fault)
                &&& *final(budget) == *old(budget)
                &&& *final(global) == *old(global)
            },
        },
{
    let charge = match bounded_raw_string_charge(raw, MAX_CONFIGURATION_STRING_BYTES) {
        None => {
            return Err(ProtocolErrorFault::Token(TokenError::TokenTooLarge));
        },
        Some(charge) => charge,
    };
    let permit = match budget.reserve(global, charge) {
        Err(error) => {
            return Err(ProtocolErrorFault::Payload(error));
        },
        Ok(permit) => permit,
    };
    match decode_bounded_owned_string(raw, MAX_CONFIGURATION_STRING_BYTES) {
        Err(error) => {
            budget.release(global, permit);
            Err(ProtocolErrorFault::Token(error))
        },
        Ok(message) => Ok((clean_protocol_message(message.as_str()), permit)),
    }
}

/// What is said of a message that is refused. What a parser said comes last.
pub open spec fn refused_message(raw: Seq<char>, fault: ProtocolErrorFault) -> Seq<char> {
    match (fault, json_string(raw)) {
        (ProtocolErrorFault::Token(TokenError::Invalid), Err(words)) => fault.text() + ": "@
            + words,
        _ => fault.text(),
    }
}

/// Says why a message is refused.
pub fn explain_message(raw: &str, fault: ProtocolErrorFault) -> (words: String)
    ensures
        words@ == refused_message(raw@, fault),
{
    let mut words = copy_text(fault.message());
    if let ProtocolErrorFault::Token(TokenError::Invalid) = fault {
        if let Err(reason) = decode_json_string(raw) {
            words.push_str(": ");
            words.push_str(reason.as_str());
        }
    }
    words
}

// Initialization --------------------------------------------------------------------------

/// What a server says that it can do, as it was written. The encoding is a token.
#[derive(Debug)]
pub struct RawCapabilities {
    pub position_encoding: Option<String>,
    pub definition_provider: Option<bool>,
    pub references_provider: Option<bool>,
    pub implementation_provider: Option<bool>,
    pub document_symbol_provider: Option<bool>,
    pub text_document_sync: Option<TextSyncCapability>,
}

/// The capabilities that navigation works with. What is not mentioned is not there.
pub open spec fn normalized_capabilities(raw: RawCapabilities) -> NavigationCapabilities {
    NavigationCapabilities {
        definition: raw.definition_provider == Some(true),
        references: raw.references_provider == Some(true),
        implementations: raw.implementation_provider == Some(true),
        document_symbols: raw.document_symbol_provider == Some(true),
        text_document_sync: match raw.text_document_sync {
            Some(sync) => sync,
            None => TextSyncCapability { open_close: false, change: TextChangeCapability::Absent },
        },
    }
}

/// Why a position encoding is turned down, if it is.
pub open spec fn encoding_fault(raw: Option<Seq<char>>) -> Option<Seq<char>> {
    match raw {
        None => None,
        Some(token) => if token_charge(token, MAX_POSITION_ENCODING_BYTES as int) is None {
            Some("language server positionEncoding is too large"@)
        } else {
            match json_string(token) {
                Err(words) => Some("invalid positionEncoding: "@ + words),
                Ok(encoding) => if encoding == "utf-16"@ {
                    None
                } else {
                    Some(
                        "language server selected unsupported positionEncoding "@ + encoding
                            + "; Latte Lens requires UTF-16"@,
                    )
                },
            }
        },
    }
}

/// What the answer to an initialization comes to. `object` is the token of the
/// capabilities that was found in it, `raw` what was found in that token.
pub open spec fn initialized_capabilities(
    answer: Seq<char>,
    object: Result<Seq<char>, Seq<char>>,
    raw: Result<RawCapabilities, Seq<char>>,
) -> Result<NavigationCapabilities, Seq<char>> {
    match broken_limit(encode_utf8(answer), 0, 0, Place::Code) {
        Some(limit) => Err(limit.text()),
        None => if !starts_with_mark(answer, 123) {
            Err("language server initialize result must be an object"@)
        } else {
            match object {
                Err(message) => Err(message),
                Ok(token) => if !starts_with_mark(token, 123) {
                    Err("language server capabilities must be an object"@)
                } else {
                    match raw {
                        Err(message) => Err(message),
                        Ok(capabilities) => match encoding_fault(
                            match capabilities.position_encoding {
                                Some(token) => Some(token@),
                                None => None,
                            },
                        ) {
                            Some(fault) => Err(fault),
                            None => Ok(normalized_capabilities(capabilities)),
                        },
                    }
                },
            }
        },
    }
}

pub open spec fn words_result(result: Result<String, String>) -> Result<Seq<char>, Seq<char>> {
    match result {
        Ok(words) => Ok(words@),
        Err(words) => Err(words@),
    }
}

pub open spec fn raw_result(result: Result<RawCapabilities, String>) -> Result<
    RawCapabilities,
    Seq<char>,
> {
    match result {
        Ok(raw) => Ok(raw),
        Err(words) => Err(words@),
    }
}

fn check_encoding(token: &Option<String>) -> (result: Result<(), String>)
    ensures
        match encoding_fault(
            match token {
                Some(token) => Some(token@),
                None => None,
            },
        ) {
            None => result is Ok,
            Some(fault) => result matches Err(message) && message@ == fault,
        },
{
    match token {
        None => Ok(()),
        Some(token) => {
            if bounded_raw_string_charge(token.as_str(), MAX_POSITION_ENCODING_BYTES).is_none() {
                return Err(copy_text("language server positionEncoding is too large"));
            }
            match decode_json_string(token.as_str()) {
                Err(words) => {
                    let mut message = copy_text("invalid positionEncoding: ");
                    message.push_str(words.as_str());
                    Err(message)
                },
                Ok(encoding) => {
                    if text_equal(encoding.as_str(), "utf-16") {
                        return Ok(());
                    }
                    let mut message = copy_text(
                        "language server selected unsupported positionEncoding ",
                    );
                    message.push_str(encoding.as_str());
                    message.push_str("; Latte Lens requires UTF-16");
                    Err(message)
                },
            }
        },
    }
}

pub fn parse_initialize_capabilities(
    answer: &str,
    object: &Result<String, String>,
    raw: &Result<RawCapabilities, String>,
) -> (result: Result<NavigationCapabilities, String>)
    ensures
        match initialized_capabilities(answer@, words_result(*object), raw_result(*raw)) {
            Ok(capabilities) => result == Ok::<_, String>(capabilities),
            Err(message) => result matches Err(found) && found@ == message,
        },
{
    if let Err(limit) = json_preflight(answer.as_bytes()) {
        return Err(copy_text(limit.message()));
    }
    if !raw_starts_with(answer, 123) {
        return Err(copy_text("language server initialize result must be an object"));
    }
    let token = match object {
        Err(message) => {
            return Err(copy_text(message.as_str()));
        },
        Ok(token) => token,
    };
    if !raw_starts_with(token.as_str(), 123) {
        return Err(copy_text("language server capabilities must be an object"));
    }
    let capabilities = match raw {
        Err(message) => {
            return Err(copy_text(message.as_str()));
        },
        Ok(capabilities) => capabilities,
    };
    if let Err(message) = check_encoding(&capabilities.position_encoding) {
        return Err(message);
    }
    Ok(
        NavigationCapabilities {
            definition: is_true(capabilities.definition_provider),
            references: is_true(capabilities.references_provider),
            implementations: is_true(capabilities.implementation_provider),
            document_symbols: is_true(capabilities.document_symbol_provider),
            text_document_sync: match capabilities.text_document_sync {
                Some(sync) => sync,
                None => TextSyncCapability {
                    open_close: false,
                    change: TextChangeCapability::Absent,
                },
            },
        },
    )
}

fn is_true(value: Option<bool>) -> (yes: bool)
    ensures
        yes == (value == Some(true)),
{
    match value {
        Some(value) => value,
        None => false,
    }
}

// Requests of servers ---------------------------------------------------------------------

/// The requests of servers that are answered.
#[derive(Clone, Copy, Debug, PartialEq, Eq, Structural)]
pub enum ServerCall {
    Configuration,
    WorkspaceFolders,
    ApplyEdit,
    RegisterCapability,
    UnregisterCapability,
    CreateProgress,
    ShowMessageRequest,
    Unknown,
}

pub open spec fn call_of(method: Seq<char>) -> ServerCall {
    if method == "workspace/configuration"@ {
        ServerCall::Configuration
    } else if method == "workspace/workspaceFolders"@ {
        ServerCall::WorkspaceFolders
    } else if method == "workspace/applyEdit"@ {
        ServerCall::ApplyEdit
    } else if method == "client/registerCapability"@ {
        ServerCall::RegisterCapability
    } else if method == "client/unregisterCapability"@ {
        ServerCall::UnregisterCapability
    } else if method == "window/workDoneProgress/create"@ {
        ServerCall::CreateProgress
    } else if method == "window/showMessageRequest"@ {
        ServerCall::ShowMessageRequest
    } else {
        ServerCall::Unknown
    }
}

pub fn server_call(method: &str) -> (call: ServerCall)
    ensures
        call == call_of(method@),
{
    if text_equal(method, "workspace/configuration") {
        ServerCall::Configuration
    } else if text_equal(method, "workspace/workspaceFolders") {
        ServerCall::WorkspaceFolders
    } else if text_equal(method, "workspace/applyEdit") {
        ServerCall::ApplyEdit
    } else if text_equal(method, "client/registerCapability") {
        ServerCall::RegisterCapability
    } else if text_equal(method, "client/unregisterCapability") {
        ServerCall::UnregisterCapability
    } else if text_equal(method, "window/workDoneProgress/create") {
        ServerCall::CreateProgress
    } else if text_equal(method, "window/showMessageRequest") {
        ServerCall::ShowMessageRequest
    } else {
        ServerCall::Unknown
    }
}

/// An item of the configuration that a server asks for. The values are tokens.
#[derive(Debug)]
pub struct ConfigurationItem {
    pub scope_uri: Option<String>,
    pub section: Option<String>,
}

/// A capability that a server registers. The values are tokens.
#[derive(Debug)]
pub struct RegistrationItem {
    pub id: String,
    pub method: String,
}

/// The parameters of a request, read as its method asks.
#[derive(Debug)]
pub enum CallParams {
    /// There are none, or they cannot be read.
    Unread,
    Configuration(Vec<ConfigurationItem>),
    ApplyEdit { label: Option<String>, edit: String },
    Registrations(Vec<RegistrationItem>),
    Progress,
    ShowMessage { kind: u8, message: String, actions: Vec<String> },
}

pub open spec fn is_item(item: ConfigurationItem) -> bool {
    &&& item.scope_uri matches Some(uri) ==> is_uri_token(uri@)
    &&& item.section matches Some(section) ==> is_bounded_string(
        section@,
        MAX_CONFIGURATION_STRING_BYTES as int,
    )
}

pub open spec fn is_registration(item: RegistrationItem) -> bool {
    is_bounded_string(item.id@, MAX_CONFIGURATION_STRING_BYTES as int) && is_bounded_string(
        item.method@,
        MAX_CONFIGURATION_STRING_BYTES as int,
    )
}

/// What a request of a server is answered.
#[derive(Debug)]
pub enum CallReply {
    Null,
    /// As many times nothing.
    Nulls(usize),
    /// The one folder that is open.
    Folder(String),
    /// Nothing is edited here.
    EditRefused,
}

/// What an answer says.
pub enum ReplyRecord {
    Null,
    Nulls(nat),
    Folder(Seq<char>),
    EditRefused,
}

impl View for CallReply {
    type V = ReplyRecord;

    open spec fn view(&self) -> ReplyRecord {
        match self {
            CallReply::Null => ReplyRecord::Null,
            CallReply::Nulls(count) => ReplyRecord::Nulls(*count as nat),
            CallReply::Folder(uri) => ReplyRecord::Folder(uri@),
            CallReply::EditRefused => ReplyRecord::EditRefused,
        }
    }
}

#[derive(Clone, Copy, Debug, PartialEq, Eq, Structural)]
pub enum ServerCallError {
    InvalidParams,
    MethodNotFound,
}

/// The parameters of a request are not too long.
pub open spec fn are_short(params: Option<Seq<char>>) -> bool {
    params matches Some(raw) ==> encode_utf8(raw).len() <= MAX_SERVER_CALL_PARAMS_BYTES
}

/// The parameters are what the request needs.
pub open spec fn are_valid(
    call: ServerCall,
    raw: Option<Seq<char>>,
    params: CallParams,
    root_uri: Result<Seq<char>, UriError>,
) -> bool {
    are_short(raw) && match call {
        ServerCall::Configuration => params matches CallParams::Configuration(items)
            && items@.len() <= MAX_CONFIGURATION_ITEMS && (forall|i: int|
            0 <= i < items@.len() ==> is_item(#[trigger] items@[i])),
        ServerCall::WorkspaceFolders => (raw matches Some(words) ==> words == "null"@) && root_uri
            is Ok,
        ServerCall::ApplyEdit => params matches CallParams::ApplyEdit { label, edit }
            && starts_with_mark(edit@, 123) && (label matches Some(words) ==> is_bounded_string(
            words@,
            MAX_CONFIGURATION_STRING_BYTES as int,
        )),
        ServerCall::RegisterCapability | ServerCall::UnregisterCapability =>
            params matches CallParams::Registrations(items) && items@.len()
            <= MAX_CONFIGURATION_ITEMS && (forall|i: int|
            0 <= i < items@.len() ==> is_registration(#[trigger] items@[i])),
        ServerCall::CreateProgress => params is Progress,
        ServerCall::ShowMessageRequest => params matches CallParams::ShowMessage {
            kind,
            message,
            actions,
        } && 1 <= kind <= 4 && is_bounded_string(message@, MAX_CONFIGURATION_STRING_BYTES as int)
            && actions@.len() <= MAX_CONFIGURATION_ITEMS && (forall|i: int|
            0 <= i < actions@.len() ==> is_bounded_string(
                (#[trigger] actions@[i])@,
                MAX_CONFIGURATION_STRING_BYTES as int,
            )),
        ServerCall::Unknown => false,
    }
}

fn valid_items(items: &Vec<ConfigurationItem>) -> (valid: bool)
    ensures
        valid == forall|i: int| 0 <= i < items@.len() ==> is_item(#[trigger] items@[i]),
{
    let mut index: usize = 0;
    while index < items.len()
        invariant
            index <= items@.len(),
            forall|i: int| 0 <= i < index ==> is_item(#[trigger] items@[i]),
        decreases items@.len() - index,
    {
        let item = &items[index];
        if let Some(uri) = &item.scope_uri {
            if !validate_param_uri(uri.as_str()) {
                assert(!is_item(items@[index as int]));
                return false;
            }
        }
        if let Some(section) = &item.section {
            if !validate_param_string(section.as_str(), MAX_CONFIGURATION_STRING_BYTES) {
                assert(!is_item(items@[index as int]));
                return false;
            }
        }
        index = index + 1;
    }
    true
}

pub fn validate_registrations(items: &Vec<RegistrationItem>) -> (valid: bool)
    ensures
        valid == (items@.len() <= MAX_CONFIGURATION_ITEMS && forall|i: int|
            0 <= i < items@.len() ==> is_registration(#[trigger] items@[i])),
{
    if items.len() > MAX_CONFIGURATION_ITEMS {
        return false;
    }
    let mut index: usize = 0;
    while index < items.len()
        invariant
            index <= items@.len(),
            forall|i: int| 0 <= i < index ==> is_registration(#[trigger] items@[i]),
        decreases items@.len() - index,
    {
        let item = &items[index];
        if !validate_param_string(item.id.as_str(), MAX_CONFIGURATION_STRING_BYTES)
            || !validate_param_string(item.method.as_str(), MAX_CONFIGURATION_STRING_BYTES) {
            assert(!is_registration(items@[index as int]));
            return false;
        }
        index = index + 1;
    }
    true
}

fn valid_titles(titles: &Vec<String>) -> (valid: bool)
    ensures
        valid == forall|i: int|
            0 <= i < titles@.len() ==> is_bounded_string(
                (#[trigger] titles@[i])@,
                MAX_CONFIGURATION_STRING_BYTES as int,
            ),
{
    let mut index: usize = 0;
    while index < titles.len()
        invariant
            index <= titles@.len(),
            forall|i: int|
                0 <= i < index ==> is_bounded_string(
                    (#[trigger] titles@[i])@,
                    MAX_CONFIGURATION_STRING_BYTES as int,
                ),
        decreases titles@.len() - index,
    {
        if !validate_param_string(titles[index].as_str(), MAX_CONFIGURATION_STRING_BYTES) {
            assert(!is_bounded_string(
                titles@[index as int]@,
                MAX_CONFIGURATION_STRING_BYTES as int,
            ));
            return false;
        }
        index = index + 1;
    }
    true
}

/// What a request of a server is answered. A viewer changes nothing, so what a
/// server asks to be changed is refused or taken note of.
pub open spec fn call_answer(
    method: Seq<char>,
    raw: Option<Seq<char>>,
    params: CallParams,
    root_uri: Result<Seq<char>, UriError>,
) -> Result<ReplyRecord, ServerCallError> {
    let call = call_of(method);
    if call is Unknown {
        Err(ServerCallError::MethodNotFound)
    } else if !are_valid(call, raw, params, root_uri) {
        Err(ServerCallError::InvalidParams)
    } else {
        Ok(
            match call {
                ServerCall::Configuration => ReplyRecord::Nulls(params->Configuration_0@.len()),
                ServerCall::WorkspaceFolders => ReplyRecord::Folder(root_uri->Ok_0),
                ServerCall::ApplyEdit => ReplyRecord::EditRefused,
                _ => ReplyRecord::Null,
            },
        )
    }
}

pub open spec fn reply_record(outcome: Result<CallReply, ServerCallError>) -> Result<
    ReplyRecord,
    ServerCallError,
> {
    match outcome {
        Ok(reply) => Ok(reply@),
        Err(error) => Err(error),
    }
}

pub fn server_call_result(
    method: &str,
    raw: Option<&str>,
    params: &CallParams,
    root_uri: &Result<String, UriError>,
) -> (result: Result<CallReply, ServerCallError>)
    ensures
        reply_record(result) == call_answer(
            method@,
            match raw {
                Some(words) => Some(words@),
                None => None,
            },
            *params,
            uri_words(*root_uri),
        ),
{
    let call = server_call(method);
    if let ServerCall::Unknown = call {
        return Err(ServerCallError::MethodNotFound);
    }
    if let Some(words) = raw {
        if words.as_bytes().len() > MAX_SERVER_CALL_PARAMS_BYTES {
            return Err(ServerCallError::InvalidParams);
        }
    }
    match call {
        ServerCall::Configuration => {
            if let CallParams::Configuration(items) = params {
                if items.len() <= MAX_CONFIGURATION_ITEMS && valid_items(items) {
                    return Ok(CallReply::Nulls(items.len()));
                }
            }
            Err(ServerCallError::InvalidParams)
        },
        ServerCall::WorkspaceFolders => {
            if let Some(words) = raw {
                if !text_equal(words, "null") {
                    return Err(ServerCallError::InvalidParams);
                }
            }
            match root_uri {
                Ok(uri) => Ok(CallReply::Folder(copy_text(uri.as_str()))),
                Err(_) => Err(ServerCallError::InvalidParams),
            }
        },
        ServerCall::ApplyEdit => {
            if let CallParams::ApplyEdit { label, edit } = params {
                if raw_starts_with(edit.as_str(), 123) {
                    let labelled = match label {
                        None => true,
                        Some(words) => validate_param_string(
                            words.as_str(),
                            MAX_CONFIGURATION_STRING_BYTES,
                        ),
                    };
                    if labelled {
                        return Ok(CallReply::EditRefused);
                    }
                }
            }
            Err(ServerCallError::InvalidParams)
        },
        ServerCall::RegisterCapability | ServerCall::UnregisterCapability => {
            if let CallParams::Registrations(items) = params {
                if validate_registrations(items) {
                    return Ok(CallReply::Null);
                }
            }
            Err(ServerCallError::InvalidParams)
        },
        ServerCall::CreateProgress => {
            if let CallParams::Progress = params {
                return Ok(CallReply::Null);
            }
            Err(ServerCallError::InvalidParams)
        },
        ServerCall::ShowMessageRequest => {
            if let CallParams::ShowMessage { kind, message, actions } = params {
                if 1 <= *kind && *kind <= 4 && validate_param_string(
                    message.as_str(),
                    MAX_CONFIGURATION_STRING_BYTES,
                ) && actions.len() <= MAX_CONFIGURATION_ITEMS && valid_titles(actions) {
                    return Ok(CallReply::Null);
                }
            }
            Err(ServerCallError::InvalidParams)
        },
        ServerCall::Unknown => Err(ServerCallError::MethodNotFound),
    }
}

/// A short message of printable characters is shown as it came.
pub proof fn law_plain_messages_are_kept(message: Seq<char>)
    requires
        message.len() <= MAX_MESSAGE_CHARACTERS,
        forall|i: int| 0 <= i < message.len() ==> (#[trigger] message[i]) as u32 >= 0xa0 || 0x20
            <= message[i] as u32 <= 0x7e,
    ensures
        cleaned(message) == message,
{
    lemma_all_printable(message);
}

proof fn lemma_all_printable(message: Seq<char>)
    requires
        forall|i: int| 0 <= i < message.len() ==> (#[trigger] message[i]) as u32 >= 0xa0 || 0x20
            <= message[i] as u32 <= 0x7e,
    ensures
        printable(message) == message,
    decreases message.len(),
{
    if message.len() > 0 {
        let front = message.drop_last();
        assert forall|i: int| 0 <= i < front.len() implies (#[trigger] front[i]) as u32 >= 0xa0
            || 0x20 <= front[i] as u32 <= 0x7e by {
            assert(front[i] == message[i]);
        }
        lemma_all_printable(front);
        assert(message[message.len() - 1] == message.last());
        assert(front.push(message.last()) =~= message);
    } else {
        assert(message =~= Seq::<char>::empty());
    }
}

/// A server can do what it says that it can do, and nothing else: one capability for each
/// of the four operations, and no synchronization where it mentions none.
pub proof fn law_capabilities_are_what_a_server_says(raw: RawCapabilities)
    ensures
        ({
            let found = normalized_capabilities(raw);
            &&& found.definition <==> raw.definition_provider == Some(true)
            &&& found.references <==> raw.references_provider == Some(true)
            &&& found.implementations <==> raw.implementation_provider == Some(true)
            &&& found.document_symbols <==> raw.document_symbol_provider == Some(true)
            &&& raw.text_document_sync matches Some(sync) ==> found.text_document_sync == sync
            &&& raw.text_document_sync is None ==> found.text_document_sync.reads_disk()
                && !found.text_document_sync.open_close
        }),
{
}

/// No server may change anything: an edit is answered as refused, whatever it holds, and
/// what is asked of the workspace is answered with its folder and with no settings.
pub proof fn law_servers_are_answered_without_changes(
    method: Seq<char>,
    raw: Option<Seq<char>>,
    params: CallParams,
    root_uri: Result<Seq<char>, UriError>,
)
    ensures
        call_answer(method, raw, params, root_uri) matches Ok(reply) ==> {
            &&& reply is EditRefused <==> method == "workspace/applyEdit"@
            &&& reply is Folder <==> method == "workspace/workspaceFolders"@
            &&& reply is Nulls <==> method == "workspace/configuration"@
            &&& reply matches ReplyRecord::Folder(uri) ==> root_uri == Ok::<_, UriError>(uri)
            &&& reply matches ReplyRecord::Nulls(count) ==> (params matches
                CallParams::Configuration(items) && items@.len() == count)
        },
        call_answer(method, raw, params, root_uri) == Err::<ReplyRecord, _>(
            ServerCallError::MethodNotFound,
        ) <==> method != "workspace/configuration"@ && method != "workspace/workspaceFolders"@
            && method != "workspace/applyEdit"@ && method != "client/registerCapability"@ && method
            != "client/unregisterCapability"@ && method != "window/workDoneProgress/create"@
            && method != "window/showMessageRequest"@,
{
    reveal_strlit("workspace/configuration");
    reveal_strlit("workspace/workspaceFolders");
    reveal_strlit("workspace/applyEdit");
    reveal_strlit("client/registerCapability");
    reveal_strlit("client/unregisterCapability");
    reveal_strlit("window/workDoneProgress/create");
    reveal_strlit("window/showMessageRequest");
    assert("workspace/configuration"@.len() == 23);
    assert("workspace/workspaceFolders"@.len() == 26);
    assert("workspace/applyEdit"@.len() == 19);
    assert("client/registerCapability"@.len() == 25);
    assert("client/unregisterCapability"@.len() == 27);
    assert("window/workDoneProgress/create"@.len() == 30);
    assert("window/showMessageRequest"@.len() == 25);
}

/// What a text begins with is its first byte that is not a blank.
pub proof fn law_texts_begin_behind_their_blanks(bytes: Seq<u8>, at: int)
    requires
        0 <= at <= bytes.len(),
        forall|i: int| 0 <= i < at ==> (#[trigger] bytes[i] == 32 || bytes[i] == 9 || bytes[i] == 10
            || bytes[i] == 12 || bytes[i] == 13),
        at < bytes.len() ==> bytes[at] != 32 && bytes[at] != 9 && bytes[at] != 10 && bytes[at] != 12
            && bytes[at] != 13,
    ensures
        first_mark(bytes, 0) == (if at < bytes.len() {
            Some(bytes[at])
        } else {
            None
        }),
{
    lemma_mark_found(bytes, 0, at);
}

proof fn lemma_mark_found(bytes: Seq<u8>, from: int, at: int)
    requires
        0 <= from <= at <= bytes.len(),
        forall|i: int| from <= i < at ==> (#[trigger] bytes[i] == 32 || bytes[i] == 9 || bytes[i]
            == 10 || bytes[i] == 12 || bytes[i] == 13),
        at < bytes.len() ==> bytes[at] != 32 && bytes[at] != 9 && bytes[at] != 10 && bytes[at] != 12
            && bytes[at] != 13,
    ensures
        first_mark(bytes, from) == (if at < bytes.len() {
            Some(bytes[at])
        } else {
            None
        }),
    decreases at - from,
{
    if from < at {
        lemma_mark_found(bytes, from + 1, at);
    }
}

/// A token is long enough for its text if each byte of the text were escaped, with the
/// quotation marks around it, and a text is taken exactly if it is no longer than its limit.
pub proof fn law_texts_are_taken_up_to_their_limit(raw: Seq<char>, max_decoded: int)
    requires
        0 <= max_decoded <= 0x100_0000,
    ensures
        token_text(raw, max_decoded) matches Ok(words) ==> json_string(raw) == Ok::<_, Seq<char>>(
            words,
        ) && encode_utf8(words).len() <= max_decoded,
        starts_with_mark(raw, '"' as u8) && encode_utf8(raw).len() <= 6 * max_decoded + 2 && (
        json_string(raw) matches Ok(words) && encode_utf8(words).len() <= max_decoded)
            ==> token_text(raw, max_decoded) is Ok,
{
}

/// Positions are counted in UTF-16 units: a server may leave that out or say so, and
/// anything else is refused.
pub proof fn law_only_utf_16_is_spoken(token: Seq<char>)
    ensures
        encoding_fault(None) is None,
        encoding_fault(Some(token)) is None ==> json_string(token) == Ok::<_, Seq<char>>(
            "utf-16"@,
        ),
        json_string(token) == Ok::<_, Seq<char>>("utf-16"@) && token_charge(token, 32) is Some
            ==> encoding_fault(Some(token)) is None,
{
}

/// A request of a server is answered only within its limits.
pub proof fn law_calls_are_held_to_their_limits(
    method: Seq<char>,
    raw: Option<Seq<char>>,
    params: CallParams,
    root_uri: Result<Seq<char>, UriError>,
)
    requires
        call_answer(method, raw, params, root_uri) is Ok,
    ensures
        raw matches Some(words) ==> encode_utf8(words).len() <= 65536,
        method == "workspace/configuration"@ ==> (params matches CallParams::Configuration(items)
            && items@.len() <= 64),
        method == "workspace/workspaceFolders"@ ==> (raw matches Some(words) ==> words == "null"@),
        method == "workspace/applyEdit"@ ==> params is ApplyEdit,
        method == "client/registerCapability"@ || method == "client/unregisterCapability"@ ==> (
        params matches CallParams::Registrations(items) && items@.len() <= 64),
        method == "window/workDoneProgress/create"@ ==> params is Progress,
        method == "window/showMessageRequest"@ ==> (params matches CallParams::ShowMessage {
            kind,
            message,
            actions,
        } && 1 <= kind <= 4 && actions@.len() <= 64),
{
    reveal_strlit("workspace/configuration");
    reveal_strlit("workspace/workspaceFolders");
    reveal_strlit("workspace/applyEdit");
    reveal_strlit("client/registerCapability");
    reveal_strlit("client/unregisterCapability");
    reveal_strlit("window/workDoneProgress/create");
    reveal_strlit("window/showMessageRequest");
    assert("workspace/configuration"@.len() == 23);
    assert("workspace/workspaceFolders"@.len() == 26);
    assert("workspace/applyEdit"@.len() == 19);
    assert("client/registerCapability"@.len() == 25);
    assert("client/unregisterCapability"@.len() == 27);
    assert("window/workDoneProgress/create"@.len() == 30);
    assert("window/showMessageRequest"@.len() == 25);
    assert("client/registerCapability"@[0] == 'c' && "window/showMessageRequest"@[0] == 'w');
}

} // verus!
