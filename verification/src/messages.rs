//! The messages that are sent to a server.

use crate::document::NavigationOperation;
use crate::positions::Position;
use crate::protocol::{reply_record, CallReply, ReplyRecord, ServerCallError};
use crate::rpc::{IdRecord, RpcId};
use crate::text::{chars_of, copy_text, number_text, push_number};
use crate::values::{
    ends, first_member, hex_value, is_plain, lemma_fixed_values, lemma_last_item, lemma_last_member, lemma_list,
    lemma_more_items, lemma_more_members, lemma_negative_value, lemma_number_value, lemma_object,
    lemma_plain_value, lemma_written_value, member_text, quoted, read_char, read_code, read_json,
    read_rest, read_value, writes, writes_items, writes_members, Value,
};
use vstd::prelude::*;

verus! {

/// A small digit of a number in base sixteen.
pub open spec fn hex_digit(value: int) -> char {
    if value < 10 {
        (48 + value) as char
    } else {
        (87 + value) as char
    }
}

/// A character as it is written within a JSON string.
pub open spec fn escaped(character: char) -> Seq<char> {
    if character == '"' {
        seq!['\\', '"']
    } else if character == '\\' {
        seq!['\\', '\\']
    } else if character as int == 8 {
        seq!['\\', 'b']
    } else if character as int == 9 {
        seq!['\\', 't']
    } else if character as int == 10 {
        seq!['\\', 'n']
    } else if character as int == 12 {
        seq!['\\', 'f']
    } else if character as int == 13 {
        seq!['\\', 'r']
    } else if (character as int) < 32 {
        seq![
            '\\',
            'u',
            '0',
            '0',
            hex_digit(character as int / 16),
            hex_digit(character as int % 16),
        ]
    } else {
        seq![character]
    }
}

/// Characters as they are written within a JSON string.
pub open spec fn all_escaped(words: Seq<char>) -> Seq<char>
    decreases words.len(),
{
    if words.len() == 0 {
        Seq::empty()
    } else {
        all_escaped(words.drop_last()) + escaped(words.last())
    }
}

/// A text as it is written in JSON.
pub open spec fn json_text(words: Seq<char>) -> Seq<char> {
    seq!['"'] + all_escaped(words) + seq!['"']
}

fn digit_of(value: u32) -> (digit: char)
    requires
        value < 16,
    ensures
        digit == hex_digit(value as int),
{
    if value < 10 {
        (48 + value as u8) as char
    } else {
        (87 + value as u8) as char
    }
}

fn push_escaped(target: &mut String, character: char)
    ensures
        final(target)@ == old(target)@ + escaped(character),
{
    let ghost before = target@;
    let code: u32 = character as u32;
    if character == '"' || character == '\\' {
        target.push('\\');
        target.push(character);
    } else if code == 8 {
        target.push('\\');
        target.push('b');
    } else if code == 9 {
        target.push('\\');
        target.push('t');
    } else if code == 10 {
        target.push('\\');
        target.push('n');
    } else if code == 12 {
        target.push('\\');
        target.push('f');
    } else if code == 13 {
        target.push('\\');
        target.push('r');
    } else if code < 32 {
        target.push('\\');
        target.push('u');
        target.push('0');
        target.push('0');
        target.push(digit_of(code / 16));
        target.push(digit_of(code % 16));
    } else {
        target.push(character);
    }
    assert(target@ =~= before + escaped(character));
}

/// Writes a text as JSON does.
pub fn quote_json(words: &str) -> (token: String)
    ensures
        token@ == json_text(words@),
{
    let characters = chars_of(words);
    let mut token = String::new();
    token.push('"');
    let mut index: usize = 0;
    assert(token@ =~= seq!['"'] + all_escaped(words@.subrange(0, 0)));
    while index < characters.len()
        invariant
            index <= characters@.len(),
            characters@ == words@,
            token@ == seq!['"'] + all_escaped(words@.subrange(0, index as int)),
        decreases characters@.len() - index,
    {
        let ghost before = token@;
        push_escaped(&mut token, characters[index]);
        proof {
            let longer = words@.subrange(0, index + 1);
            assert(longer.drop_last() =~= words@.subrange(0, index as int));
            assert(longer.last() == characters@[index as int]);
            assert(token@ =~= seq!['"'] + all_escaped(longer));
        }
        index = index + 1;
    }
    assert(words@.subrange(0, words@.len() as int) =~= words@);
    token.push('"');
    assert(token@ =~= json_text(words@));
    token
}

/// A number as it is written in JSON.
pub open spec fn integer_text(value: int) -> Seq<char> {
    if value < 0 {
        "-"@ + number_text((-value) as nat)
    } else {
        number_text(value as nat)
    }
}

fn push_integer(target: &mut String, value: i32)
    ensures
        final(target)@ == old(target)@ + integer_text(value as int),
{
    let ghost before = target@;
    if value < 0 {
        target.push_str("-");
        let size: u64 = (-(value as i64)) as u64;
        push_number(target, size);
        assert(target@ =~= before + ("-"@ + number_text(size as nat)));
    } else {
        push_number(target, value as u64);
    }
}

/// An identifier as it is written.
pub open spec fn id_text(id: IdRecord) -> Seq<char> {
    match id {
        IdRecord::Signed(value) => integer_text(value as int),
        IdRecord::Words(words) => json_text(words),
    }
}

fn push_id(target: &mut String, id: &RpcId)
    ensures
        final(target)@ == old(target)@ + id_text(id@),
{
    match id {
        RpcId::Signed(value) => {
            push_integer(target, *value);
        },
        RpcId::String(words) => {
            let token = quote_json(words.as_str());
            target.push_str(token.as_str());
        },
    }
}

/// The first message of a session.
pub open spec fn initialize_text(
    id: IdRecord,
    process_id: nat,
    uri: Seq<char>,
    folder: Seq<char>,
) -> Seq<char> {
    "{\"id\":"@ + id_text(id)
        + ",\"jsonrpc\":\"2.0\",\"method\":\"initialize\",\"params\":{\"capabilities\":{\"general\":{\"positionEncodings\":[\"utf-16\"]}},\"clientInfo\":{\"name\":\"latte-lens\"},\"processId\":"@
        + number_text(process_id) + ",\"rootUri\":"@ + json_text(uri)
        + ",\"workspaceFolders\":[{\"name\":"@ + json_text(folder) + ",\"uri\":"@ + json_text(uri)
        + "}]}}"@
}

pub fn initialize_body(id: &RpcId, process_id: u32, uri: &str, folder: &str) -> (body: String)
    ensures
        body@ == initialize_text(id@, process_id as nat, uri@, folder@),
{
    let root = quote_json(uri);
    let name = quote_json(folder);
    let mut body = copy_text("{\"id\":");
    push_id(&mut body, id);
    body.push_str(
        ",\"jsonrpc\":\"2.0\",\"method\":\"initialize\",\"params\":{\"capabilities\":{\"general\":{\"positionEncodings\":[\"utf-16\"]}},\"clientInfo\":{\"name\":\"latte-lens\"},\"processId\":",
    );
    push_number(&mut body, process_id as u64);
    body.push_str(",\"rootUri\":");
    body.push_str(root.as_str());
    body.push_str(",\"workspaceFolders\":[{\"name\":");
    body.push_str(name.as_str());
    body.push_str(",\"uri\":");
    body.push_str(root.as_str());
    body.push_str("}]}}");
    body
}

pub open spec fn initialized_text() -> Seq<char> {
    "{\"jsonrpc\":\"2.0\",\"method\":\"initialized\",\"params\":{}}"@
}

pub fn initialized_body() -> (body: String)
    ensures
        body@ == initialized_text(),
{
    copy_text("{\"jsonrpc\":\"2.0\",\"method\":\"initialized\",\"params\":{}}")
}

/// The method that asks for an operation.
pub open spec fn method_text(operation: NavigationOperation) -> Seq<char> {
    match operation {
        NavigationOperation::Definition => "textDocument/definition"@,
        NavigationOperation::References => "textDocument/references"@,
        NavigationOperation::Implementations => "textDocument/implementation"@,
        NavigationOperation::DocumentSymbols => "textDocument/documentSymbol"@,
    }
}

pub fn operation_method(operation: NavigationOperation) -> (method: &'static str)
    ensures
        method@ == method_text(operation),
{
    match operation {
        NavigationOperation::Definition => "textDocument/definition",
        NavigationOperation::References => "textDocument/references",
        NavigationOperation::Implementations => "textDocument/implementation",
        NavigationOperation::DocumentSymbols => "textDocument/documentSymbol",
    }
}

/// What comes before the document: references ask for the declaration too, and
/// the symbols of a document need no position.
pub open spec fn place_text(operation: NavigationOperation, position: Position) -> Seq<char> {
    let place = "\"position\":{\"character\":"@ + number_text(position.character as nat)
        + ",\"line\":"@ + number_text(position.line as nat) + "},"@;
    match operation {
        NavigationOperation::DocumentSymbols => Seq::empty(),
        NavigationOperation::References => "\"context\":{\"includeDeclaration\":true},"@ + place,
        _ => place,
    }
}

/// A request for an operation.
pub open spec fn request_text(
    id: IdRecord,
    operation: NavigationOperation,
    uri: Seq<char>,
    position: Position,
) -> Seq<char> {
    "{\"id\":"@ + id_text(id) + ",\"jsonrpc\":\"2.0\",\"method\":\""@ + method_text(operation)
        + "\",\"params\":{"@ + place_text(operation, position) + "\"textDocument\":{\"uri\":"@
        + json_text(uri) + "}}}"@
}

pub fn request_body(id: &RpcId, operation: NavigationOperation, uri: &str, position: Position) -> (body:
    String)
    ensures
        body@ == request_text(id@, operation, uri@, position),
{
    let token = quote_json(uri);
    let mut body = copy_text("{\"id\":");
    push_id(&mut body, id);
    body.push_str(",\"jsonrpc\":\"2.0\",\"method\":\"");
    body.push_str(operation_method(operation));
    body.push_str("\",\"params\":{");
    let ghost before = body@;
    if operation == NavigationOperation::References {
        body.push_str("\"context\":{\"includeDeclaration\":true},");
    }
    if operation != NavigationOperation::DocumentSymbols {
        body.push_str("\"position\":{\"character\":");
        push_number(&mut body, position.character as u64);
        body.push_str(",\"line\":");
        push_number(&mut body, position.line as u64);
        body.push_str("},");
    }
    assert(body@ =~= before + place_text(operation, position));
    body.push_str("\"textDocument\":{\"uri\":");
    body.push_str(token.as_str());
    body.push_str("}}}");
    body
}

pub open spec fn cancel_text(id: IdRecord) -> Seq<char> {
    "{\"jsonrpc\":\"2.0\",\"method\":\"$/cancelRequest\",\"params\":{\"id\":"@ + id_text(id)
        + "}}"@
}

pub fn cancel_body(id: &RpcId) -> (body: String)
    ensures
        body@ == cancel_text(id@),
{
    let mut body = copy_text(
        "{\"jsonrpc\":\"2.0\",\"method\":\"$/cancelRequest\",\"params\":{\"id\":",
    );
    push_id(&mut body, id);
    body.push_str("}}");
    body
}

pub open spec fn close_text(uri: Seq<char>) -> Seq<char> {
    "{\"jsonrpc\":\"2.0\",\"method\":\"textDocument/didClose\",\"params\":{\"textDocument\":{\"uri\":"@
        + json_text(uri) + "}}}"@
}

pub fn close_body(uri: &str) -> (body: String)
    ensures
        body@ == close_text(uri@),
{
    let token = quote_json(uri);
    let mut body = copy_text(
        "{\"jsonrpc\":\"2.0\",\"method\":\"textDocument/didClose\",\"params\":{\"textDocument\":{\"uri\":",
    );
    body.push_str(token.as_str());
    body.push_str("}}}");
    body
}

pub open spec fn open_text(
    language_id: Seq<char>,
    words: Seq<char>,
    uri: Seq<char>,
    version: int,
) -> Seq<char> {
    "{\"jsonrpc\":\"2.0\",\"method\":\"textDocument/didOpen\",\"params\":{\"textDocument\":{\"languageId\":"@
        + json_text(language_id) + ",\"text\":"@ + json_text(words) + ",\"uri\":"@ + json_text(uri)
        + ",\"version\":"@ + integer_text(version) + "}}}"@
}

pub fn open_body(language_id: &str, words: &str, uri: &str, version: i32) -> (body: String)
    ensures
        body@ == open_text(language_id@, words@, uri@, version as int),
{
    let language = quote_json(language_id);
    let content = quote_json(words);
    let token = quote_json(uri);
    let mut body = copy_text(
        "{\"jsonrpc\":\"2.0\",\"method\":\"textDocument/didOpen\",\"params\":{\"textDocument\":{\"languageId\":",
    );
    body.push_str(language.as_str());
    body.push_str(",\"text\":");
    body.push_str(content.as_str());
    body.push_str(",\"uri\":");
    body.push_str(token.as_str());
    body.push_str(",\"version\":");
    push_integer(&mut body, version);
    body.push_str("}}}");
    body
}

pub open spec fn shutdown_text(id: IdRecord) -> Seq<char> {
    "{\"id\":"@ + id_text(id) + ",\"jsonrpc\":\"2.0\",\"method\":\"shutdown\",\"params\":null}"@
}

pub fn shutdown_body(id: &RpcId) -> (body: String)
    ensures
        body@ == shutdown_text(id@),
{
    let mut body = copy_text("{\"id\":");
    push_id(&mut body, id);
    body.push_str(",\"jsonrpc\":\"2.0\",\"method\":\"shutdown\",\"params\":null}");
    body
}

pub open spec fn exit_text() -> Seq<char> {
    "{\"jsonrpc\":\"2.0\",\"method\":\"exit\",\"params\":null}"@
}

pub fn exit_body() -> (body: String)
    ensures
        body@ == exit_text(),
{
    copy_text("{\"jsonrpc\":\"2.0\",\"method\":\"exit\",\"params\":null}")
}

/// As many times nothing, with commas between.
pub open spec fn nulls_text(count: nat) -> Seq<char>
    decreases count,
{
    if count == 0 {
        Seq::empty()
    } else if count == 1 {
        "null"@
    } else {
        nulls_text((count - 1) as nat) + ",null"@
    }
}

/// The result in an answer.
pub open spec fn reply_text(reply: ReplyRecord) -> Seq<char> {
    match reply {
        ReplyRecord::Null => "null"@,
        ReplyRecord::Nulls(count) => "["@ + nulls_text(count) + "]"@,
        ReplyRecord::Folder(uri) => "[{\"name\":\"workspace\",\"uri\":"@ + json_text(uri) + "}]"@,
        ReplyRecord::EditRefused =>
            "{\"applied\":false,\"failureReason\":\"Latte Lens is read-only\"}"@,
    }
}

/// The answer to a request of a server.
pub open spec fn response_text(
    id: IdRecord,
    outcome: Result<ReplyRecord, ServerCallError>,
) -> Seq<char> {
    match outcome {
        Ok(reply) => "{\"id\":"@ + id_text(id) + ",\"jsonrpc\":\"2.0\",\"result\":"@ + reply_text(
            reply,
        ) + "}"@,
        Err(ServerCallError::InvalidParams) =>
            "{\"error\":{\"code\":-32602,\"message\":\"Invalid params\"},\"id\":"@ + id_text(id)
            + ",\"jsonrpc\":\"2.0\"}"@,
        Err(ServerCallError::MethodNotFound) =>
            "{\"error\":{\"code\":-32601,\"message\":\"Method not found\"},\"id\":"@ + id_text(id)
            + ",\"jsonrpc\":\"2.0\"}"@,
    }
}

fn push_nulls(target: &mut String, count: usize)
    ensures
        final(target)@ == old(target)@ + nulls_text(count as nat),
{
    let ghost before = target@;
    if count == 0 {
        assert(target@ =~= before + nulls_text(0));
        return ;
    }
    target.push_str("null");
    let mut written: usize = 1;
    while written < count
        invariant
            1 <= written <= count,
            target@ == before + nulls_text(written as nat),
        decreases count - written,
    {
        target.push_str(",null");
        assert(target@ =~= before + nulls_text((written + 1) as nat));
        written = written + 1;
    }
}

pub fn response_body(id: &RpcId, outcome: &Result<CallReply, ServerCallError>) -> (body: String)
    ensures
        body@ == response_text(id@, reply_record(*outcome)),
{
    match outcome {
        Ok(reply) => {
            let mut body = copy_text("{\"id\":");
            push_id(&mut body, id);
            body.push_str(",\"jsonrpc\":\"2.0\",\"result\":");
            let ghost before = body@;
            match reply {
                CallReply::Null => {
                    body.push_str("null");
                },
                CallReply::Nulls(count) => {
                    body.push_str("[");
                    push_nulls(&mut body, *count);
                    body.push_str("]");
                },
                CallReply::Folder(uri) => {
                    let token = quote_json(uri.as_str());
                    body.push_str("[{\"name\":\"workspace\",\"uri\":");
                    body.push_str(token.as_str());
                    body.push_str("}]");
                },
                CallReply::EditRefused => {
                    body.push_str(
                        "{\"applied\":false,\"failureReason\":\"Latte Lens is read-only\"}",
                    );
                },
            }
            assert(body@ =~= before + reply_text(reply@));
            body.push_str("}");
            body
        },
        Err(ServerCallError::InvalidParams) => {
            let mut body = copy_text(
                "{\"error\":{\"code\":-32602,\"message\":\"Invalid params\"},\"id\":",
            );
            push_id(&mut body, id);
            body.push_str(",\"jsonrpc\":\"2.0\"}");
            body
        },
        Err(ServerCallError::MethodNotFound) => {
            let mut body = copy_text(
                "{\"error\":{\"code\":-32601,\"message\":\"Method not found\"},\"id\":",
            );
            push_id(&mut body, id);
            body.push_str(",\"jsonrpc\":\"2.0\"}");
            body
        },
    }
}

// Reading back ----------------------------------------------------------------------------

proof fn lemma_escaped_apart(front: Seq<char>, back: Seq<char>)
    ensures
        all_escaped(front + back) == all_escaped(front) + all_escaped(back),
    decreases back.len(),
{
    let whole = front + back;
    if back.len() == 0 {
        assert(whole =~= front);
        assert(all_escaped(front) + all_escaped(back) =~= all_escaped(front));
    } else {
        lemma_escaped_apart(front, back.drop_last());
        assert(whole.drop_last() =~= front + back.drop_last());
        assert(whole.last() == back.last());
        assert(all_escaped(whole) =~= all_escaped(front) + all_escaped(back));
    }
}

proof fn lemma_escape_reads_back(character: char, rest: Seq<char>)
    ensures
        read_char(escaped(character) + rest) == Some((character, escaped(character).len() as int)),
        escaped(character).len() > 0,
        escaped(character)[0] != '"',
{
    let s = escaped(character) + rest;
    let code = character as int;
    assert(s[0] == escaped(character)[0]);
    if escaped(character).len() > 1 {
        assert(s[1] == escaped(character)[1]);
    }
    if escaped(character).len() == 6 {
        let digits = s.skip(2);
        assert(digits[0] == '0');
        assert(digits[1] == '0');
        assert(digits[2] == hex_digit(code / 16));
        assert(digits[3] == hex_digit(code % 16));
        assert(hex_value(hex_digit(code / 16)) == Some(code / 16));
        assert(hex_value(hex_digit(code % 16)) == Some(code % 16));
        assert(read_code(digits) == Some(code));
    }
}

proof fn lemma_rest_reads_back(words: Seq<char>, rest: Seq<char>, fuel: nat)
    requires
        fuel > words.len(),
    ensures
        read_rest(all_escaped(words) + seq!['"'] + rest, fuel) == Some((words, rest)),
    decreases words.len(),
{
    let s = all_escaped(words) + seq!['"'] + rest;
    if words.len() == 0 {
        assert(s.skip(1) =~= rest);
        assert(words =~= Seq::<char>::empty());
    } else {
        let first = seq![words[0]];
        let tail = words.skip(1);
        assert(first + tail =~= words);
        lemma_escaped_apart(first, tail);
        assert(first.drop_last() =~= Seq::<char>::empty());
        assert(all_escaped(first.drop_last()) =~= Seq::<char>::empty());
        assert(all_escaped(first) =~= escaped(words[0]));
        let later = all_escaped(tail) + seq!['"'] + rest;
        assert(s =~= escaped(words[0]) + later);
        lemma_escape_reads_back(words[0], later);
        assert(s.skip(escaped(words[0]).len() as int) =~= later);
        assert(s[0] == escaped(words[0])[0]);
        lemma_rest_reads_back(tail, rest, (fuel - 1) as nat);
    }
}

proof fn lemma_more_escaped(words: Seq<char>)
    ensures
        all_escaped(words).len() >= words.len(),
    decreases words.len(),
{
    if words.len() > 0 {
        lemma_more_escaped(words.drop_last());
    }
}

proof fn lemma_text_value(words: Seq<char>)
    ensures
        writes(json_text(words), Value::Text(words)),
{
    let t = json_text(words);
    assert forall|rest: Seq<char>, fuel: nat| ends(rest) && fuel >= t.len() implies #[trigger] read_value(
        t + rest,
        fuel,
    ) == Some((Value::Text(words), rest)) by {
        let whole = t + rest;
        lemma_more_escaped(words);
        assert(whole[0] == '"');
        assert(whole.skip(1) =~= all_escaped(words) + seq!['"'] + rest);
        lemma_rest_reads_back(words, rest, whole.len());
    }
}

/// A text that was written as JSON is read back, whatever characters it holds.
pub proof fn law_quoted_texts_read_back(words: Seq<char>)
    ensures
        read_json(json_text(words)) == Some(Value::Text(words)),
{
    lemma_text_value(words);
    lemma_written_value(json_text(words), Value::Text(words));
}

/// What an identifier is in a message.
pub open spec fn id_value(id: IdRecord) -> Value {
    match id {
        IdRecord::Signed(value) => Value::Number(value as int),
        IdRecord::Words(words) => Value::Text(words),
    }
}

proof fn lemma_integer_value(value: int)
    ensures
        writes(integer_text(value), Value::Number(value)),
{
    if value < 0 {
        reveal_strlit("-");
        lemma_negative_value((-value) as nat);
        assert("-"@ =~= seq!['-']);
    } else {
        lemma_number_value(value as nat);
    }
}

proof fn lemma_id_value(id: IdRecord)
    ensures
        writes(id_text(id), id_value(id)),
{
    match id {
        IdRecord::Signed(value) => lemma_integer_value(value as int),
        IdRecord::Words(words) => lemma_text_value(words),
    }
}

/// One member and the end of its object.
spec fn closed_member(name: Seq<char>, text: Seq<char>) -> Seq<char> {
    member_text(name, text) + seq!['}']
}

/// One member in front of others.
spec fn with_member(name: Seq<char>, text: Seq<char>, later: Seq<char>) -> Seq<char> {
    member_text(name, text) + seq![','] + later
}

/// An object of one member.
proof fn lemma_single(name: Seq<char>, text: Seq<char>, value: Value)
    requires
        is_plain(name),
        writes(text, value),
    ensures
        writes(seq!['{'] + closed_member(name, text), Value::Object(seq![(name, value)])),
{
    lemma_last_member(name, text, value);
    lemma_object(closed_member(name, text), seq![(name, value)]);
}

/// What a request says of its operation: the document, and the place in it unless the
/// whole document is asked about. References ask for the declaration too.
pub open spec fn request_params(
    operation: NavigationOperation,
    uri: Seq<char>,
    position: Position,
) -> Seq<(Seq<char>, Value)> {
    let place = (
        "position"@,
        Value::Object(
            seq![
                ("character"@, Value::Number(position.character as int)),
                ("line"@, Value::Number(position.line as int)),
            ],
        ),
    );
    let document = ("textDocument"@, Value::Object(seq![("uri"@, Value::Text(uri))]));
    match operation {
        NavigationOperation::DocumentSymbols => seq![document],
        NavigationOperation::References => seq![
            ("context"@, Value::Object(seq![("includeDeclaration"@, Value::Bool(true))])),
            place,
            document,
        ],
        _ => seq![place, document],
    }
}

/// What a request asks of a server.
pub open spec fn request_value(
    id: IdRecord,
    operation: NavigationOperation,
    uri: Seq<char>,
    position: Position,
) -> Value {
    Value::Object(
        seq![
            ("id"@, id_value(id)),
            ("jsonrpc"@, Value::Text("2.0"@)),
            (
                "method"@,
                Value::Text(
                    match operation {
                        NavigationOperation::Definition => "textDocument/definition"@,
                        NavigationOperation::References => "textDocument/references"@,
                        NavigationOperation::Implementations => "textDocument/implementation"@,
                        NavigationOperation::DocumentSymbols => "textDocument/documentSymbol"@,
                    },
                ),
            ),
            ("params"@, Value::Object(request_params(operation, uri, position))),
        ],
    )
}

proof fn lemma_request_names()
    ensures
        is_plain("id"@),
        is_plain("jsonrpc"@),
        is_plain("2.0"@),
        is_plain("method"@),
        is_plain("params"@),
        is_plain("position"@),
        is_plain("character"@),
        is_plain("line"@),
        is_plain("textDocument"@),
        is_plain("uri"@),
        is_plain("context"@),
        is_plain("includeDeclaration"@),
        is_plain("textDocument/definition"@),
        is_plain("textDocument/references"@),
        is_plain("textDocument/implementation"@),
        is_plain("textDocument/documentSymbol"@),
{
    reveal_strlit("id");
    reveal_strlit("jsonrpc");
    reveal_strlit("2.0");
    reveal_strlit("method");
    reveal_strlit("params");
    reveal_strlit("position");
    reveal_strlit("character");
    reveal_strlit("line");
    reveal_strlit("textDocument");
    reveal_strlit("uri");
    reveal_strlit("context");
    reveal_strlit("includeDeclaration");
    reveal_strlit("textDocument/definition");
    reveal_strlit("textDocument/references");
    reveal_strlit("textDocument/implementation");
    reveal_strlit("textDocument/documentSymbol");
}

proof fn lemma_place_value(position: Position)
    ensures
        ({
            let place = seq!['{'] + with_member(
                "character"@,
                number_text(position.character as nat),
                closed_member("line"@, number_text(position.line as nat)),
            );
            &&& writes(
                place,
                Value::Object(
                    seq![
                        ("character"@, Value::Number(position.character as int)),
                        ("line"@, Value::Number(position.line as int)),
                    ],
                ),
            )
            &&& place_text(NavigationOperation::Definition, position) == member_text(
                "position"@,
                place,
            ) + seq![',']
        }),
{
    lemma_request_names();
    let row = number_text(position.line as nat);
    let column = number_text(position.character as nat);
    let across = ("character"@, Value::Number(position.character as int));
    let down = ("line"@, Value::Number(position.line as int));
    lemma_number_value(position.line as nat);
    lemma_number_value(position.character as nat);
    lemma_last_member("line"@, row, down.1);
    let last = closed_member("line"@, row);
    lemma_more_members("character"@, column, across.1, last, seq![down]);
    let members = with_member("character"@, column, last);
    assert(seq![across] + seq![down] =~= seq![across, down]);
    lemma_object(members, seq![across, down]);
    reveal_strlit("\"position\":{\"character\":");
    reveal_strlit(",\"line\":");
    reveal_strlit("},");
    reveal_strlit("position");
    reveal_strlit("character");
    reveal_strlit("line");
    assert(place_text(NavigationOperation::Definition, position) =~= member_text(
        "position"@,
        seq!['{'] + members,
    ) + seq![',']);
}

proof fn lemma_document_value(uri: Seq<char>)
    ensures
        writes_members(
            "\"textDocument\":{\"uri\":"@ + json_text(uri) + seq!['}', '}'],
            seq![("textDocument"@, Value::Object(seq![("uri"@, Value::Text(uri))]))],
        ),
{
    lemma_request_names();
    lemma_text_value(uri);
    let document = Value::Object(seq![("uri"@, Value::Text(uri))]);
    let words = seq!['{'] + closed_member("uri"@, json_text(uri));
    lemma_single("uri"@, json_text(uri), Value::Text(uri));
    lemma_last_member("textDocument"@, words, document);
    reveal_strlit("\"textDocument\":{\"uri\":");
    reveal_strlit("textDocument");
    reveal_strlit("uri");
    assert("\"textDocument\":{\"uri\":"@ + json_text(uri) + seq!['}', '}'] =~= closed_member(
        "textDocument"@,
        words,
    ));
}

proof fn lemma_context_value(later: Seq<char>, members: Seq<(Seq<char>, Value)>)
    requires
        writes_members(later, members),
    ensures
        writes_members(
            "\"context\":{\"includeDeclaration\":true},"@ + later,
            seq![
                ("context"@, Value::Object(seq![("includeDeclaration"@, Value::Bool(true))])),
            ] + members,
        ),
{
    lemma_request_names();
    lemma_fixed_values();
    let yes = seq!['t', 'r', 'u', 'e'];
    let words = seq!['{'] + closed_member("includeDeclaration"@, yes);
    lemma_single("includeDeclaration"@, yes, Value::Bool(true));
    lemma_more_members(
        "context"@,
        words,
        Value::Object(seq![("includeDeclaration"@, Value::Bool(true))]),
        later,
        members,
    );
    reveal_strlit("\"context\":{\"includeDeclaration\":true},");
    reveal_strlit("context");
    reveal_strlit("includeDeclaration");
    assert("\"context\":{\"includeDeclaration\":true},"@ =~= member_text("context"@, words)
        + seq![',']);
}

proof fn lemma_params_value(operation: NavigationOperation, uri: Seq<char>, position: Position)
    ensures
        writes(
            seq!['{'] + (place_text(operation, position) + "\"textDocument\":{\"uri\":"@ + json_text(
                uri,
            ) + seq!['}', '}']),
            Value::Object(request_params(operation, uri, position)),
        ),
{
    lemma_document_value(uri);
    let last = "\"textDocument\":{\"uri\":"@ + json_text(uri) + seq!['}', '}'];
    let document = ("textDocument"@, Value::Object(seq![("uri"@, Value::Text(uri))]));
    let whole = place_text(operation, position) + "\"textDocument\":{\"uri\":"@ + json_text(uri)
        + seq!['}', '}'];
    assert(whole =~= place_text(operation, position) + last);
    if operation is DocumentSymbols {
        assert(whole =~= last);
        lemma_object(last, seq![document]);
    } else {
        lemma_request_names();
        lemma_place_value(position);
        let place = (
            "position"@,
            Value::Object(
                seq![
                    ("character"@, Value::Number(position.character as int)),
                    ("line"@, Value::Number(position.line as int)),
                ],
            ),
        );
        let words = seq!['{'] + with_member(
            "character"@,
            number_text(position.character as nat),
            closed_member("line"@, number_text(position.line as nat)),
        );
        lemma_more_members("position"@, words, place.1, last, seq![document]);
        assert(seq![place] + seq![document] =~= seq![place, document]);
        let placed = place_text(NavigationOperation::Definition, position) + last;
        if operation is References {
            lemma_context_value(placed, seq![place, document]);
            assert(whole =~= "\"context\":{\"includeDeclaration\":true},"@ + placed);
            let context = (
                "context"@,
                Value::Object(seq![("includeDeclaration"@, Value::Bool(true))]),
            );
            assert(seq![context] + seq![place, document] =~= seq![context, place, document]);
            lemma_object(whole, seq![context, place, document]);
        } else {
            assert(whole =~= placed);
            lemma_object(whole, seq![place, document]);
        }
    }
}

/// A request is read as what it was made from: its number, the method of its operation,
/// the document, and the line and the character of the position.
pub proof fn law_requests_read_back(
    id: IdRecord,
    operation: NavigationOperation,
    uri: Seq<char>,
    position: Position,
)
    ensures
        read_json(request_text(id, operation, uri, position)) == Some(
            request_value(id, operation, uri, position),
        ),
{
    lemma_request_names();
    lemma_params_value(operation, uri, position);
    let method = match operation {
        NavigationOperation::Definition => "textDocument/definition"@,
        NavigationOperation::References => "textDocument/references"@,
        NavigationOperation::Implementations => "textDocument/implementation"@,
        NavigationOperation::DocumentSymbols => "textDocument/documentSymbol"@,
    };
    let params = seq!['{'] + (place_text(operation, position) + "\"textDocument\":{\"uri\":"@
        + json_text(uri) + seq!['}', '}']);
    lemma_message(id, method, params, Value::Object(request_params(operation, uri, position)));
    lemma_wrapped(id_text(id), method, place_text(operation, position), json_text(uri));
    lemma_written_value(
        request_text(id, operation, uri, position),
        request_value(id, operation, uri, position),
    );
}

proof fn lemma_wrapped(
    number: Seq<char>,
    method: Seq<char>,
    place: Seq<char>,
    document: Seq<char>,
)
    ensures
        "{\"id\":"@ + number + ",\"jsonrpc\":\"2.0\",\"method\":\""@ + method
            + "\",\"params\":{"@ + place + "\"textDocument\":{\"uri\":"@ + document + "}}}"@
            == message_text(
            number,
            method,
            seq!['{'] + (place + "\"textDocument\":{\"uri\":"@ + document + seq!['}', '}']),
        ),
{
    reveal_strlit("{\"id\":");
    reveal_strlit("\",\"params\":{");
    reveal_strlit("\",\"params\":");
    reveal_strlit("}}}");
    assert("{\"id\":"@ =~= seq!['{', '"', 'i', 'd', '"', ':']);
    assert("\",\"params\":{"@ =~= "\",\"params\":"@ + seq!['{']);
    assert("}}}"@ =~= seq!['}', '}', '}']);
    assert("{\"id\":"@ + number + ",\"jsonrpc\":\"2.0\",\"method\":\""@ + method
        + "\",\"params\":{"@ + place + "\"textDocument\":{\"uri\":"@ + document + "}}}"@
        =~= message_text(
        number,
        method,
        seq!['{'] + (place + "\"textDocument\":{\"uri\":"@ + document + seq!['}', '}']),
    ));
}

/// A message with a number, a method and parameters.
spec fn message_text(number: Seq<char>, method: Seq<char>, params: Seq<char>) -> Seq<char> {
    seq!['{', '"', 'i', 'd', '"', ':'] + number + ",\"jsonrpc\":\"2.0\",\"method\":\""@
        + method + "\",\"params\":"@ + params + seq!['}']
}

proof fn lemma_message(id: IdRecord, method: Seq<char>, params: Seq<char>, value: Value)
    requires
        is_plain(method),
        writes(params, value),
    ensures
        writes(
            message_text(id_text(id), method, params),
            Value::Object(
                seq![
                    ("id"@, id_value(id)),
                    ("jsonrpc"@, Value::Text("2.0"@)),
                    ("method"@, Value::Text(method)),
                    ("params"@, value),
                ],
            ),
        ),
{
    lemma_request_names();
    lemma_id_value(id);
    let first = ("id"@, id_value(id));
    let second = ("jsonrpc"@, Value::Text("2.0"@));
    let third = ("method"@, Value::Text(method));
    let fourth = ("params"@, value);
    lemma_last_member("params"@, params, value);
    let last = closed_member("params"@, params);
    lemma_plain_value(method);
    lemma_more_members("method"@, quoted(method), third.1, last, seq![fourth]);
    let called = with_member("method"@, quoted(method), last);
    assert(seq![third] + seq![fourth] =~= seq![third, fourth]);
    lemma_plain_value("2.0"@);
    lemma_more_members("jsonrpc"@, quoted("2.0"@), second.1, called, seq![third, fourth]);
    let versioned = with_member("jsonrpc"@, quoted("2.0"@), called);
    assert(seq![second] + seq![third, fourth] =~= seq![second, third, fourth]);
    lemma_more_members("id"@, id_text(id), first.1, versioned, seq![second, third, fourth]);
    let numbered = with_member("id"@, id_text(id), versioned);
    assert(seq![first] + seq![second, third, fourth] =~= seq![first, second, third, fourth]);
    lemma_object(numbered, seq![first, second, third, fourth]);
    reveal_strlit(",\"jsonrpc\":\"2.0\",\"method\":\"");
    reveal_strlit("\",\"params\":");
    reveal_strlit("id");
    reveal_strlit("jsonrpc");
    reveal_strlit("2.0");
    reveal_strlit("method");
    reveal_strlit("params");
    assert(message_text(id_text(id), method, params) =~= seq!['{'] + numbered);
}

proof fn lemma_found(members: Seq<(Seq<char>, Value)>, name: Seq<char>, at: int)
    requires
        0 <= at < members.len(),
        members[at].0 == name,
        forall|i: int| 0 <= i < at ==> (#[trigger] members[i]).0 != name,
    ensures
        first_member(members, name) == Some(members[at].1),
    decreases members.len(),
{
    if at > 0 {
        let tail = members.drop_first();
        assert(members[0].0 != name);
        assert forall|i: int| 0 <= i < at - 1 implies (#[trigger] tail[i]).0 != name by {
            assert(tail[i] == members[i + 1]);
        }
        lemma_found(tail, name, at - 1);
    }
}

proof fn lemma_names_differ()
    ensures
        "id"@ != "jsonrpc"@,
        "id"@ != "method"@,
        "id"@ != "params"@,
        "jsonrpc"@ != "method"@,
        "jsonrpc"@ != "params"@,
        "method"@ != "params"@,
        "character"@ != "line"@,
        "position"@ != "textDocument"@,
        "context"@ != "position"@,
        "context"@ != "textDocument"@,
{
    reveal_strlit("id");
    reveal_strlit("jsonrpc");
    reveal_strlit("method");
    reveal_strlit("params");
    reveal_strlit("position");
    reveal_strlit("character");
    reveal_strlit("line");
    reveal_strlit("textDocument");
    reveal_strlit("context");
    assert("id"@[0] == 'i' && "jsonrpc"@[0] == 'j' && "method"@[0] == 'm' && "params"@[0] == 'p');
    assert("character"@[0] == 'c' && "line"@[0] == 'l');
    assert("position"@[0] == 'p' && "textDocument"@[0] == 't' && "context"@[0] == 'c');
}

/// A server that reads a request finds the document it is about, the method of the
/// operation and, for every operation but the symbols of a whole document, the very line
/// and character that the cursor is at.
pub proof fn law_requests_are_about_their_place(
    id: IdRecord,
    operation: NavigationOperation,
    uri: Seq<char>,
    position: Position,
)
    ensures
        ({
            let message = read_json(request_text(id, operation, uri, position));
            &&& message matches Some(request)
            &&& request.member("method"@) == Some(
                Value::Text(
                    if operation is Definition {
                        "textDocument/definition"@
                    } else if operation is References {
                        "textDocument/references"@
                    } else if operation is Implementations {
                        "textDocument/implementation"@
                    } else {
                        "textDocument/documentSymbol"@
                    },
                ),
            )
            &&& id matches IdRecord::Signed(number) ==> request.member("id"@) == Some(
                Value::Number(number as int),
            )
            &&& id matches IdRecord::Words(words) ==> request.member("id"@) == Some(
                Value::Text(words),
            )
            &&& request.member("params"@) matches Some(params)
            &&& params.member("textDocument"@) matches Some(document)
            &&& document.member("uri"@) == Some(Value::Text(uri))
            &&& operation is DocumentSymbols <==> params.member("position"@) is None
            &&& operation is References <==> params.member("context"@) is Some
            &&& params.member("position"@) matches Some(place) ==> {
                &&& place.member("line"@) == Some(Value::Number(position.line as int))
                &&& place.member("character"@) == Some(Value::Number(position.character as int))
            }
            &&& params.member("context"@) matches Some(context) ==> context.member(
                "includeDeclaration"@,
            ) == Some(Value::Bool(true))
        }),
{
    law_requests_read_back(id, operation, uri, position);
    lemma_names_differ();
    let request = request_value(id, operation, uri, position);
    let members = request->Object_0;
    lemma_found(members, "id"@, 0);
    lemma_found(members, "method"@, 2);
    lemma_found(members, "params"@, 3);
    let params = request_params(operation, uri, position);
    let last = params.len() - 1;
    lemma_found(params, "textDocument"@, last);
    lemma_found(seq![("uri"@, Value::Text(uri))], "uri"@, 0);
    if operation is DocumentSymbols {
        assert(params.drop_first() =~= Seq::<(Seq<char>, Value)>::empty());
        assert(first_member(params.drop_first(), "position"@) is None);
        assert(first_member(params.drop_first(), "context"@) is None);
    } else {
        lemma_found(params, "position"@, last - 1);
        let place = params[last - 1].1->Object_0;
        lemma_found(place, "character"@, 0);
        lemma_found(place, "line"@, 1);
        if operation is References {
            lemma_found(params, "context"@, 0);
            let context = params[0].1->Object_0;
            lemma_found(context, "includeDeclaration"@, 0);
        } else {
            let none = params.drop_first().drop_first();
            assert(none =~= Seq::<(Seq<char>, Value)>::empty());
            assert(first_member(none, "context"@) is None);
            assert(first_member(params.drop_first(), "context"@) is None);
        }
    }
}

/// A message without a number.
spec fn notice_text(method: Seq<char>, params: Seq<char>) -> Seq<char> {
    "{\"jsonrpc\":\"2.0\",\"method\":\""@ + method + "\",\"params\":"@ + params + seq!['}']
}

proof fn lemma_notice(method: Seq<char>, params: Seq<char>, value: Value)
    requires
        is_plain(method),
        writes(params, value),
    ensures
        read_json(notice_text(method, params)) == Some(
            Value::Object(
                seq![
                    ("jsonrpc"@, Value::Text("2.0"@)),
                    ("method"@, Value::Text(method)),
                    ("params"@, value),
                ],
            ),
        ),
{
    lemma_request_names();
    let second = ("jsonrpc"@, Value::Text("2.0"@));
    let third = ("method"@, Value::Text(method));
    let fourth = ("params"@, value);
    lemma_last_member("params"@, params, value);
    let last = closed_member("params"@, params);
    lemma_plain_value(method);
    lemma_more_members("method"@, quoted(method), third.1, last, seq![fourth]);
    let called = with_member("method"@, quoted(method), last);
    assert(seq![third] + seq![fourth] =~= seq![third, fourth]);
    lemma_plain_value("2.0"@);
    lemma_more_members("jsonrpc"@, quoted("2.0"@), second.1, called, seq![third, fourth]);
    let versioned = with_member("jsonrpc"@, quoted("2.0"@), called);
    assert(seq![second] + seq![third, fourth] =~= seq![second, third, fourth]);
    lemma_object(versioned, seq![second, third, fourth]);
    reveal_strlit("{\"jsonrpc\":\"2.0\",\"method\":\"");
    reveal_strlit("\",\"params\":");
    reveal_strlit("jsonrpc");
    reveal_strlit("2.0");
    reveal_strlit("method");
    reveal_strlit("params");
    assert(notice_text(method, params) =~= seq!['{'] + versioned);
    lemma_written_value(
        notice_text(method, params),
        Value::Object(seq![second, third, fourth]),
    );
}

/// What is told of a document that is opened is its language, its whole text, its URI and
/// its version.
pub proof fn law_openings_read_back(
    language_id: Seq<char>,
    words: Seq<char>,
    uri: Seq<char>,
    version: int,
)
    ensures
        read_json(open_text(language_id, words, uri, version)) == Some(
            Value::Object(
                seq![
                    ("jsonrpc"@, Value::Text("2.0"@)),
                    ("method"@, Value::Text("textDocument/didOpen"@)),
                    (
                        "params"@,
                        Value::Object(
                            seq![
                                (
                                    "textDocument"@,
                                    Value::Object(
                                        seq![
                                            ("languageId"@, Value::Text(language_id)),
                                            ("text"@, Value::Text(words)),
                                            ("uri"@, Value::Text(uri)),
                                            ("version"@, Value::Number(version)),
                                        ],
                                    ),
                                ),
                            ],
                        ),
                    ),
                ],
            ),
        ),
{
    lemma_request_names();
    lemma_text_value(language_id);
    lemma_text_value(words);
    lemma_text_value(uri);
    lemma_integer_value(version);
    reveal_strlit("languageId");
    reveal_strlit("text");
    reveal_strlit("version");
    reveal_strlit("textDocument/didOpen");
    let a = ("languageId"@, Value::Text(language_id));
    let b = ("text"@, Value::Text(words));
    let c = ("uri"@, Value::Text(uri));
    let d = ("version"@, Value::Number(version));
    let last = closed_member("version"@, integer_text(version));
    lemma_last_member("version"@, integer_text(version), d.1);
    let third = with_member("uri"@, json_text(uri), last);
    lemma_more_members("uri"@, json_text(uri), c.1, last, seq![d]);
    let second = with_member("text"@, json_text(words), third);
    assert(seq![c] + seq![d] =~= seq![c, d]);
    lemma_more_members("text"@, json_text(words), b.1, third, seq![c, d]);
    let first = with_member("languageId"@, json_text(language_id), second);
    assert(seq![b] + seq![c, d] =~= seq![b, c, d]);
    lemma_more_members("languageId"@, json_text(language_id), a.1, second, seq![b, c, d]);
    assert(seq![a] + seq![b, c, d] =~= seq![a, b, c, d]);
    lemma_object(first, seq![a, b, c, d]);
    let document = Value::Object(seq![a, b, c, d]);
    lemma_single("textDocument"@, seq!['{'] + first, document);
    let params = seq!['{'] + closed_member("textDocument"@, seq!['{'] + first);
    lemma_notice(
        "textDocument/didOpen"@,
        params,
        Value::Object(seq![("textDocument"@, document)]),
    );
    lemma_opening_text(json_text(language_id), json_text(words), json_text(uri), integer_text(
        version,
    ));
}

proof fn lemma_opening_text(language: Seq<char>, words: Seq<char>, uri: Seq<char>, version: Seq<char>)
    ensures
        "{\"jsonrpc\":\"2.0\",\"method\":\"textDocument/didOpen\",\"params\":{\"textDocument\":{\"languageId\":"@
            + language + ",\"text\":"@ + words + ",\"uri\":"@ + uri + ",\"version\":"@ + version
            + "}}}"@ == notice_text(
            "textDocument/didOpen"@,
            seq!['{'] + closed_member(
                "textDocument"@,
                seq!['{'] + with_member(
                    "languageId"@,
                    language,
                    with_member(
                        "text"@,
                        words,
                        with_member("uri"@, uri, closed_member("version"@, version)),
                    ),
                ),
            ),
        ),
{
    reveal_strlit(
        "{\"jsonrpc\":\"2.0\",\"method\":\"textDocument/didOpen\",\"params\":{\"textDocument\":{\"languageId\":",
    );
    reveal_strlit("{\"jsonrpc\":\"2.0\",\"method\":\"");
    reveal_strlit("textDocument/didOpen");
    reveal_strlit("\",\"params\":");
    reveal_strlit("textDocument");
    reveal_strlit("languageId");
    let front =
        "{\"jsonrpc\":\"2.0\",\"method\":\"textDocument/didOpen\",\"params\":{\"textDocument\":{\"languageId\":"@;
    let pieces = "{\"jsonrpc\":\"2.0\",\"method\":\""@ + "textDocument/didOpen"@
        + "\",\"params\":"@ + seq!['{'] + quoted("textDocument"@) + seq![':', '{'] + quoted(
        "languageId"@,
    ) + seq![':'];
    assert(front =~= pieces);
    reveal_strlit(",\"text\":");
    reveal_strlit(",\"uri\":");
    reveal_strlit(",\"version\":");
    reveal_strlit("}}}");
    reveal_strlit("text");
    reveal_strlit("uri");
    reveal_strlit("version");
    assert(",\"text\":"@ =~= seq![','] + quoted("text"@) + seq![':']);
    assert(",\"uri\":"@ =~= seq![','] + quoted("uri"@) + seq![':']);
    assert(",\"version\":"@ =~= seq![','] + quoted("version"@) + seq![':']);
    assert("}}}"@ =~= seq!['}', '}', '}']);
    let head = "{\"jsonrpc\":\"2.0\",\"method\":\""@ + "textDocument/didOpen"@
        + "\",\"params\":"@;
    lemma_pairs_joined(
        quoted("text"@),
        words,
        quoted("uri"@),
        uri,
        quoted("version"@),
        version,
    );
    let later = with_member("text"@, words, with_member("uri"@, uri, closed_member("version"@, version)));
    lemma_wrapped_twice(head, quoted("textDocument"@), quoted("languageId"@), language, later);
    let flat = quoted("text"@) + seq![':'] + words + (seq![','] + quoted("uri"@) + seq![':']) + uri
        + (seq![','] + quoted("version"@) + seq![':']) + version + seq!['}'];
    assert(later == flat);
    lemma_opening_flat(
        front + language,
        quoted("text"@),
        words,
        ",\"uri\":"@,
        uri,
        ",\"version\":"@,
        version,
    );
}

proof fn lemma_opening_flat(
    front: Seq<char>,
    a: Seq<char>,
    first: Seq<char>,
    b: Seq<char>,
    second: Seq<char>,
    c: Seq<char>,
    third: Seq<char>,
)
    ensures
        front + seq![','] + (a + seq![':'] + first + b + second + c + third + seq!['}'])
            + seq!['}', '}'] == front + (seq![','] + a + seq![':']) + first + b + second + c + third
            + seq!['}', '}', '}'],
{
    let body = first + b + second + c + third;
    assert(a + seq![':'] + first + b + second + c + third + seq!['}'] =~= a + seq![':'] + body
        + seq!['}']);
    assert(front + seq![','] + (a + seq![':'] + body + seq!['}']) + seq!['}', '}'] =~= front + (
    seq![','] + a + seq![':']) + body + seq!['}', '}', '}']);
    let start = front + (seq![','] + a + seq![':']);
    assert(start + body =~= start + first + b + second + c + third);
}


proof fn lemma_pairs_joined(
    a: Seq<char>,
    first: Seq<char>,
    b: Seq<char>,
    second: Seq<char>,
    c: Seq<char>,
    third: Seq<char>,
)
    ensures
        a + seq![':'] + first + seq![','] + (b + seq![':'] + second + seq![','] + (c + seq![':']
            + third + seq!['}'])) == a + seq![':'] + first + (seq![','] + b + seq![':']) + second + (
        seq![','] + c + seq![':']) + third + seq!['}'],
{
    let last = c + seq![':'] + third + seq!['}'];
    let middle = b + seq![':'] + second + seq![','] + last;
    assert(middle =~= b + seq![':'] + second + (seq![','] + c + seq![':']) + third + seq!['}']);
    let front = a + seq![':'] + first;
    assert(front + seq![','] + (b + seq![':'] + second + (seq![','] + c + seq![':']) + third
        + seq!['}']) =~= front + (seq![','] + b + seq![':']) + second + (seq![','] + c + seq![':'])
        + third + seq!['}']);
}

proof fn lemma_wrapped_twice(
    head: Seq<char>,
    outer: Seq<char>,
    inner: Seq<char>,
    value: Seq<char>,
    later: Seq<char>,
)
    ensures
        head + (seq!['{'] + (outer + seq![':'] + (seq!['{'] + (inner + seq![':'] + value + seq![',']
            + later)) + seq!['}'])) + seq!['}'] == head + seq!['{'] + outer + seq![':', '{'] + inner
            + seq![':'] + value + seq![','] + later + seq!['}', '}'],
{
    let pair = inner + seq![':'] + value + seq![','] + later;
    assert(outer + seq![':'] + (seq!['{'] + pair) + seq!['}'] =~= outer + seq![':', '{'] + pair
        + seq!['}']);
    assert(head + (seq!['{'] + (outer + seq![':', '{'] + pair + seq!['}'])) + seq!['}'] =~= head
        + seq!['{'] + outer + seq![':', '{'] + pair + seq!['}', '}']);
    let front = head + seq!['{'] + outer + seq![':', '{'];
    assert(front + pair + seq!['}', '}'] =~= front + inner + seq![':'] + value + seq![','] + later
        + seq!['}', '}']);
}

/// What is told of a document that is closed is its URI.
pub proof fn law_closings_read_back(uri: Seq<char>)
    ensures
        read_json(close_text(uri)) == Some(
            Value::Object(
                seq![
                    ("jsonrpc"@, Value::Text("2.0"@)),
                    ("method"@, Value::Text("textDocument/didClose"@)),
                    (
                        "params"@,
                        Value::Object(
                            seq![
                                (
                                    "textDocument"@,
                                    Value::Object(seq![("uri"@, Value::Text(uri))]),
                                ),
                            ],
                        ),
                    ),
                ],
            ),
        ),
{
    lemma_document_value(uri);
    let members = "\"textDocument\":{\"uri\":"@ + json_text(uri) + seq!['}', '}'];
    let document = ("textDocument"@, Value::Object(seq![("uri"@, Value::Text(uri))]));
    lemma_object(members, seq![document]);
    reveal_strlit("textDocument/didClose");
    lemma_notice("textDocument/didClose"@, seq!['{'] + members, Value::Object(seq![document]));
    reveal_strlit(
        "{\"jsonrpc\":\"2.0\",\"method\":\"textDocument/didClose\",\"params\":{\"textDocument\":{\"uri\":",
    );
    reveal_strlit("{\"jsonrpc\":\"2.0\",\"method\":\"");
    reveal_strlit("\",\"params\":");
    reveal_strlit("\"textDocument\":{\"uri\":");
    reveal_strlit("}}}");
    assert("{\"jsonrpc\":\"2.0\",\"method\":\"textDocument/didClose\",\"params\":{\"textDocument\":{\"uri\":"@
        =~= "{\"jsonrpc\":\"2.0\",\"method\":\""@ + "textDocument/didClose"@
        + "\",\"params\":"@ + seq!['{'] + "\"textDocument\":{\"uri\":"@);
    assert(close_text(uri) =~= notice_text("textDocument/didClose"@, seq!['{'] + members));
}

/// A cancellation names the request that it is about.
pub proof fn law_cancellations_read_back(id: IdRecord)
    ensures
        read_json(cancel_text(id)) == Some(
            Value::Object(
                seq![
                    ("jsonrpc"@, Value::Text("2.0"@)),
                    ("method"@, Value::Text("$/cancelRequest"@)),
                    ("params"@, Value::Object(seq![("id"@, id_value(id))])),
                ],
            ),
        ),
{
    lemma_request_names();
    lemma_id_value(id);
    lemma_single("id"@, id_text(id), id_value(id));
    let params = seq!['{'] + closed_member("id"@, id_text(id));
    reveal_strlit("$/cancelRequest");
    lemma_notice("$/cancelRequest"@, params, Value::Object(seq![("id"@, id_value(id))]));
    reveal_strlit("{\"jsonrpc\":\"2.0\",\"method\":\"$/cancelRequest\",\"params\":{\"id\":");
    reveal_strlit("{\"jsonrpc\":\"2.0\",\"method\":\"");
    reveal_strlit("\",\"params\":");
    reveal_strlit("id");
    reveal_strlit("}}");
    assert("{\"jsonrpc\":\"2.0\",\"method\":\"$/cancelRequest\",\"params\":{\"id\":"@
        =~= "{\"jsonrpc\":\"2.0\",\"method\":\""@ + "$/cancelRequest"@ + "\",\"params\":"@
        + seq!['{'] + quoted("id"@) + seq![':']);
    assert(cancel_text(id) =~= notice_text("$/cancelRequest"@, params));
}

/// A server is asked to shut down under a number.
pub proof fn law_shutdowns_read_back(id: IdRecord)
    ensures
        read_json(shutdown_text(id)) == Some(
            Value::Object(
                seq![
                    ("id"@, id_value(id)),
                    ("jsonrpc"@, Value::Text("2.0"@)),
                    ("method"@, Value::Text("shutdown"@)),
                    ("params"@, Value::Null),
                ],
            ),
        ),
{
    lemma_fixed_values();
    let null = seq!['n', 'u', 'l', 'l'];
    assert(is_plain("shutdown"@)) by {
        reveal_strlit("shutdown");
    }
    lemma_message(id, "shutdown"@, null, Value::Null);
    let tail = ",\"jsonrpc\":\"2.0\",\"method\":\"shutdown\",\"params\":null}"@;
    let pieces = ",\"jsonrpc\":\"2.0\",\"method\":\""@ + "shutdown"@ + "\",\"params\":"@ + null
        + seq!['}'];
    assert(tail == pieces) by {
        reveal_strlit(",\"jsonrpc\":\"2.0\",\"method\":\"");
        reveal_strlit("\",\"params\":");
        reveal_strlit("shutdown");
        reveal_strlit(",\"jsonrpc\":\"2.0\",\"method\":\"shutdown\",\"params\":null}");
        assert(tail =~= pieces);
    }
    assert("{\"id\":"@ == seq!['{', '"', 'i', 'd', '"', ':']) by {
        reveal_strlit("{\"id\":");
        assert("{\"id\":"@ =~= seq!['{', '"', 'i', 'd', '"', ':']);
    }
    assert(shutdown_text(id) =~= message_text(id_text(id), "shutdown"@, null));
    lemma_written_value(
        shutdown_text(id),
        Value::Object(
            seq![
                ("id"@, id_value(id)),
                ("jsonrpc"@, Value::Text("2.0"@)),
                ("method"@, Value::Text("shutdown"@)),
                ("params"@, Value::Null),
            ],
        ),
    );
}

/// A server is told that the session begins, and at the end to exit.
pub proof fn law_notices_read_back()
    ensures
        read_json(exit_text()) == Some(
            Value::Object(
                seq![
                    ("jsonrpc"@, Value::Text("2.0"@)),
                    ("method"@, Value::Text("exit"@)),
                    ("params"@, Value::Null),
                ],
            ),
        ),
        read_json(initialized_text()) == Some(
            Value::Object(
                seq![
                    ("jsonrpc"@, Value::Text("2.0"@)),
                    ("method"@, Value::Text("initialized"@)),
                    ("params"@, Value::Object(Seq::empty())),
                ],
            ),
        ),
{
    lemma_fixed_values();
    let null = seq!['n', 'u', 'l', 'l'];
    reveal_strlit("exit");
    reveal_strlit("initialized");
    lemma_notice("exit"@, null, Value::Null);
    lemma_notice("initialized"@, seq!['{', '}'], Value::Object(Seq::empty()));
    reveal_strlit("{\"jsonrpc\":\"2.0\",\"method\":\"");
    reveal_strlit("\",\"params\":");
    assert(exit_text() == notice_text("exit"@, null)) by {
        reveal_strlit("{\"jsonrpc\":\"2.0\",\"method\":\"exit\",\"params\":null}");
        assert(exit_text() =~= notice_text("exit"@, null));
    }
    assert(initialized_text() == notice_text("initialized"@, seq!['{', '}'])) by {
        reveal_strlit("{\"jsonrpc\":\"2.0\",\"method\":\"initialized\",\"params\":{}}");
        assert(initialized_text() =~= notice_text("initialized"@, seq!['{', '}']));
    }
}

proof fn lemma_nulls_value(count: nat)
    requires
        count > 0,
    ensures
        writes_items(nulls_text(count) + seq![']'], Seq::new(count, |i: int| Value::Null)),
    decreases count,
{
    let null = seq!['n', 'u', 'l', 'l'];
    lemma_fixed_values();
    reveal_strlit("null");
    reveal_strlit(",null");
    assert("null"@ =~= null);
    assert(",null"@ =~= seq![','] + null);
    if count == 1 {
        lemma_last_item(null, Value::Null);
        assert(Seq::new(1, |i: int| Value::Null) =~= seq![Value::Null]);
    } else {
        let fewer = (count - 1) as nat;
        lemma_nulls_value(fewer);
        lemma_more_items(
            null,
            Value::Null,
            nulls_text(fewer) + seq![']'],
            Seq::new(fewer, |i: int| Value::Null),
        );
        lemma_nulls_from_the_front(fewer);
        assert(nulls_text(count) + seq![']'] =~= null + seq![','] + (nulls_text(fewer)
            + seq![']']));
        assert(seq![Value::Null] + Seq::new(fewer, |i: int| Value::Null) =~= Seq::new(
            count,
            |i: int| Value::Null,
        ));
    }
}

proof fn lemma_nulls_from_the_front(count: nat)
    requires
        count > 0,
    ensures
        nulls_text(count + 1) == "null"@ + seq![','] + nulls_text(count),
    decreases count,
{
    reveal_strlit("null");
    reveal_strlit(",null");
    assert(",null"@ =~= seq![','] + "null"@);
    if count == 1 {
        assert(nulls_text(2) == nulls_text(1) + ",null"@);
        assert(nulls_text(2) =~= "null"@ + seq![','] + nulls_text(1));
    } else {
        lemma_nulls_from_the_front((count - 1) as nat);
        assert(nulls_text(count + 1) == nulls_text(count) + ",null"@);
        assert(nulls_text(count) == nulls_text((count - 1) as nat) + ",null"@);
        assert(nulls_text(count + 1) =~= "null"@ + seq![','] + nulls_text(count));
    }
}

/// What a server is answered: nothing, as many times nothing as it asked, the one folder
/// that is open, or that an edit was not applied.
pub open spec fn reply_value(reply: ReplyRecord) -> Value {
    match reply {
        ReplyRecord::Null => Value::Null,
        ReplyRecord::Nulls(count) => Value::List(Seq::new(count, |i: int| Value::Null)),
        ReplyRecord::Folder(uri) => Value::List(
            seq![
                Value::Object(
                    seq![("name"@, Value::Text("workspace"@)), ("uri"@, Value::Text(uri))],
                ),
            ],
        ),
        ReplyRecord::EditRefused => Value::Object(
            seq![
                ("applied"@, Value::Bool(false)),
                ("failureReason"@, Value::Text("Latte Lens is read-only"@)),
            ],
        ),
    }
}

proof fn lemma_reply_value(reply: ReplyRecord)
    ensures
        writes(reply_text(reply), reply_value(reply)),
{
    lemma_fixed_values();
    match reply {
        ReplyRecord::Null => {
            reveal_strlit("null");
            assert("null"@ =~= seq!['n', 'u', 'l', 'l']);
        },
        ReplyRecord::Nulls(count) => {
            reveal_strlit("[");
            reveal_strlit("]");
            if count == 0 {
                assert(reply_text(reply) =~= seq!['[', ']']);
                assert(Seq::new(count, |i: int| Value::Null) =~= Seq::<Value>::empty());
            } else {
                lemma_nulls_value(count);
                lemma_list(nulls_text(count) + seq![']'], Seq::new(count, |i: int| Value::Null));
                assert(reply_text(reply) =~= seq!['['] + (nulls_text(count) + seq![']']));
            }
        },
        ReplyRecord::Folder(uri) => {
            lemma_request_names();
            lemma_text_value(uri);
            reveal_strlit("name");
            reveal_strlit("workspace");
            let a = ("name"@, Value::Text("workspace"@));
            let b = ("uri"@, Value::Text(uri));
            let last = closed_member("uri"@, json_text(uri));
            lemma_last_member("uri"@, json_text(uri), b.1);
            lemma_plain_value("workspace"@);
            lemma_more_members("name"@, quoted("workspace"@), a.1, last, seq![b]);
            let members = with_member("name"@, quoted("workspace"@), last);
            assert(seq![a] + seq![b] =~= seq![a, b]);
            lemma_object(members, seq![a, b]);
            lemma_last_item(seq!['{'] + members, Value::Object(seq![a, b]));
            let items = seq!['{'] + members + seq![']'];
            lemma_list(items, seq![Value::Object(seq![a, b])]);
            reveal_strlit("[{\"name\":\"workspace\",\"uri\":");
            reveal_strlit("}]");
            reveal_strlit("uri");
            assert(reply_text(reply) =~= seq!['['] + items);
        },
        ReplyRecord::EditRefused => {
            reveal_strlit("applied");
            reveal_strlit("failureReason");
            reveal_strlit("Latte Lens is read-only");
            let a = ("applied"@, Value::Bool(false));
            let b = ("failureReason"@, Value::Text("Latte Lens is read-only"@));
            let no = seq!['f', 'a', 'l', 's', 'e'];
            lemma_plain_value("Latte Lens is read-only"@);
            let last = closed_member("failureReason"@, quoted("Latte Lens is read-only"@));
            lemma_last_member("failureReason"@, quoted("Latte Lens is read-only"@), b.1);
            lemma_more_members("applied"@, no, a.1, last, seq![b]);
            let members = with_member("applied"@, no, last);
            assert(seq![a] + seq![b] =~= seq![a, b]);
            lemma_object(members, seq![a, b]);
            reveal_strlit("{\"applied\":false,\"failureReason\":\"Latte Lens is read-only\"}");
            assert(reply_text(reply) =~= seq!['{'] + members);
        },
    }
}

/// The answer to a request of a server goes under the request's number, with the reply or
/// with the error that the protocol has for it.
pub proof fn law_answers_read_back(id: IdRecord, outcome: Result<ReplyRecord, ServerCallError>)
    ensures
        read_json(response_text(id, outcome)) == Some(
            match outcome {
                Ok(reply) => Value::Object(
                    seq![
                        ("id"@, id_value(id)),
                        ("jsonrpc"@, Value::Text("2.0"@)),
                        ("result"@, reply_value(reply)),
                    ],
                ),
                Err(error) => Value::Object(
                    seq![
                        (
                            "error"@,
                            Value::Object(
                                seq![
                                    (
                                        "code"@,
                                        Value::Number(
                                            if error is InvalidParams {
                                                -32602
                                            } else {
                                                -32601
                                            },
                                        ),
                                    ),
                                    (
                                        "message"@,
                                        Value::Text(
                                            if error is InvalidParams {
                                                "Invalid params"@
                                            } else {
                                                "Method not found"@
                                            },
                                        ),
                                    ),
                                ],
                            ),
                        ),
                        ("id"@, id_value(id)),
                        ("jsonrpc"@, Value::Text("2.0"@)),
                    ],
                ),
            },
        ),
{
    match outcome {
        Ok(reply) => lemma_reply_read(id, reply),
        Err(error) => lemma_refusal_read(id, error),
    }
}

proof fn lemma_reply_text(number: Seq<char>, reply: Seq<char>)
    ensures
        "{\"id\":"@ + number + ",\"jsonrpc\":\"2.0\",\"result\":"@ + reply + "}"@ == seq!['{']
            + with_member(
            "id"@,
            number,
            with_member("jsonrpc"@, quoted("2.0"@), closed_member("result"@, reply)),
        ),
{
    let last = closed_member("result"@, reply);
    let middle = ",\"jsonrpc\":\"2.0\",\"result\":"@;
    assert(middle == seq![','] + quoted("jsonrpc"@) + seq![':'] + quoted("2.0"@) + seq![',']
        + quoted("result"@) + seq![':']) by {
        reveal_strlit(",\"jsonrpc\":\"2.0\",\"result\":");
        reveal_strlit("jsonrpc");
        reveal_strlit("2.0");
        reveal_strlit("result");
        assert(middle =~= seq![','] + quoted("jsonrpc"@) + seq![':'] + quoted("2.0"@) + seq![',']
            + quoted("result"@) + seq![':']);
    }
    assert("{\"id\":"@ == seq!['{'] + quoted("id"@) + seq![':']) by {
        reveal_strlit("{\"id\":");
        reveal_strlit("id");
        assert("{\"id\":"@ =~= seq!['{'] + quoted("id"@) + seq![':']);
    }
    assert("}"@ == seq!['}']) by {
        reveal_strlit("}");
        assert("}"@ =~= seq!['}']);
    }
    lemma_reply_flat(
        quoted("id"@),
        number,
        quoted("jsonrpc"@),
        quoted("2.0"@),
        quoted("result"@),
        reply,
    );
}

proof fn lemma_reply_flat(
    a: Seq<char>,
    first: Seq<char>,
    b: Seq<char>,
    second: Seq<char>,
    c: Seq<char>,
    third: Seq<char>,
)
    ensures
        (seq!['{'] + a + seq![':']) + first + (seq![','] + b + seq![':'] + second + seq![','] + c
            + seq![':']) + third + seq!['}'] == seq!['{'] + (a + seq![':'] + first + seq![','] + (b
            + seq![':'] + second + seq![','] + (c + seq![':'] + third + seq!['}']))),
{
    let last = c + seq![':'] + third + seq!['}'];
    let front = b + seq![':'] + second + seq![','];
    assert((seq!['{'] + a + seq![':']) + first + (seq![','] + b + seq![':'] + second + seq![','] + c
        + seq![':']) + third + seq!['}'] =~= seq!['{'] + (a + seq![':'] + first + seq![','] + (front
        + last)));
}

proof fn lemma_reply_read(id: IdRecord, reply: ReplyRecord)
    ensures
        read_json(response_text(id, Ok(reply))) == Some(
            Value::Object(
                seq![
                    ("id"@, id_value(id)),
                    ("jsonrpc"@, Value::Text("2.0"@)),
                    ("result"@, reply_value(reply)),
                ],
            ),
        ),
{
    lemma_request_names();
    lemma_id_value(id);
    let first = ("id"@, id_value(id));
    let second = ("jsonrpc"@, Value::Text("2.0"@));
    lemma_plain_value("2.0"@);
    lemma_reply_value(reply);
    assert(is_plain("result"@)) by {
        reveal_strlit("result");
    }
    let third = ("result"@, reply_value(reply));
    lemma_last_member("result"@, reply_text(reply), third.1);
    let last = closed_member("result"@, reply_text(reply));
    lemma_more_members("jsonrpc"@, quoted("2.0"@), second.1, last, seq![third]);
    let versioned = with_member("jsonrpc"@, quoted("2.0"@), last);
    assert(seq![second] + seq![third] =~= seq![second, third]);
    lemma_more_members("id"@, id_text(id), first.1, versioned, seq![second, third]);
    let members = with_member("id"@, id_text(id), versioned);
    assert(seq![first] + seq![second, third] =~= seq![first, second, third]);
    lemma_object(members, seq![first, second, third]);
    lemma_reply_text(id_text(id), reply_text(reply));
    lemma_written_value(
        response_text(id, Ok(reply)),
        Value::Object(seq![first, second, third]),
    );
}

proof fn lemma_refusal_read(id: IdRecord, error: ServerCallError)
    ensures
        read_json(response_text(id, Err(error))) == Some(
            Value::Object(
                seq![
                    ("error"@, error_value(error)),
                    ("id"@, id_value(id)),
                    ("jsonrpc"@, Value::Text("2.0"@)),
                ],
            ),
        ),
{
    lemma_request_names();
    lemma_id_value(id);
    let first = ("id"@, id_value(id));
    let second = ("jsonrpc"@, Value::Text("2.0"@));
    lemma_plain_value("2.0"@);
    lemma_error_value(error);
    let value = error_value(error);
    let last = closed_member("jsonrpc"@, quoted("2.0"@));
    lemma_last_member("jsonrpc"@, quoted("2.0"@), second.1);
    lemma_more_members("id"@, id_text(id), first.1, last, seq![second]);
    let numbered = with_member("id"@, id_text(id), last);
    assert(seq![first] + seq![second] =~= seq![first, second]);
    assert(is_plain("error"@)) by {
        reveal_strlit("error");
    }
    lemma_more_members("error"@, error_text(error), value, numbered, seq![first, second]);
    let members = with_member("error"@, error_text(error), numbered);
    assert(seq![("error"@, value)] + seq![first, second] =~= seq![("error"@, value), first, second]);
    lemma_object(members, seq![("error"@, value), first, second]);
    lemma_error_text(id_text(id), error);
    lemma_written_value(
        response_text(id, Err(error)),
        Value::Object(seq![("error"@, value), first, second]),
    );
}

spec fn error_value(error: ServerCallError) -> Value {
    Value::Object(
        seq![
            (
                "code"@,
                Value::Number(
                    if error is InvalidParams {
                        -32602
                    } else {
                        -32601
                    },
                ),
            ),
            (
                "message"@,
                Value::Text(
                    if error is InvalidParams {
                        "Invalid params"@
                    } else {
                        "Method not found"@
                    },
                ),
            ),
        ],
    )
}

spec fn error_text(error: ServerCallError) -> Seq<char> {
    let (code, words) = if error is InvalidParams {
        (seq!['-', '3', '2', '6', '0', '2'], "Invalid params"@)
    } else {
        (seq!['-', '3', '2', '6', '0', '1'], "Method not found"@)
    };
    seq!['{'] + with_member("code"@, code, closed_member("message"@, quoted(words)))
}

proof fn lemma_code_value(digit: char)
    requires
        digit == '1' || digit == '2',
    ensures
        writes(
            seq!['-', '3', '2', '6', '0', digit],
            Value::Number(
                if digit == '2' {
                    -32602
                } else {
                    -32601
                },
            ),
        ),
{
    let value: nat = if digit == '2' {
        32602
    } else {
        32601
    };
    lemma_negative_value(value);
    assert(number_text(value) =~= seq!['3', '2', '6', '0', digit]) by {
        reveal_with_fuel(crate::bytes::decimal_digits, 6);
        assert(crate::bytes::decimal_digits(value) =~= seq![
            51u8,
            50u8,
            54u8,
            48u8,
            digit as u8,
        ]);
    }
    assert(seq!['-'] + number_text(value) =~= seq!['-', '3', '2', '6', '0', digit]);
}

proof fn lemma_error_value(error: ServerCallError)
    ensures
        writes(error_text(error), error_value(error)),
{
    reveal_strlit("code");
    reveal_strlit("message");
    reveal_strlit("Invalid params");
    reveal_strlit("Method not found");
    let digit = if error is InvalidParams {
        '2'
    } else {
        '1'
    };
    let words = if error is InvalidParams {
        "Invalid params"@
    } else {
        "Method not found"@
    };
    let code = seq!['-', '3', '2', '6', '0', digit];
    lemma_code_value(digit);
    lemma_plain_value(words);
    let a = error_value(error)->Object_0[0];
    let b = error_value(error)->Object_0[1];
    lemma_last_member("message"@, quoted(words), b.1);
    let last = closed_member("message"@, quoted(words));
    lemma_more_members("code"@, code, a.1, last, seq![b]);
    assert(seq![a] + seq![b] =~= seq![a, b]);
    lemma_object(with_member("code"@, code, last), seq![a, b]);
}

proof fn lemma_error_text(number: Seq<char>, error: ServerCallError)
    ensures
        (if error is InvalidParams {
            "{\"error\":{\"code\":-32602,\"message\":\"Invalid params\"},\"id\":"@
        } else {
            "{\"error\":{\"code\":-32601,\"message\":\"Method not found\"},\"id\":"@
        }) + number + ",\"jsonrpc\":\"2.0\"}"@ == seq!['{'] + with_member(
            "error"@,
            error_text(error),
            with_member("id"@, number, closed_member("jsonrpc"@, quoted("2.0"@))),
        ),
{
    reveal_strlit("error");
    reveal_strlit("code");
    reveal_strlit("message");
    reveal_strlit("id");
    let front = seq!['{'] + member_text("error"@, error_text(error)) + seq![','] + quoted("id"@)
        + seq![':'];
    let given = if error is InvalidParams {
        "{\"error\":{\"code\":-32602,\"message\":\"Invalid params\"},\"id\":"@
    } else {
        "{\"error\":{\"code\":-32601,\"message\":\"Method not found\"},\"id\":"@
    };
    if error is InvalidParams {
        reveal_strlit("Invalid params");
        reveal_strlit("{\"error\":{\"code\":-32602,\"message\":\"Invalid params\"},\"id\":");
        assert(given =~= front);
    } else {
        reveal_strlit("Method not found");
        reveal_strlit("{\"error\":{\"code\":-32601,\"message\":\"Method not found\"},\"id\":");
        assert(given =~= front);
    }
    let last = closed_member("jsonrpc"@, quoted("2.0"@));
    assert(",\"jsonrpc\":\"2.0\"}"@ == seq![','] + last) by {
        reveal_strlit(",\"jsonrpc\":\"2.0\"}");
        reveal_strlit("jsonrpc");
        reveal_strlit("2.0");
        assert(",\"jsonrpc\":\"2.0\"}"@ =~= seq![','] + last);
    }
    lemma_error_flat(member_text("error"@, error_text(error)), quoted("id"@), number, last);
}

proof fn lemma_error_flat(error: Seq<char>, name: Seq<char>, number: Seq<char>, last: Seq<char>)
    ensures
        seq!['{'] + error + seq![','] + name + seq![':'] + number + (seq![','] + last) == seq!['{']
            + (error + seq![','] + (name + seq![':'] + number + seq![','] + last)),
{
    let tail = name + seq![':'] + number + seq![','] + last;
    assert(seq!['{'] + error + seq![','] + name + seq![':'] + number + (seq![','] + last)
        =~= seq!['{'] + error + seq![','] + tail);
    assert(seq!['{'] + error + seq![','] + tail =~= seq!['{'] + (error + seq![','] + tail));
}

// The first message -----------------------------------------------------------------------

proof fn lemma_first_members(
    first: Seq<char>,
    second: Seq<char>,
    key: Seq<char>,
    number: Seq<char>,
    later: Seq<char>,
)
    ensures
        first + seq![','] + (second + seq![','] + (key + seq![':'] + number + seq![','] + later))
            == (first + seq![','] + second + seq![','] + key + seq![':']) + number + seq![',']
            + later,
{
    let tail = number + seq![','] + later;
    assert(key + seq![':'] + number + seq![','] + later =~= key + seq![':'] + tail);
    assert(first + seq![','] + (second + seq![','] + (key + seq![':'] + tail)) =~= (first
        + seq![','] + second + seq![','] + key + seq![':']) + tail);
    let front = first + seq![','] + second + seq![','] + key + seq![':'];
    assert(front + tail =~= front + number + seq![','] + later);
}

proof fn lemma_last_folder(
    root: Seq<char>,
    folders: Seq<char>,
    name: Seq<char>,
    uri: Seq<char>,
    place: Seq<char>,
    folder: Seq<char>,
)
    ensures
        root + seq![':'] + place + seq![','] + (folders + seq![':'] + (seq!['['] + ((seq!['{'] + (
        name + seq![':'] + folder + seq![','] + (uri + seq![':'] + place + seq!['}'])))
            + seq![']'])) + seq!['}']) == root + seq![':'] + place + (seq![','] + folders
            + seq![':', '[', '{'] + name + seq![':']) + folder + (seq![','] + uri + seq![':'])
            + place + seq!['}', ']', '}'],
{
    let last = uri + seq![':'] + place + seq!['}'];
    let pair = name + seq![':'] + folder + seq![','] + last;
    assert(folders + seq![':'] + (seq!['['] + ((seq!['{'] + pair) + seq![']'])) + seq!['}']
        =~= folders + seq![':', '[', '{'] + pair + seq![']', '}']);
    let front = root + seq![':'] + place;
    assert(front + seq![','] + (folders + seq![':', '[', '{'] + pair + seq![']', '}']) =~= front + (
    seq![','] + folders + seq![':', '[', '{']) + pair + seq![']', '}']);
    let start = front + (seq![','] + folders + seq![':', '[', '{']);
    assert(start + pair + seq![']', '}'] =~= start + name + seq![':'] + folder + (seq![','] + uri
        + seq![':']) + place + seq!['}', ']', '}']);
    assert(start + name + seq![':'] =~= front + (seq![','] + folders + seq![':', '[', '{'] + name
        + seq![':']));
}

/// What the folder of a session is called, and where it is.
pub open spec fn folder_value(uri: Seq<char>, folder: Seq<char>) -> Value {
    Value::Object(seq![("name"@, Value::Text(folder)), ("uri"@, Value::Text(uri))])
}

/// What a session is begun with: positions are counted in UTF-16 units, this program is
/// named and numbered, and the root is the only folder.
pub open spec fn initialize_params(process_id: nat, uri: Seq<char>, folder: Seq<char>) -> Seq<
    (Seq<char>, Value),
> {
    seq![
        (
            "capabilities"@,
            Value::Object(
                seq![
                    (
                        "general"@,
                        Value::Object(
                            seq![
                                (
                                    "positionEncodings"@,
                                    Value::List(seq![Value::Text("utf-16"@)]),
                                ),
                            ],
                        ),
                    ),
                ],
            ),
        ),
        ("clientInfo"@, Value::Object(seq![("name"@, Value::Text("latte-lens"@))])),
        ("processId"@, Value::Number(process_id as int)),
        ("rootUri"@, Value::Text(uri)),
        ("workspaceFolders"@, Value::List(seq![folder_value(uri, folder)])),
    ]
}

proof fn lemma_initialize_names()
    ensures
        is_plain("capabilities"@),
        is_plain("general"@),
        is_plain("positionEncodings"@),
        is_plain("utf-16"@),
        is_plain("clientInfo"@),
        is_plain("latte-lens"@),
        is_plain("processId"@),
        is_plain("rootUri"@),
        is_plain("workspaceFolders"@),
        is_plain("name"@),
        is_plain("initialize"@),
{
    reveal_strlit("capabilities");
    reveal_strlit("general");
    reveal_strlit("positionEncodings");
    reveal_strlit("utf-16");
    reveal_strlit("clientInfo");
    reveal_strlit("latte-lens");
    reveal_strlit("processId");
    reveal_strlit("rootUri");
    reveal_strlit("workspaceFolders");
    reveal_strlit("name");
    reveal_strlit("initialize");
}

spec fn encodings_text() -> Seq<char> {
    seq!['{'] + closed_member(
        "general"@,
        seq!['{'] + closed_member("positionEncodings"@, seq!['['] + (quoted("utf-16"@) + seq![']'])),
    )
}

spec fn program_text() -> Seq<char> {
    seq!['{'] + closed_member("name"@, quoted("latte-lens"@))
}

spec fn folders_text(uri: Seq<char>, folder: Seq<char>) -> Seq<char> {
    seq!['['] + ((seq!['{'] + with_member(
        "name"@,
        json_text(folder),
        closed_member("uri"@, json_text(uri)),
    )) + seq![']'])
}

spec fn session_members(process_id: nat, uri: Seq<char>, folder: Seq<char>) -> Seq<char> {
    with_member(
        "capabilities"@,
        encodings_text(),
        with_member(
            "clientInfo"@,
            program_text(),
            with_member(
                "processId"@,
                number_text(process_id),
                with_member(
                    "rootUri"@,
                    json_text(uri),
                    closed_member("workspaceFolders"@, folders_text(uri, folder)),
                ),
            ),
        ),
    )
}

proof fn lemma_fixed_parts()
    ensures
        writes(
            encodings_text(),
            Value::Object(
                seq![
                    (
                        "general"@,
                        Value::Object(
                            seq![
                                (
                                    "positionEncodings"@,
                                    Value::List(seq![Value::Text("utf-16"@)]),
                                ),
                            ],
                        ),
                    ),
                ],
            ),
        ),
        writes(program_text(), Value::Object(seq![("name"@, Value::Text("latte-lens"@))])),
{
    lemma_initialize_names();
    lemma_plain_value("utf-16"@);
    lemma_last_item(quoted("utf-16"@), Value::Text("utf-16"@));
    lemma_list(quoted("utf-16"@) + seq![']'], seq![Value::Text("utf-16"@)]);
    let list = Value::List(seq![Value::Text("utf-16"@)]);
    let text = seq!['['] + (quoted("utf-16"@) + seq![']']);
    lemma_single("positionEncodings"@, text, list);
    lemma_single(
        "general"@,
        seq!['{'] + closed_member("positionEncodings"@, text),
        Value::Object(seq![("positionEncodings"@, list)]),
    );
    lemma_plain_value("latte-lens"@);
    lemma_single("name"@, quoted("latte-lens"@), Value::Text("latte-lens"@));
}

proof fn lemma_folders_value(uri: Seq<char>, folder: Seq<char>)
    ensures
        writes(folders_text(uri, folder), Value::List(seq![folder_value(uri, folder)])),
{
    lemma_initialize_names();
    lemma_request_names();
    lemma_text_value(uri);
    lemma_text_value(folder);
    lemma_last_member("uri"@, json_text(uri), Value::Text(uri));
    let last = closed_member("uri"@, json_text(uri));
    lemma_more_members(
        "name"@,
        json_text(folder),
        Value::Text(folder),
        last,
        seq![("uri"@, Value::Text(uri))],
    );
    let members = seq![("name"@, Value::Text(folder)), ("uri"@, Value::Text(uri))];
    assert(seq![("name"@, Value::Text(folder))] + seq![("uri"@, Value::Text(uri))] =~= members);
    lemma_object(with_member("name"@, json_text(folder), last), members);
    let text = seq!['{'] + with_member("name"@, json_text(folder), last);
    lemma_last_item(text, folder_value(uri, folder));
    lemma_list(text + seq![']'], seq![folder_value(uri, folder)]);
}

proof fn lemma_session_value(process_id: nat, uri: Seq<char>, folder: Seq<char>)
    ensures
        writes(
            seq!['{'] + session_members(process_id, uri, folder),
            Value::Object(initialize_params(process_id, uri, folder)),
        ),
{
    lemma_initialize_names();
    lemma_fixed_parts();
    lemma_folders_value(uri, folder);
    lemma_text_value(uri);
    lemma_number_value(process_id);
    let all = initialize_params(process_id, uri, folder);
    lemma_last_member("workspaceFolders"@, folders_text(uri, folder), all[4].1);
    let e = closed_member("workspaceFolders"@, folders_text(uri, folder));
    lemma_more_members("rootUri"@, json_text(uri), all[3].1, e, seq![all[4]]);
    assert(seq![all[3]] + seq![all[4]] =~= seq![all[3], all[4]]);
    let d = with_member("rootUri"@, json_text(uri), e);
    lemma_more_members(
        "processId"@,
        number_text(process_id),
        all[2].1,
        d,
        seq![all[3], all[4]],
    );
    assert(seq![all[2]] + seq![all[3], all[4]] =~= seq![all[2], all[3], all[4]]);
    let c = with_member("processId"@, number_text(process_id), d);
    lemma_more_members(
        "clientInfo"@,
        program_text(),
        all[1].1,
        c,
        seq![all[2], all[3], all[4]],
    );
    assert(seq![all[1]] + seq![all[2], all[3], all[4]] =~= seq![all[1], all[2], all[3], all[4]]);
    let b = with_member("clientInfo"@, program_text(), c);
    lemma_more_members(
        "capabilities"@,
        encodings_text(),
        all[0].1,
        b,
        seq![all[1], all[2], all[3], all[4]],
    );
    assert(seq![all[0]] + seq![all[1], all[2], all[3], all[4]] =~= all);
    lemma_object(session_members(process_id, uri, folder), all);
}

proof fn lemma_first_literal()
    ensures
        ",\"jsonrpc\":\"2.0\",\"method\":\"initialize\",\"params\":{\"capabilities\":{\"general\":{\"positionEncodings\":[\"utf-16\"]}},\"clientInfo\":{\"name\":\"latte-lens\"},\"processId\":"@
            == ",\"jsonrpc\":\"2.0\",\"method\":\""@ + "initialize"@ + "\",\"params\":"@ + seq!['{']
            + first_part(),
{
    let front = "\"capabilities\":{\"general\":{\"positionEncodings\":[\"utf-16\"]}}"@;
    let back = "\"clientInfo\":{\"name\":\"latte-lens\"}"@;
    assert(member_text("capabilities"@, encodings_text()) == front) by {
        reveal_strlit("capabilities");
        reveal_strlit("general");
        reveal_strlit("positionEncodings");
        reveal_strlit("utf-16");
        reveal_strlit("\"capabilities\":{\"general\":{\"positionEncodings\":[\"utf-16\"]}}");
        assert(member_text("capabilities"@, encodings_text()) =~= front);
    }
    assert(member_text("clientInfo"@, program_text()) == back) by {
        reveal_strlit("clientInfo");
        reveal_strlit("name");
        reveal_strlit("latte-lens");
        reveal_strlit("\"clientInfo\":{\"name\":\"latte-lens\"}");
        assert(member_text("clientInfo"@, program_text()) =~= back);
    }
    let key = "\"processId\":"@;
    assert(quoted("processId"@) + seq![':'] == key) by {
        reveal_strlit("processId");
        reveal_strlit("\"processId\":");
        assert(quoted("processId"@) + seq![':'] =~= key);
    }
    let head = ",\"jsonrpc\":\"2.0\",\"method\":\""@ + "initialize"@ + "\",\"params\":"@ + seq!['{'];
    assert(front + seq![','] + back + seq![','] + quoted("processId"@) + seq![':'] =~= front
        + seq![','] + back + seq![','] + (quoted("processId"@) + seq![':']));
    assert(head + (front + seq![','] + back + seq![','] + key)
        == ",\"jsonrpc\":\"2.0\",\"method\":\"initialize\",\"params\":{\"capabilities\":{\"general\":{\"positionEncodings\":[\"utf-16\"]}},\"clientInfo\":{\"name\":\"latte-lens\"},\"processId\":"@)
        by {
        reveal_strlit(",\"jsonrpc\":\"2.0\",\"method\":\"");
        reveal_strlit("initialize");
        reveal_strlit("\",\"params\":");
        reveal_strlit("\"capabilities\":{\"general\":{\"positionEncodings\":[\"utf-16\"]}}");
        reveal_strlit("\"clientInfo\":{\"name\":\"latte-lens\"}");
        reveal_strlit("\"processId\":");
        reveal_strlit(
            ",\"jsonrpc\":\"2.0\",\"method\":\"initialize\",\"params\":{\"capabilities\":{\"general\":{\"positionEncodings\":[\"utf-16\"]}},\"clientInfo\":{\"name\":\"latte-lens\"},\"processId\":",
        );
        assert(head + (front + seq![','] + back + seq![','] + key)
            =~= ",\"jsonrpc\":\"2.0\",\"method\":\"initialize\",\"params\":{\"capabilities\":{\"general\":{\"positionEncodings\":[\"utf-16\"]}},\"clientInfo\":{\"name\":\"latte-lens\"},\"processId\":"@);
    }
}

proof fn lemma_message_flat(
    number: Seq<char>,
    head: Seq<char>,
    front: Seq<char>,
    first: Seq<char>,
    a: Seq<char>,
    second: Seq<char>,
    b: Seq<char>,
    third: Seq<char>,
    c: Seq<char>,
    fourth: Seq<char>,
    d: Seq<char>,
)
    ensures
        number + head + (seq!['{'] + (front + first + seq![','] + (a + second + b + third + c
            + fourth + d))) + seq!['}'] == number + (head + seq!['{'] + front) + first + (seq![',']
            + a) + second + b + third + c + fourth + (d + seq!['}']),
{
    let tail = second + b + third + c + fourth + d;
    assert(a + second + b + third + c + fourth + d =~= a + tail);
    assert(number + head + (seq!['{'] + (front + first + seq![','] + (a + tail))) + seq!['}']
        =~= number + (head + seq!['{'] + front) + first + (seq![','] + a) + tail + seq!['}']);
    let start = number + (head + seq!['{'] + front) + first + (seq![','] + a);
    assert(start + tail + seq!['}'] =~= start + second + b + third + c + fourth + (d + seq!['}']));
}

spec fn root_key() -> Seq<char> {
    quoted("rootUri"@) + seq![':']
}

spec fn folders_key() -> Seq<char> {
    seq![','] + quoted("workspaceFolders"@) + seq![':', '[', '{'] + quoted("name"@) + seq![':']
}

spec fn uri_key() -> Seq<char> {
    seq![','] + quoted("uri"@) + seq![':']
}

spec fn first_part() -> Seq<char> {
    member_text("capabilities"@, encodings_text()) + seq![','] + member_text(
        "clientInfo"@,
        program_text(),
    ) + seq![','] + quoted("processId"@) + seq![':']
}

proof fn lemma_members_flat(process_id: nat, uri: Seq<char>, folder: Seq<char>)
    ensures
        session_members(process_id, uri, folder) == first_part() + number_text(process_id)
            + seq![','] + (root_key() + json_text(uri) + folders_key() + json_text(folder)
            + uri_key() + json_text(uri) + seq!['}', ']', '}']),
{
    let later = with_member(
        "rootUri"@,
        json_text(uri),
        closed_member("workspaceFolders"@, folders_text(uri, folder)),
    );
    lemma_first_members(
        member_text("capabilities"@, encodings_text()),
        member_text("clientInfo"@, program_text()),
        quoted("processId"@),
        number_text(process_id),
        later,
    );
    lemma_last_folder(
        quoted("rootUri"@),
        quoted("workspaceFolders"@),
        quoted("name"@),
        quoted("uri"@),
        json_text(uri),
        json_text(folder),
    );
}

proof fn lemma_later_literals()
    ensures
        ",\"rootUri\":"@ == seq![','] + root_key(),
        ",\"workspaceFolders\":[{\"name\":"@ == folders_key(),
        ",\"uri\":"@ == uri_key(),
        "}]}}"@ == seq!['}', ']', '}'] + seq!['}'],
        "{\"id\":"@ == seq!['{', '"', 'i', 'd', '"', ':'],
{
    assert(",\"rootUri\":"@ == seq![','] + root_key()) by {
        reveal_strlit(",\"rootUri\":");
        reveal_strlit("rootUri");
        assert(",\"rootUri\":"@ =~= seq![','] + root_key());
    }
    assert(",\"workspaceFolders\":[{\"name\":"@ == folders_key()) by {
        reveal_strlit(",\"workspaceFolders\":[{\"name\":");
        reveal_strlit("workspaceFolders");
        reveal_strlit("name");
        assert(",\"workspaceFolders\":[{\"name\":"@ =~= folders_key());
    }
    assert(",\"uri\":"@ == uri_key()) by {
        reveal_strlit(",\"uri\":");
        reveal_strlit("uri");
        assert(",\"uri\":"@ =~= uri_key());
    }
    assert("}]}}"@ == seq!['}', ']', '}'] + seq!['}']) by {
        reveal_strlit("}]}}");
        assert("}]}}"@ =~= seq!['}', ']', '}'] + seq!['}']);
    }
    assert("{\"id\":"@ == seq!['{', '"', 'i', 'd', '"', ':']) by {
        reveal_strlit("{\"id\":");
        assert("{\"id\":"@ =~= seq!['{', '"', 'i', 'd', '"', ':']);
    }
}

proof fn lemma_message_parts(number: Seq<char>, method: Seq<char>, params: Seq<char>)
    ensures
        message_text(number, method, params) == (seq!['{', '"', 'i', 'd', '"', ':'] + number) + (
        ",\"jsonrpc\":\"2.0\",\"method\":\""@ + method + "\",\"params\":"@) + params + seq!['}'],
{
    let opening = seq!['{', '"', 'i', 'd', '"', ':'] + number;
    let a = ",\"jsonrpc\":\"2.0\",\"method\":\""@;
    let b = "\",\"params\":"@;
    assert(opening + a + method + b =~= opening + (a + method + b));
}

proof fn lemma_beginning_text(id: IdRecord, process_id: nat, uri: Seq<char>, folder: Seq<char>)
    ensures
        initialize_text(id, process_id, uri, folder) == message_text(
            id_text(id),
            "initialize"@,
            seq!['{'] + session_members(process_id, uri, folder),
        ),
{
    lemma_members_flat(process_id, uri, folder);
    lemma_message_parts(
        id_text(id),
        "initialize"@,
        seq!['{'] + session_members(process_id, uri, folder),
    );
    lemma_message_flat(
        seq!['{', '"', 'i', 'd', '"', ':'] + id_text(id),
        ",\"jsonrpc\":\"2.0\",\"method\":\""@ + "initialize"@ + "\",\"params\":"@,
        first_part(),
        number_text(process_id),
        root_key(),
        json_text(uri),
        folders_key(),
        json_text(folder),
        uri_key(),
        json_text(uri),
        seq!['}', ']', '}'],
    );
    lemma_first_literal();
    lemma_later_literals();
}

/// The first message of a session says who begins it and where, under its number.
pub proof fn law_beginnings_read_back(
    id: IdRecord,
    process_id: nat,
    uri: Seq<char>,
    folder: Seq<char>,
)
    ensures
        read_json(initialize_text(id, process_id, uri, folder)) == Some(
            Value::Object(
                seq![
                    ("id"@, id_value(id)),
                    ("jsonrpc"@, Value::Text("2.0"@)),
                    ("method"@, Value::Text("initialize"@)),
                    ("params"@, Value::Object(initialize_params(process_id, uri, folder))),
                ],
            ),
        ),
{
    lemma_initialize_names();
    lemma_session_value(process_id, uri, folder);
    let params = seq!['{'] + session_members(process_id, uri, folder);
    let value = Value::Object(initialize_params(process_id, uri, folder));
    lemma_message(id, "initialize"@, params, value);
    lemma_beginning_text(id, process_id, uri, folder);
    lemma_written_value(
        initialize_text(id, process_id, uri, folder),
        Value::Object(
            seq![
                ("id"@, id_value(id)),
                ("jsonrpc"@, Value::Text("2.0"@)),
                ("method"@, Value::Text("initialize"@)),
                ("params"@, value),
            ],
        ),
    );
}

} // verus!
