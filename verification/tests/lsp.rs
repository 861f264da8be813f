//! Language servers: what they say, and what is done with it.

use latte_lens::cleanup::{
    CleanupClock, CleanupOutcome, CleanupPhase, CleanupProgress, TreePoll,
};
use latte_lens::completions::{NavigationProtocolResult, NAVIGATION_COMPLETION_CAPACITY};
use latte_lens::disk::{
    read_and_compare_snapshot, snapshot_read_limit, DiskRevalidationLane, DiskSnapshotJob,
    DiskSnapshotResult, LaneError,
};
use latte_lens::document::{
    ContentIdentity, DocumentVersion, NavigationDocument, NavigationOperation, NavigationSource,
};
use latte_lens::failures::{backoff_delay, FailureBook, STABLE_READY_RESET};
use latte_lens::frames::{control_error, ControlPoll, FrameParts, SessionControlEvent};
use latte_lens::framing::{ChargedPayload, FrameDecoder, MAX_BODY_BYTES};
use latte_lens::json::json_preflight;
use latte_lens::language::{language_for_path, LanguageFamily};
use latte_lens::locations::{
    parse_bounded_locations, parse_navigation_result, release_locations, LocationError,
    LocationItem, LocationParts, ProtocolLocation, MAX_LOCATION_RESULTS,
};
use latte_lens::manager::{NavigationCleanupSnapshot, NavigationManager, WaitingRequest};
use latte_lens::messages::{
    cancel_body, close_body, exit_body, initialize_body, initialized_body, open_body, quote_json,
    request_body, response_body, shutdown_body,
};
use latte_lens::outline::{
    parse_document_symbol_result, reads_on, release_symbols, ProtocolDocumentSymbol, ProtocolSymbolKind,
    SymbolBody, SymbolError, SymbolItem, UnreadSymbol, MAX_SYMBOL_STRING_BYTES,
};
use latte_lens::paths::PathStyle;
use latte_lens::payload::{GlobalPayloadBudget, PayloadBudget, SESSION_PAYLOAD_BUDGET};
use latte_lens::positions::{
    LineIndex, Position, Range, MAX_NAVIGATION_LINES, MAX_NAVIGATION_TEXT_BYTES,
};
use latte_lens::process::{
    group_exists, group_to_clean, leads_own_group, signal_group, ForceStep, IoThreadDone,
    IoThreadKind, ProcessTree, NO_SUCH_PROCESS, NOT_PERMITTED,
};
use latte_lens::protocol::{
    clean_protocol_message, is_shutdown_response, parse_initialize_capabilities,
    parse_protocol_error, server_call_result, CallParams, CallReply, ConfigurationItem, Envelope,
    RawCapabilities, RegistrationItem, ServerCallError, MAX_CONFIGURATION_ITEMS,
    MAX_RESULT_URI_BYTES,
};
use latte_lens::requests::{folder_name, RequestStep};
use latte_lens::rpc::{
    normalize_text_sync_change, normalize_text_sync_kind, record_io_done, IoThreads,
    LifecycleError, NavigationCapabilities, RequestIdAllocator, RetiredIds, RpcId, RpcIdError,
    SessionEpoch, TextChangeCapability, TextSyncCapability, IO_THREAD_COUNT, MAX_RETIRED_IDS,
};
use latte_lens::session::{
    InboxError, LspSession, NavigationRuntimeRequest, Outbox, PendingEntry, PendingRequest,
    PendingUserRequest, ServerState, SessionKey, INITIALIZE_TIMEOUT, NAVIGATION_REQUEST_TIMEOUT,
    SESSION_FRAME_CAPACITY, SESSION_WRITER_CAPACITY,
};
use latte_lens::settings::{ExecutableIdentity, NavigationSettings, TrustedServer};
use latte_lens::snapshot::StructureSnapshot;
use latte_lens::source::SourcePosition;
use latte_lens::targets::{lsp_uri_to_file_path, path_to_lsp_uri, UriError};
use serde::de::{Deserialize, Deserializer, Error, MapAccess, Visitor};
use serde_json::value::RawValue;
use std::sync::Arc;

// Reading ---------------------------------------------------------------------------------

/// The members of an object, none of them twice.
struct Members(Vec<(String, Box<RawValue>)>);

struct MembersVisitor;

impl<'de> Visitor<'de> for MembersVisitor {
    type Value = Members;

    fn expecting(&self, formatter: &mut std::fmt::Formatter<'_>) -> std::fmt::Result {
        formatter.write_str("an object")
    }

    fn visit_map<A: MapAccess<'de>>(self, mut map: A) -> Result<Members, A::Error> {
        let mut found: Vec<(String, Box<RawValue>)> = Vec::new();
        while let Some((name, value)) = map.next_entry::<String, Box<RawValue>>()? {
            if found.iter().any(|(other, _)| *other == name) {
                return Err(A::Error::custom("duplicate member"));
            }
            found.push((name, value));
        }
        Ok(Members(found))
    }
}

impl<'de> Deserialize<'de> for Members {
    fn deserialize<D: Deserializer<'de>>(deserializer: D) -> Result<Self, D::Error> {
        deserializer.deserialize_map(MembersVisitor)
    }
}

impl Members {
    fn of(raw: &str) -> Option<Members> {
        serde_json::from_str(raw).ok()
    }

    fn token(&self, name: &str) -> Option<String> {
        let (_, value) = self.0.iter().find(|(other, _)| other == name)?;
        Some(value.get().to_string())
    }
}

fn tokens(raw: &str) -> Option<Vec<String>> {
    let items: Vec<Box<RawValue>> = serde_json::from_str(raw).ok()?;
    Some(items.iter().map(|item| item.get().to_string()).collect())
}

fn word(raw: &str) -> Option<String> {
    serde_json::from_str(raw).ok()
}

fn number(raw: &str) -> Option<i64> {
    serde_json::from_str(raw).ok()
}

fn position(raw: &str) -> Option<Position> {
    let members = Members::of(raw)?;
    Some(Position {
        line: number(&members.token("line")?)? as u32,
        character: number(&members.token("character")?)? as u32,
    })
}

fn range(raw: &str) -> Option<Range> {
    let members = Members::of(raw)?;
    Some(Range {
        start: position(&members.token("start")?)?,
        end: position(&members.token("end")?)?,
    })
}

fn location_item(raw: &str, place: String) -> Option<LocationItem> {
    let members = Members::of(raw)?;
    let range_of = |name: &str| members.token(name).and_then(|token| range(&token));
    Some(LocationItem {
        uri: members.token("uri"),
        range: range_of("range"),
        target_uri: members.token("targetUri"),
        target_range: range_of("targetRange"),
        target_selection_range: range_of("targetSelectionRange"),
        origin_selection_range: range_of("originSelectionRange"),
        place,
    })
}

fn location_parts(raw: &str) -> LocationParts {
    let mut parts = LocationParts {
        items: vec![],
        unread: None,
        bad_uri: "no URI".to_string(),
    };
    let single = vec![raw.to_string()];
    for (index, raw) in tokens(raw).unwrap_or(single).iter().enumerate() {
        match location_item(raw, format!(" behind item {index}")) {
            Some(item) => parts.items.push(item),
            None => {
                parts.unread = Some(format!("no object at item {index}"));
                return parts;
            }
        }
    }
    parts
}

fn push_symbols(
    raw: &str,
    depth: usize,
    place: Option<usize>,
    found: &mut Vec<SymbolItem>,
) -> Option<()> {
    for (index, item) in tokens(raw)?.into_iter().enumerate() {
        let place = Some(place.unwrap_or(index));
        let members = Members::of(&item)?;
        let name = members.token("name")?;
        let kind = number(&members.token("kind")?)? as i32;
        let body = match (members.token("selectionRange"), members.token("location")) {
            (Some(selection), None) => SymbolBody::Nested {
                name,
                detail: members.token("detail"),
                kind,
                range: range(&members.token("range")?)?,
                selection_range: range(&selection)?,
            },
            (None, Some(location)) => {
                let location = Members::of(&location)?;
                let uri = location.token("uri")?;
                let target = lsp_uri_to_file_path(PathStyle::Unix, &word(&uri)?)
                    .map_err(|error| error.message().to_string());
                SymbolBody::Flat {
                    name,
                    kind,
                    uri,
                    target,
                    range: range(&location.token("range")?)?,
                    container: members.token("containerName"),
                }
            }
            _ => SymbolBody::Mixed,
        };
        found.push(symbol_item(depth, body, place));
        if let Some(children) = members.token("children") {
            if push_symbols(&children, depth + 1, place, found).is_none() {
                let body = SymbolBody::Unread(UnreadSymbol::Children);
                found.push(symbol_item(depth, body, place));
                return Some(());
            }
        }
    }
    Some(())
}

fn symbol_item(depth: usize, body: SymbolBody, place: Option<usize>) -> SymbolItem {
    SymbolItem {
        depth,
        body,
        place: format!(" behind item {}", place.unwrap_or(0)),
    }
}

fn symbol_items(raw: &str) -> Result<Vec<SymbolItem>, String> {
    let mut found = Vec::new();
    push_symbols(raw, 1, None, &mut found).ok_or("no list")?;
    Ok(found)
}

fn provider(raw: Option<String>) -> Result<Option<bool>, String> {
    match raw {
        None => Ok(None),
        Some(raw) if raw.starts_with('{') => Ok(Some(true)),
        Some(raw) => serde_json::from_str::<bool>(&raw)
            .map(Some)
            .map_err(|_| "invalid provider".to_string()),
    }
}

fn text_sync(raw: Option<String>) -> Result<Option<TextSyncCapability>, String> {
    let wrong = || "invalid textDocumentSync".to_string();
    let Some(raw) = raw else {
        return Ok(None);
    };
    if let Some(kind) = number(&raw) {
        return normalize_text_sync_kind(kind).map(Some).ok_or_else(wrong);
    }
    let members = Members::of(&raw).ok_or_else(wrong)?;
    Ok(Some(TextSyncCapability {
        open_close: members.token("openClose").as_deref() == Some("true"),
        change: match members.token("change").and_then(|token| number(&token)) {
            Some(kind) => normalize_text_sync_change(kind),
            None => TextChangeCapability::Absent,
        },
    }))
}

fn capabilities_object(result: &str) -> Result<String, String> {
    Members::of(result)
        .and_then(|members| members.token("capabilities"))
        .ok_or_else(|| "invalid initialize result".to_string())
}

fn raw_capabilities(object: &Result<String, String>) -> Result<RawCapabilities, String> {
    let object = object.as_ref().map_err(|words| words.clone())?;
    let members = Members::of(object).ok_or_else(|| "invalid capabilities".to_string())?;
    Ok(RawCapabilities {
        position_encoding: members.token("positionEncoding"),
        definition_provider: provider(members.token("definitionProvider"))?,
        references_provider: provider(members.token("referencesProvider"))?,
        implementation_provider: provider(members.token("implementationProvider"))?,
        document_symbol_provider: provider(members.token("documentSymbolProvider"))?,
        text_document_sync: text_sync(members.token("textDocumentSync"))?,
    })
}

fn initialize(answer: &str) -> Result<NavigationCapabilities, String> {
    let object = capabilities_object(answer);
    let raw = raw_capabilities(&object);
    parse_initialize_capabilities(answer, &object, &raw)
}

fn rpc_id(raw: &str) -> Option<RpcId> {
    match word(raw) {
        Some(words) => RpcId::from_text(words).ok(),
        None => RpcId::from_number(i128::from(number(raw)?)).ok(),
    }
}

fn envelope(body: &str) -> Option<Envelope> {
    let members = Members::of(body)?;
    let id = match members.token("id") {
        Some(token) => Some(rpc_id(&token)?),
        None => None,
    };
    Some(Envelope {
        jsonrpc: word(&members.token("jsonrpc")?)?,
        id,
        method: members.token("method").and_then(|token| word(&token)),
        params: members.token("params"),
        result: members.token("result"),
        error: members.token("error"),
    })
}

fn registrations(raw: &str, name: &str) -> Option<Vec<RegistrationItem>> {
    let members = Members::of(raw)?;
    tokens(&members.token(name)?)?
        .iter()
        .map(|item| {
            let members = Members::of(item)?;
            Some(RegistrationItem {
                id: members.token("id")?,
                method: members.token("method")?,
            })
        })
        .collect()
}

fn read_call(method: &str, raw: Option<&str>) -> Option<CallParams> {
    let raw = raw?;
    let members = Members::of(raw)?;
    match method {
        "workspace/configuration" => {
            let items: Option<Vec<ConfigurationItem>> = tokens(&members.token("items")?)?
                .iter()
                .map(|item| {
                    let members = Members::of(item)?;
                    Some(ConfigurationItem {
                        scope_uri: members.token("scopeUri"),
                        section: members.token("section"),
                    })
                })
                .collect();
            Some(CallParams::Configuration(items?))
        }
        "workspace/applyEdit" => Some(CallParams::ApplyEdit {
            label: members.token("label"),
            edit: members.token("edit")?,
        }),
        "client/registerCapability" => {
            Some(CallParams::Registrations(registrations(raw, "registrations")?))
        }
        "client/unregisterCapability" => Some(CallParams::Registrations(registrations(
            raw,
            "unregisterations",
        )?)),
        "window/workDoneProgress/create" => {
            rpc_id(&members.token("token")?)?;
            Some(CallParams::Progress)
        }
        "window/showMessageRequest" => Some(CallParams::ShowMessage {
            kind: number(&members.token("type")?)? as u8,
            message: members.token("message")?,
            actions: match members.token("actions") {
                None => vec![],
                Some(actions) => tokens(&actions)?
                    .iter()
                    .map(|action| Members::of(action)?.token("title"))
                    .collect::<Option<Vec<String>>>()?,
            },
        }),
        _ => None,
    }
}

fn call(method: &str, raw: Option<&str>) -> Result<CallReply, ServerCallError> {
    let params = read_call(method, raw).unwrap_or(CallParams::Unread);
    server_call_result(method, raw, &params, &path_to_lsp_uri(PathStyle::Unix, b"/w"))
}

fn parts(body: &str) -> FrameParts {
    let envelope = envelope(body);
    let result = envelope.as_ref().and_then(|found| found.result.clone());
    let error = envelope.as_ref().and_then(|found| found.error.clone());
    let object = match &result {
        Some(result) => capabilities_object(result),
        None => Err("no result".to_string()),
    };
    let method = envelope.as_ref().and_then(|found| found.method.clone());
    let params = envelope.as_ref().and_then(|found| found.params.clone());
    FrameParts {
        call: match method {
            Some(method) => {
                read_call(&method, params.as_deref()).unwrap_or(CallParams::Unread)
            }
            None => CallParams::Unread,
        },
        error_message: error
            .and_then(|error| Members::of(&error)?.token("message"))
            .ok_or_else(|| "invalid language server error".to_string()),
        capabilities: raw_capabilities(&object),
        capabilities_object: object,
        locations: location_parts(result.as_deref().unwrap_or("")),
        symbols: symbol_items(result.as_deref().unwrap_or("")),
        envelope,
    }
}

// Making ----------------------------------------------------------------------------------

struct Budget {
    session: PayloadBudget,
    global: GlobalPayloadBudget,
}

fn budget() -> Budget {
    Budget {
        session: PayloadBudget::session(),
        global: GlobalPayloadBudget::default(),
    }
}

impl Budget {
    fn used(&self) -> usize {
        self.session.session.used()
    }

    fn locations(
        &mut self,
        raw: &str,
        allow_links: bool,
    ) -> Result<Vec<ProtocolLocation>, LocationError> {
        let parts = location_parts(raw);
        if parts.unread.is_some() {
            return Err(LocationError::UnreadArray);
        }
        parse_bounded_locations(&parts.items, &mut self.session, &mut self.global, allow_links)
            .map_err(|fault| fault.error)
    }

    fn navigation(
        &mut self,
        operation: NavigationOperation,
        raw: &str,
    ) -> Result<Vec<ProtocolLocation>, LocationError> {
        parse_navigation_result(
            operation,
            raw,
            &location_parts(raw),
            &mut self.session,
            &mut self.global,
        )
        .map_err(|fault| fault.error)
    }

    fn symbols(
        &mut self,
        raw: &str,
        source: &NavigationSource,
    ) -> Result<Vec<ProtocolDocumentSymbol>, SymbolError> {
        parse_document_symbol_result(
            raw,
            &symbol_items(raw),
            source,
            &mut self.session,
            &mut self.global,
        )
        .map_err(|fault| fault.error)
    }

    fn error(&mut self, raw: &str) -> Option<(String, latte_lens::payload::PayloadPermit)> {
        let message = Members::of(raw)?.token("message")?;
        parse_protocol_error(&message, &mut self.session, &mut self.global).ok()
    }
}

fn source(name: &str, words: &str) -> Arc<NavigationSource> {
    let path = format!("/w/{name}");
    Arc::new(NavigationSource {
        identity: ContentIdentity {
            bytes: name.as_bytes().to_vec(),
        },
        style: PathStyle::Unix,
        uri: path_to_lsp_uri(PathStyle::Unix, path.as_bytes()),
        absolute_path: path.into_bytes(),
        content_root: b"/w".to_vec(),
        disk_raw_len: words.len() as u64,
        server_root: b"/w".to_vec(),
        language: language_for_path(PathStyle::Unix, name.as_bytes()).unwrap(),
        line_index: LineIndex::new(words).unwrap(),
        structure: StructureSnapshot::unavailable(),
        text: words.to_string(),
    })
}

fn request(
    generation: u64,
    operation: NavigationOperation,
    source: Arc<NavigationSource>,
) -> NavigationRuntimeRequest {
    NavigationRuntimeRequest {
        generation,
        operation,
        origin: SourcePosition { line: 0, byte: 0 },
        source,
        version: DocumentVersion(1),
    }
}

fn manager() -> NavigationManager {
    NavigationManager::new(PathStyle::Unix, b"/w".to_vec(), NavigationSettings::disabled(), true)
}

fn key() -> SessionKey {
    SessionKey {
        style: PathStyle::Unix,
        server_root: b"/w".to_vec(),
        family: LanguageFamily::Rust,
    }
}

fn starting_initialize_session(manager: &mut NavigationManager) -> SessionKey {
    let mut allocator = RequestIdAllocator::default();
    let id = allocator.allocate().unwrap();
    manager.sessions.push(LspSession {
        key: key(),
        root_uri: path_to_lsp_uri(PathStyle::Unix, b"/w"),
        epoch: SessionEpoch(1),
        state: ServerState::Starting { since: 0 },
        budget: PayloadBudget::session(),
        allocator,
        retired: RetiredIds::default(),
        pending: vec![PendingEntry {
            id,
            request: PendingRequest::Initialize {
                deadline: INITIALIZE_TIMEOUT,
            },
        }],
        deferred: None,
        opened: None,
        writer: Some(Outbox {
            frames: vec![],
            closed: false,
        }),
        inbox: vec![],
        io_done: IoThreads::empty(),
        io_joined: IoThreads::empty(),
        ready_since: None,
    });
    key()
}

fn install_ready_session(
    manager: &mut NavigationManager,
    capabilities: NavigationCapabilities,
) -> SessionKey {
    let key = starting_initialize_session(manager);
    let session = &mut manager.sessions[0];
    session.pending.clear();
    session.allocator.next = Some(100);
    session.state = ServerState::Ready { capabilities };
    session.ready_since = Some(0);
    key
}

fn navigation_capabilities(text_document_sync: TextSyncCapability) -> NavigationCapabilities {
    NavigationCapabilities {
        definition: true,
        references: true,
        implementations: true,
        document_symbols: true,
        text_document_sync,
    }
}

fn full_sync() -> NavigationCapabilities {
    navigation_capabilities(TextSyncCapability {
        open_close: true,
        change: TextChangeCapability::Full,
    })
}

fn pending_user_request(
    manager: &mut NavigationManager,
    generation: u64,
    operation: NavigationOperation,
    source: &Arc<NavigationSource>,
) -> PendingUserRequest {
    let request = request(generation, operation, Arc::clone(source));
    let document = NavigationDocument::from_source(
        Arc::clone(source),
        request.version,
        &mut manager.sessions[0].budget,
        &mut manager.global,
    )
    .unwrap();
    PendingUserRequest { request, document }
}

fn add_pending(
    manager: &mut NavigationManager,
    id: i32,
    generation: u64,
    operation: NavigationOperation,
    source: &Arc<NavigationSource>,
    deadline: u64,
) {
    let pending = pending_user_request(manager, generation, operation, source);
    manager.sessions[0].pending.push(PendingEntry {
        id,
        request: PendingRequest::Navigation { pending, deadline },
    });
}

/// A frame comes in, and is handled.
fn deliver(manager: &mut NavigationManager, key: &SessionKey, body: &str) {
    let session = &mut manager.sessions[0];
    let permit = session
        .budget
        .reserve(&mut manager.global, body.len())
        .unwrap();
    let frame = ChargedPayload {
        bytes: body.as_bytes().to_vec(),
        permit,
    };
    session
        .enqueue_inbound_frame(&mut manager.global, frame)
        .unwrap();
    manager.handle_frame(key, &parts(body), 10);
}

/// Cleans the sessions up that failed and have neither a process nor threads.
fn cleanup_failed_sessions(manager: &mut NavigationManager, now: u64) {
    while !manager.failed.is_empty() {
        let mut progress = CleanupProgress::default();
        let session = &mut manager.failed[0].session;
        session.begin_cleanup(&mut manager.global, &mut progress, true);
        for frame in session.close_writer() {
            manager.global.pool.release(frame.permit.bytes());
        }
        progress.poll_tree_exit(TreePoll::Absent, false);
        let outcome = session.finalize_cleanup(progress, 0, &mut manager.stats);
        assert_eq!(outcome, CleanupOutcome::Complete);
        manager.finish_failed_session_cleanup(0, outcome, now);
    }
}

fn results(manager: &NavigationManager) -> Vec<&NavigationProtocolResult> {
    manager
        .completions
        .queued
        .iter()
        .map(|queued| &queued.completion.result)
        .collect()
}

fn failure(manager: &NavigationManager) -> &str {
    match results(manager).last().expect("a completion") {
        NavigationProtocolResult::Failed(message) => message,
        other => panic!("expected a failure, got {other:?}"),
    }
}

fn written(frame: &ChargedPayload) -> &str {
    std::str::from_utf8(frame.as_slice()).unwrap()
}

// Frames ----------------------------------------------------------------------------------

#[test]
fn frame_backpressure_reports_terminal_reader_failure_on_independent_control_channel() {
    let mut manager = manager();
    starting_initialize_session(&mut manager);
    let session = &mut manager.sessions[0];
    for index in 0..SESSION_FRAME_CAPACITY {
        let bytes = vec![b'0' + u8::try_from(index).unwrap()];
        let permit = session
            .budget
            .reserve(&mut manager.global, bytes.len())
            .unwrap();
        let frame = ChargedPayload { bytes, permit };
        assert!(session
            .enqueue_inbound_frame(&mut manager.global, frame)
            .is_ok());
    }
    let permit = session.budget.reserve(&mut manager.global, 1).unwrap();
    let frame = ChargedPayload {
        bytes: vec![b'x'],
        permit,
    };
    let error = session
        .enqueue_inbound_frame(&mut manager.global, frame)
        .unwrap_err();
    assert_eq!(error, InboxError::Full);
    let event = SessionControlEvent::ReaderFailed(error.message().to_string());
    let message = control_error(ControlPoll::Event(event)).unwrap();
    assert!(message.contains("frame channel is full"));
    assert_eq!(session.inbox.len(), SESSION_FRAME_CAPACITY);
    assert_eq!(session.budget.session.used(), SESSION_FRAME_CAPACITY);
}

#[test]
fn lifecycle_accepts_each_kind_once_and_rejects_duplicates_and_old_epochs() {
    let epoch = SessionEpoch(7);
    let mut completed = IoThreads::empty();
    for kind in [
        IoThreadKind::Stdin,
        IoThreadKind::Stdout,
        IoThreadKind::Stderr,
    ] {
        record_io_done(
            epoch,
            &mut completed,
            IoThreadDone {
                kind,
                session_epoch: 7,
            },
        )
        .unwrap();
    }
    assert_eq!(completed.len(), IO_THREAD_COUNT);
    let twice = record_io_done(
        epoch,
        &mut completed,
        IoThreadDone {
            kind: IoThreadKind::Stdout,
            session_epoch: 7,
        },
    );
    assert!(twice.is_err());
    assert_eq!(twice.unwrap_err(), LifecycleError::CompletedTwice);
    let old = record_io_done(
        epoch,
        &mut IoThreads::empty(),
        IoThreadDone {
            kind: IoThreadKind::Stdout,
            session_epoch: 6,
        },
    );
    assert!(old.is_err());
    assert_eq!(old.unwrap_err(), LifecycleError::EpochMismatch);
}

#[test]
fn preflight_and_parse_hold_a_body_sized_scratch_permit() {
    let mut manager = manager();
    let key = install_ready_session(&mut manager, full_sync());
    let body = r#"{"jsonrpc":"2.0","method":"window/logMessage","params":"escaped\nvalue"}"#;
    assert!(json_preflight(body.as_bytes()).is_ok());
    let before = manager.sessions[0].budget.session.used();
    deliver(&mut manager, &key, body);
    assert_eq!(manager.sessions[0].budget.session.used(), before);
    assert_eq!(before, 0);
    assert!(manager.find_session(&key).is_some());
}

#[test]
fn rpc_ids_preserve_signed_and_string_and_allocator_never_wraps() {
    assert_eq!(rpc_id("-2").unwrap(), RpcId::Signed(-2));
    assert_eq!(
        rpc_id(r#""server""#).unwrap(),
        RpcId::String("server".into())
    );
    assert!(rpc_id("1.5").is_none());
    assert!(rpc_id("2147483648").is_none());
    assert_eq!(
        RpcId::from_number(2_147_483_648).unwrap_err(),
        RpcIdError::OutOfRange
    );
    assert_eq!(
        RpcId::from_text("x".repeat(4 * 1024 + 1)).unwrap_err(),
        RpcIdError::TooLong
    );

    let mut allocator = RequestIdAllocator {
        next: Some(i32::MAX),
    };
    assert_eq!(allocator.allocate().unwrap(), i32::MAX);
    assert!(allocator.allocate().is_none());
    assert!(cancel_body(&RpcId::Signed(-7)).contains(r#""id":-7"#));
    assert!(cancel_body(&RpcId::String("server".into())).contains(r#""id":"server""#));
}

#[test]
fn retired_ids_force_restart_at_the_sixty_fifth_unique_id() {
    let mut retired = RetiredIds::default();
    for value in 0..MAX_RETIRED_IDS {
        assert!(retired.insert(RpcId::Signed(value as i32)));
    }
    assert!(!retired.insert(RpcId::Signed(99)));
    assert!(retired.take(&RpcId::Signed(0)));
    assert!(retired.insert(RpcId::Signed(99)));
    assert!(!retired.take(&RpcId::Signed(0)));
}

// Answers ---------------------------------------------------------------------------------

#[test]
fn shutdown_response_distinguishes_present_null_result_from_missing_result() {
    let shutdown_id = RpcId::Signed(7);
    for (body, expected) in [
        (r#"{"jsonrpc":"2.0","id":7,"result":null}"#, true),
        (r#"{"jsonrpc":"2.0","id":7}"#, false),
        (
            r#"{"jsonrpc":"2.0","id":7,"error":{"message":"failed"}}"#,
            false,
        ),
    ] {
        let mut budget = budget();
        assert_eq!(
            is_shutdown_response(
                body.as_bytes(),
                envelope(body).as_ref(),
                &mut budget.session,
                &mut budget.global,
                &shutdown_id
            ),
            expected
        );
        assert_eq!(budget.used(), 0);
    }
}

#[test]
fn initialize_requires_utf16_and_accepts_the_lsp_default() {
    for raw in [
        r#"{"capabilities":{}}"#,
        r#"{"capabilities":{"positionEncoding":"utf-16"}}"#,
    ] {
        assert!(initialize(raw).is_ok());
    }
    for encoding in ["utf-8", "utf-32", "future-encoding"] {
        let raw = format!(r#"{{"capabilities":{{"positionEncoding":"{encoding}"}}}}"#);
        let error = initialize(&raw).unwrap_err();
        assert!(error.contains("requires UTF-16"), "{error}");
    }
    assert!(initialize(r#"{"capabilities":[]}"#).is_err());
    assert!(initialize(
        r#"{"capabilities":{"definitionProvider":[],"referencesProvider":true}}"#
    )
    .is_err());
}

#[test]
fn minimal_initialize_parser_accepts_known_boolean_object_and_text_sync_shapes() {
    let capabilities = initialize(
        r#"{
                "capabilities": {
                    "definitionProvider": true,
                    "referencesProvider": false,
                    "implementationProvider": {"workDoneProgress": true},
                    "documentSymbolProvider": {"label": "outline"},
                    "textDocumentSync": {"openClose": true, "change": 2, "save": {"includeText": true}}
                },
                "serverInfo": {"name": "ignored", "version": "1"}
            }"#,
    )
    .unwrap();
    assert!(capabilities.definition);
    assert!(!capabilities.references);
    assert!(capabilities.implementations);
    assert!(capabilities.document_symbols);
    assert_eq!(
        capabilities.text_document_sync,
        TextSyncCapability {
            open_close: true,
            change: TextChangeCapability::Incremental,
        }
    );

    for (kind, expected) in [
        (
            0,
            TextSyncCapability {
                open_close: false,
                change: TextChangeCapability::Absent,
            },
        ),
        (
            1,
            TextSyncCapability {
                open_close: true,
                change: TextChangeCapability::Full,
            },
        ),
        (
            2,
            TextSyncCapability {
                open_close: true,
                change: TextChangeCapability::Incremental,
            },
        ),
    ] {
        let raw = format!(r#"{{"capabilities":{{"textDocumentSync":{kind}}}}}"#);
        assert_eq!(initialize(&raw).unwrap().text_document_sync, expected);
    }
    for invalid in [
        r#"{"capabilities":{"textDocumentSync":3}}"#,
        r#"{"capabilities":{"textDocumentSync":[]}}"#,
        r#"{"capabilities":{"textDocumentSync":{"openClose":true,"openClose":false}}}"#,
        r#"{"capabilities":{"textDocumentSync":{"change":1,"change":2}}}"#,
    ] {
        assert!(initialize(invalid).is_err(), "{invalid}");
    }
    assert_eq!(
        initialize(r#"{"capabilities":{"textDocumentSync":{"openClose":true}}}"#)
            .unwrap()
            .text_document_sync
            .change,
        TextChangeCapability::Absent
    );
}

#[test]
fn production_initialize_parser_has_no_open_lsp_capability_dom() {
    // Members that nobody asks for do not make a difference, however they look.
    let padded = format!(
        r#"{{"capabilities":{{"definitionProvider":true,"experimental":{{"a":[{}]}}}}}}"#,
        vec!["1"; 1_000].join(",")
    );
    assert_eq!(
        initialize(&padded),
        initialize(r#"{"capabilities":{"definitionProvider":true}}"#)
    );
}

fn near_limit_initialize_response() -> String {
    let escaped = r"\u0061".repeat(650_000);
    let body = format!(
        r#"{{"jsonrpc":"2.0","id":0,"result":{{"capabilities":{{"positionEncoding":"utf-16","definitionProvider":{{}},"referencesProvider":true,"implementationProvider":true,"documentSymbolProvider":true,"textDocumentSync":{{"openClose":true,"change":2}},"experimental":{{"escaped":"{escaped}"}}}}}}}}"#,
    );
    assert!(body.len() <= MAX_BODY_BYTES);
    assert!(body.len() > MAX_BODY_BYTES - 512 * 1024);
    body
}

fn decode_framed_response(manager: &mut NavigationManager, body: &[u8]) -> ChargedPayload {
    let budget = &mut manager.sessions[0].budget;
    let global = &mut manager.global;
    let mut decoder = FrameDecoder::default();
    let header = format!("Content-Length: {}\r\n\r\n", body.len());
    assert!(decoder
        .push(header.as_bytes(), budget, global)
        .unwrap()
        .is_empty());
    let mut frames = Vec::new();
    for chunk in body.chunks(64 * 1024) {
        frames.extend(decoder.push(chunk, budget, global).unwrap());
    }
    decoder.finish().unwrap();
    assert_eq!(frames.len(), 1);
    frames.pop().unwrap()
}

#[test]
fn near_four_mib_initialize_response_uses_production_framing_budget_and_actor_path() {
    let mut manager = manager();
    let key = starting_initialize_session(&mut manager);
    let body = near_limit_initialize_response();
    let frame = decode_framed_response(&mut manager, body.as_bytes());
    assert_eq!(manager.sessions[0].budget.session.used(), body.len());
    assert_eq!(manager.global.pool.used(), body.len());
    manager.sessions[0]
        .enqueue_inbound_frame(&mut manager.global, frame)
        .unwrap();
    manager.handle_frame(&key, &parts(&body), 10);

    let session = &mut manager.sessions[0];
    let ServerState::Ready { capabilities } = &session.state else {
        panic!("initialize response did not make the production session ready");
    };
    assert!(capabilities.definition);
    assert!(capabilities.references);
    assert!(capabilities.implementations);
    assert!(capabilities.document_symbols);
    assert_eq!(
        capabilities.text_document_sync,
        TextSyncCapability {
            open_close: true,
            change: TextChangeCapability::Incremental,
        }
    );

    let initialized = session.next_outgoing().unwrap();
    assert!(written(&initialized).contains(r#""method":"initialized""#));
    assert_eq!(session.budget.session.used(), initialized.len());
    assert_eq!(manager.global.pool.used(), initialized.len());
    manager.release(Some(SessionEpoch(1)), initialized.permit);
    assert_eq!(manager.sessions[0].budget.session.used(), 0);
    assert_eq!(manager.global.pool.used(), 0);
}

#[test]
fn initialize_actor_rejects_when_body_sized_scratch_permit_cannot_be_acquired() {
    let mut manager = manager();
    let key = starting_initialize_session(&mut manager);
    let body = near_limit_initialize_response();
    let frame = decode_framed_response(&mut manager, body.as_bytes());
    let scratch_headroom = body.len() - 1;
    let session = &mut manager.sessions[0];
    let blocker = session
        .budget
        .reserve(
            &mut manager.global,
            SESSION_PAYLOAD_BUDGET - body.len() - scratch_headroom,
        )
        .unwrap();
    assert_eq!(
        SESSION_PAYLOAD_BUDGET - session.budget.session.used(),
        scratch_headroom
    );
    session
        .enqueue_inbound_frame(&mut manager.global, frame)
        .unwrap();
    manager.handle_frame(&key, &parts(&body), 10);
    assert_eq!(
        manager.failed[0].session.budget.session.used(),
        blocker.bytes()
    );
    cleanup_failed_sessions(&mut manager, 10);

    assert!(manager.find_session(&key).is_none());
    assert_eq!(
        manager.book.backoff(&key).unwrap().error,
        "language server response exceeded the navigation payload budget"
    );
    assert_eq!(manager.global.pool.used(), blocker.bytes());
    manager.release(Some(SessionEpoch(1)), blocker);
    assert_eq!(manager.global.pool.used(), 0);
}

#[test]
fn bounded_location_parser_rejects_count_mixed_shape_and_long_uri() {
    let mut budget = budget();
    let location = r#"{"uri":"file:///tmp/a.rs","range":{"start":{"line":0,"character":0},"end":{"line":0,"character":1}}}"#;
    let link = r#"{"targetUri":"file:///tmp/a.rs","targetRange":{"start":{"line":0,"character":0},"end":{"line":0,"character":2}},"targetSelectionRange":{"start":{"line":0,"character":0},"end":{"line":0,"character":1}}}"#;
    let too_many = format!("[{}]", vec![location; 2_001].join(","));
    assert!(budget.locations(&too_many, true).is_err());
    assert!(budget
        .locations(&format!("[{location},{link}]"), true)
        .is_err());
    assert!(budget
        .navigation(NavigationOperation::References, location)
        .is_err());
    let long_uri = format!(
        r#"[{{"uri":"file:///{}","range":{{"start":{{"line":0,"character":0}},"end":{{"line":0,"character":1}}}}}}]"#,
        "a".repeat(MAX_RESULT_URI_BYTES + 1)
    );
    assert!(budget.locations(&long_uri, false).is_err());
    assert!(budget
        .navigation(NavigationOperation::Definition, "null")
        .unwrap()
        .is_empty());
    assert!(budget
        .navigation(NavigationOperation::DocumentSymbols, "[]")
        .is_err());
    assert_eq!(budget.locations(link, true).unwrap().len(), 1);
    assert!(budget.locations(link, false).is_err());
}

#[test]
fn locations_are_refused_for_a_reason() {
    let mut budget = budget();
    let location = r#"{"uri":"file:///tmp/a.rs","range":{"start":{"line":0,"character":0},"end":{"line":0,"character":1}}}"#;
    let exactly = format!("[{}]", vec![location; MAX_LOCATION_RESULTS].join(","));
    let found = budget.locations(&exactly, false).unwrap();
    assert_eq!(found.len(), MAX_LOCATION_RESULTS);
    assert_eq!(found[0].uri, "file:///tmp/a.rs");
    release_locations(found, &mut budget.session, &mut budget.global);
    assert_eq!(budget.used(), 0);
    let fault = |raw: &str, budget: &mut Budget| budget.locations(raw, false).unwrap_err();
    let more = format!("[{}]", vec![location; MAX_LOCATION_RESULTS + 1].join(","));
    assert_eq!(fault(&more, &mut budget), LocationError::TooMany);
    assert_eq!(fault("[{}]", &mut budget), LocationError::ItemShape);
    let relative = location.replace("file:///tmp/a.rs", "no uri at all");
    assert_eq!(
        fault(&format!("[{relative}]"), &mut budget),
        LocationError::InvalidUri
    );
    assert_eq!(
        budget
            .navigation(NavigationOperation::DocumentSymbols, "[]")
            .unwrap_err(),
        LocationError::SymbolsElsewhere
    );
    assert_eq!(
        budget
            .navigation(NavigationOperation::Definition, "42")
            .unwrap_err(),
        LocationError::ResultShape
    );
    assert_eq!(budget.used(), 0);
}

#[test]
fn near_four_mib_location_frame_is_streamed_and_permit_follows_result() {
    let mut budget = budget();
    let location = r#"{"uri":"file:///tmp/target.rs","range":{"start":{"line":0,"character":0},"end":{"line":0,"character":1}}}"#;
    let whitespace = " ".repeat(MAX_BODY_BYTES - location.len() - 3);
    let raw = format!("[{whitespace}{location}]");
    assert!(raw.len() < MAX_BODY_BYTES);
    let locations = budget.locations(&raw, false).unwrap();
    assert_eq!(locations.len(), 1);
    assert!(budget.used() > 0);
    release_locations(locations, &mut budget.session, &mut budget.global);
    assert_eq!(budget.used(), 0);
}

#[test]
fn escaped_uri_symbol_and_error_strings_are_capped_before_owned_decode() {
    let mut budget = budget();
    let escaped_uri = format!("file:///tmp/{}", r"\u0061".repeat(9_000));
    let location = format!(
        r#"[{{"uri":"{escaped_uri}","range":{{"start":{{"line":0,"character":0}},"end":{{"line":0,"character":1}}}}}}]"#
    );
    let locations = budget.locations(&location, false).unwrap();
    assert_eq!(
        locations[0].uri,
        format!("file:///tmp/{}", "a".repeat(9_000))
    );
    assert!(budget.used() > 0);
    release_locations(locations, &mut budget.session, &mut budget.global);
    assert_eq!(budget.used(), 0);

    let huge_escape = r"\u0061".repeat(700_000);
    let huge_location = format!(
        r#"[{{"uri":"file:///tmp/{huge_escape}","range":{{"start":{{"line":0,"character":0}},"end":{{"line":0,"character":1}}}}}}]"#
    );
    assert!(budget.locations(&huge_location, false).is_err());
    assert_eq!(budget.used(), 0);

    let source = source("main.rs", "fn main() {}\n");
    let document = NavigationDocument::from_source(
        Arc::clone(&source),
        DocumentVersion(1),
        &mut budget.session,
        &mut budget.global,
    )
    .unwrap();
    let baseline = budget.used();
    assert_eq!(baseline, document.permit.bytes());
    let huge_symbol = format!(
        r#"[{{"name":"{huge_escape}","kind":12,"range":{{"start":{{"line":0,"character":0}},"end":{{"line":0,"character":12}}}},"selectionRange":{{"start":{{"line":0,"character":3}},"end":{{"line":0,"character":7}}}}}}]"#
    );
    assert!(budget.symbols(&huge_symbol, &source).is_err());
    assert_eq!(budget.used(), baseline);

    let (message, permit) = budget.error(r#"{"message":"f\u0061iled"}"#).unwrap();
    assert_eq!(message, "failed");
    assert!(budget.used() > baseline);
    budget.session.release(&mut budget.global, permit);
    assert_eq!(budget.used(), baseline);
    let huge_error = format!(r#"{{"message":"{huge_escape}"}}"#);
    assert!(budget.error(&huge_error).is_none());
    assert_eq!(budget.used(), baseline);
}

#[test]
fn document_symbols_normalize_nested_utf16_and_flat_same_file_results() {
    let source = source("main.rs", "mod 😀 {}\n");
    let mut budget = budget();
    let before = budget.used();
    let nested = r#"[{"name":"Module","kind":2,"range":{"start":{"line":0,"character":0},"end":{"line":0,"character":9}},"selectionRange":{"start":{"line":0,"character":4},"end":{"line":0,"character":6}},"children":[{"name":"child","detail":"fn","kind":12,"range":{"start":{"line":0,"character":0},"end":{"line":0,"character":9}},"selectionRange":{"start":{"line":0,"character":0},"end":{"line":0,"character":3}}}]}]"#;
    let symbols = budget.symbols(nested, &source).unwrap();
    assert_eq!(symbols.len(), 2);
    assert_eq!(symbols[0].selection_range.start.byte, 4);
    assert_eq!(symbols[0].selection_range.end.byte, 8);
    assert_eq!(symbols[1].parent, Some(0));
    assert_eq!(symbols[1].kind, ProtocolSymbolKind::Function);
    assert!(budget.used() > before);
    release_symbols(symbols, &mut budget.session, &mut budget.global);
    assert_eq!(budget.used(), before);

    let flat = r#"[{"name":"flat","kind":6,"location":{"uri":"file:///w/main.rs","range":{"start":{"line":0,"character":0},"end":{"line":0,"character":9}}},"containerName":"container"}]"#;
    let symbols = budget.symbols(flat, &source).unwrap();
    assert_eq!(symbols.len(), 1);
    assert_eq!(symbols[0].parent, None);
    assert_eq!(symbols[0].container.as_deref(), Some("container"));
    assert_eq!(symbols[0].kind, ProtocolSymbolKind::Method);
}

#[test]
fn document_symbols_reject_mixed_cross_file_invalid_ranges_and_long_strings() {
    let source = source("main.rs", "fn main() {}\n");
    let mut budget = budget();
    let nested = r#"{"name":"nested","kind":12,"range":{"start":{"line":0,"character":0},"end":{"line":0,"character":12}},"selectionRange":{"start":{"line":0,"character":0},"end":{"line":0,"character":2}}}"#;
    let flat = r#"{"name":"flat","kind":12,"location":{"uri":"file:///w/other.rs","range":{"start":{"line":0,"character":0},"end":{"line":0,"character":2}}}}"#;
    let mixed = format!("[{nested},{flat}]");
    assert_eq!(
        budget.symbols(&mixed, &source).unwrap_err(),
        SymbolError::MixedVariants
    );
    assert_eq!(
        budget.symbols(&format!("[{flat}]"), &source).unwrap_err(),
        SymbolError::OtherDocument
    );
    let invalid_selection = r#"[{"name":"bad","kind":12,"range":{"start":{"line":0,"character":0},"end":{"line":0,"character":2}},"selectionRange":{"start":{"line":0,"character":0},"end":{"line":0,"character":3}}}]"#;
    assert_eq!(
        budget.symbols(invalid_selection, &source).unwrap_err(),
        SymbolError::SelectionOutside
    );
    let long = format!(
        r#"[{{"name":"{}","kind":12,"range":{{"start":{{"line":0,"character":0}},"end":{{"line":0,"character":2}}}},"selectionRange":{{"start":{{"line":0,"character":0}},"end":{{"line":0,"character":2}}}}}}]"#,
        "x".repeat(MAX_SYMBOL_STRING_BYTES + 1)
    );
    assert!(budget.symbols(&long, &source).is_err());
    assert_eq!(budget.used(), 0);
    assert_eq!(
        budget.symbols("42", &source).unwrap_err(),
        SymbolError::Unread
    );
    assert!(budget.symbols("null", &source).unwrap().is_empty());
}

#[test]
fn server_configuration_preserves_item_count_and_invalid_params_are_nonfatal() {
    for (json, expected) in [
        (r#"{"items":[]}"#, 0usize),
        (r#"{"items":[{"section":"rust"}]}"#, 1),
        (
            r#"{"items":[{"scopeUri":"file:///tmp/a","section":"one"},{"section":"two"},{"section":"three"}]}"#,
            3,
        ),
    ] {
        let result = call("workspace/configuration", Some(json))
            .expect("valid bounded configuration request");
        assert!(matches!(result, CallReply::Nulls(count) if count == expected));
    }
    let too_many = format!(
        r#"{{"items":[{}]}}"#,
        vec![r#"{"section":"x"}"#; MAX_CONFIGURATION_ITEMS + 1].join(",")
    );
    let invalid = |method: &str, json: &str| {
        matches!(call(method, Some(json)), Err(ServerCallError::InvalidParams))
    };
    assert!(invalid("workspace/configuration", &too_many));
    assert!(invalid("workspace/configuration", r#"{"items":"not-an-array"}"#));
    assert!(invalid("workspace/workspaceFolders", r#"{}"#));

    let folders = call("workspace/workspaceFolders", None);
    let body = response_body(&RpcId::Signed(1), &folders);
    let body: serde_json::Value = serde_json::from_str(&body).unwrap();
    assert_eq!(body["result"][0]["name"], "workspace");
    assert_eq!(body["result"][0]["uri"], "file:///w");
    for (method, json) in [
        (
            "workspace/applyEdit",
            r#"{"label":"preview edit","edit":{"changes":{}}}"#,
        ),
        (
            "client/registerCapability",
            r#"{"registrations":[{"id":"one","method":"workspace/didChangeConfiguration"}]}"#,
        ),
        (
            "client/unregisterCapability",
            r#"{"unregisterations":[{"id":"one","method":"workspace/didChangeConfiguration"}]}"#,
        ),
        ("window/workDoneProgress/create", r#"{"token":"progress"}"#),
        (
            "window/showMessageRequest",
            r#"{"type":2,"message":"choose","actions":[{"title":"dismiss"}]}"#,
        ),
    ] {
        let result = call(method, Some(json)).unwrap();
        if method == "workspace/applyEdit" {
            assert!(matches!(result, CallReply::EditRefused));
        } else {
            assert!(matches!(result, CallReply::Null), "{method}");
        }
    }
    for (method, json) in [
        ("workspace/applyEdit", r#"{"edit":[]}"#),
        (
            "client/registerCapability",
            r#"{"registrations":[{"id":{},"method":"x"}]}"#,
        ),
        (
            "client/unregisterCapability",
            r#"{"unregisterations":"bad"}"#,
        ),
        ("window/workDoneProgress/create", r#"{"token":{}}"#),
        ("window/showMessageRequest", r#"{"type":9,"message":"bad"}"#),
    ] {
        assert!(invalid(method, json), "{method}");
    }
    let oversized = format!(r#"{{"items":[],"padding":"{}"}}"#, "x".repeat(65_536));
    assert!(invalid("workspace/configuration", &oversized));
    assert!(matches!(
        call("latte/unknown", None),
        Err(ServerCallError::MethodNotFound)
    ));
}

#[test]
fn replies_to_servers_are_json() {
    let body = |outcome| {
        let words = response_body(&RpcId::String("a\"b".into()), &outcome);
        serde_json::from_str::<serde_json::Value>(&words).unwrap()
    };
    let refused = body(Ok(CallReply::EditRefused));
    assert_eq!(refused["id"], "a\"b");
    assert_eq!(refused["result"]["applied"], false);
    let nulls = body(Ok(CallReply::Nulls(2)));
    assert_eq!(nulls["result"].as_array().unwrap().len(), 2);
    assert!(nulls["result"][1].is_null());
    assert!(body(Ok(CallReply::Null))["result"].is_null());
    assert_eq!(
        body(Err(ServerCallError::MethodNotFound))["error"]["code"],
        -32601
    );
    assert_eq!(
        body(Err(ServerCallError::InvalidParams))["error"]["code"],
        -32602
    );
}

#[test]
fn messages_to_servers_are_json() {
    let read = |words: String| serde_json::from_str::<serde_json::Value>(&words).unwrap();
    let id = RpcId::Signed(3);
    let start = read(initialize_body(&id, 42, "file:///w", "w"));
    assert_eq!(start["method"], "initialize");
    assert_eq!(start["id"], 3);
    assert_eq!(start["params"]["processId"], 42);
    assert_eq!(start["params"]["rootUri"], "file:///w");
    assert_eq!(start["params"]["workspaceFolders"][0]["name"], "w");
    assert_eq!(read(initialized_body())["method"], "initialized");
    assert_eq!(read(exit_body())["method"], "exit");
    assert_eq!(read(shutdown_body(&id))["method"], "shutdown");
    assert_eq!(read(cancel_body(&id))["params"]["id"], 3);
    assert_eq!(
        read(close_body("file:///a"))["params"]["textDocument"]["uri"],
        "file:///a"
    );
    let open = read(open_body("rust", "fn \"a\"\n\u{1}", "file:///a", 2));
    assert_eq!(open["params"]["textDocument"]["text"], "fn \"a\"\n\u{1}");
    assert_eq!(open["params"]["textDocument"]["version"], 2);
    assert_eq!(open["params"]["textDocument"]["languageId"], "rust");
    let position = Position {
        line: 1,
        character: 2,
    };
    let asked = read(request_body(
        &id,
        NavigationOperation::References,
        "file:///a",
        position,
    ));
    assert_eq!(asked["method"], "textDocument/references");
    assert_eq!(asked["params"]["position"]["character"], 2);
    let symbols = read(request_body(
        &id,
        NavigationOperation::DocumentSymbols,
        "file:///a",
        position,
    ));
    assert_eq!(symbols["method"], "textDocument/documentSymbol");
    assert!(symbols["params"]["position"].is_null());
}

#[test]
fn messages_of_servers_are_cleaned() {
    assert_eq!(clean_protocol_message("a\u{1b}[0m\nb"), "a[0mb");
    assert_eq!(clean_protocol_message(&"é".repeat(300)).chars().count(), 240);
}

// Sessions --------------------------------------------------------------------------------

#[test]
fn protocol_error_completion_permit_is_leased_until_the_next_app_drain() {
    let mut actor = manager();
    install_ready_session(&mut actor, full_sync());
    let request = request(
        41,
        NavigationOperation::Definition,
        source("main.rs", "fn main() {}\n"),
    );
    let (message, permit) = parse_protocol_error(
        r#""escaped \u0065rror""#,
        &mut actor.sessions[0].budget,
        &mut actor.global,
    )
    .unwrap();
    actor.complete_request_with_permit(
        &request,
        NavigationProtocolResult::Failed(message),
        Some(SessionEpoch(1)),
        Some(permit),
    );
    assert!(actor.sessions[0].budget.session.used() > 0);

    let completions = actor.take_completions();
    assert_eq!(completions.len(), 1);
    assert!(actor.sessions[0].budget.session.used() > 0);
    drop(completions);
    assert!(actor.take_completions().is_empty());
    assert_eq!(actor.sessions[0].budget.session.used(), 0);
    assert_eq!(actor.global.pool.used(), 0);
}

#[test]
fn synthetic_sessions_reject_unsupported_bad_positions_and_writer_backpressure() {
    let source = source("main.rs", "fn main() {}\n");
    let capabilities = |definition| NavigationCapabilities {
        definition,
        references: false,
        implementations: false,
        document_symbols: false,
        text_document_sync: TextSyncCapability {
            open_close: false,
            change: TextChangeCapability::Full,
        },
    };

    let mut actor = manager();
    let key = install_ready_session(&mut actor, capabilities(false));
    let pending = pending_user_request(&mut actor, 1, NavigationOperation::Definition, &source);
    actor.dispatch_navigation(0, pending, 10);
    assert!(matches!(
        results(&actor).last().unwrap(),
        NavigationProtocolResult::Unavailable(_)
    ));
    assert!(actor.find_session(&key).is_some());
    assert_eq!(actor.global.pool.used(), 0);

    let mut actor = manager();
    let key = install_ready_session(&mut actor, capabilities(true));
    let mut bad_position =
        pending_user_request(&mut actor, 2, NavigationOperation::Definition, &source);
    bad_position.request.origin.byte = usize::MAX;
    actor.dispatch_navigation(0, bad_position, 10);
    assert!(failure(&actor).contains("outside the line"));
    assert!(actor.find_session(&key).is_some());

    let mut actor = manager();
    let key = install_ready_session(&mut actor, capabilities(true));
    for value in 0..SESSION_WRITER_CAPACITY {
        let body = format!(r#"{{"fill":{value}}}"#);
        actor.sessions[0]
            .send_body(&mut actor.global, &body)
            .unwrap();
    }
    assert!(actor.sessions[0]
        .send_body(&mut actor.global, r#"{"full":true}"#)
        .is_err());
    let pending = pending_user_request(&mut actor, 3, NavigationOperation::Definition, &source);
    actor.dispatch_navigation(0, pending, 10);
    cleanup_failed_sessions(&mut actor, 10);
    assert!(actor.find_session(&key).is_none());
    assert!(actor.book.backoff(&key).is_some());
    assert!(failure(&actor).contains("queue is full"));
}

#[test]
fn bounded_completion_queues_evict_the_oldest_generation() {
    let source = source("README.md", "# title\n");
    let mut actor = manager();
    for generation in 0..=NAVIGATION_COMPLETION_CAPACITY as u64 {
        let request = request(
            generation,
            NavigationOperation::DocumentSymbols,
            Arc::clone(&source),
        );
        actor.complete_request(&request, NavigationProtocolResult::Cancelled);
        actor.complete_document_symbols(&request, Vec::new(), SessionEpoch(1));
    }
    let completions = &actor.completions.queued;
    let symbols = &actor.completions.symbols;
    assert_eq!(completions.len(), NAVIGATION_COMPLETION_CAPACITY);
    assert_eq!(symbols.len(), NAVIGATION_COMPLETION_CAPACITY);
    assert_eq!(completions[0].completion.generation, 1);
    assert_eq!(symbols[0].generation, 1);
    assert_eq!(actor.take_completions().len(), NAVIGATION_COMPLETION_CAPACITY);
    assert_eq!(
        actor.take_symbol_completions().len(),
        NAVIGATION_COMPLETION_CAPACITY
    );
}

#[test]
fn initialize_timeout_forces_terminal_cleanup_and_completes_deferred_request() {
    let source = source("main.rs", "fn main() {}\n");
    let mut manager = manager();
    let key = starting_initialize_session(&mut manager);
    let deferred =
        pending_user_request(&mut manager, 7, NavigationOperation::Definition, &source);
    manager.sessions[0].deferred = Some(deferred);
    manager.expire_requests_at(INITIALIZE_TIMEOUT + 1);
    cleanup_failed_sessions(&mut manager, INITIALIZE_TIMEOUT + 1);
    assert!(manager.find_session(&key).is_none());
    assert!(manager.book.backoff(&key).is_some());
    assert_eq!(results(&manager).len(), 1);
    assert!(failure(&manager).contains("initialization timed out"));
    assert_eq!(manager.global.pool.used(), 0);
}

#[test]
fn timeout_and_cancellation_retire_every_request_location_and_absorb_late_results() {
    let source = source("main.rs", "fn main() {}\n");
    let mut actor = manager();
    let key = install_ready_session(&mut actor, full_sync());
    let expired_id = RpcId::Signed(7);
    add_pending(&mut actor, 7, 10, NavigationOperation::Definition, &source, 5);
    actor.expire_requests_at(6);
    assert!(actor.sessions[0].retired.order.contains(&expired_id));
    assert!(failure(&actor).contains("timed out"));
    let cancel_frame = actor.sessions[0].next_outgoing().unwrap();
    assert!(written(&cancel_frame).contains(r#""method":"$/cancelRequest""#));
    actor.release(Some(SessionEpoch(1)), cancel_frame.permit);
    deliver(&mut actor, &key, r#"{"jsonrpc":"2.0","id":7,"result":null}"#);
    assert!(actor.find_session(&key).is_some());
    assert!(!actor.sessions[0].retired.order.contains(&expired_id));

    let deferred = pending_user_request(&mut actor, 11, NavigationOperation::References, &source);
    actor.sessions[0].deferred = Some(deferred);
    let waiting =
        pending_user_request(&mut actor, 12, NavigationOperation::Implementations, &source);
    actor.disk_waiting.push(WaitingRequest {
        key: key.copy(),
        pending: waiting,
    });
    actor.cancel_generation(11);
    actor.cancel_generation(12);
    assert!(actor.sessions[0].deferred.is_none());
    assert!(actor.disk_waiting.is_empty());
    let cancelled = results(&actor)
        .iter()
        .filter(|result| matches!(result, NavigationProtocolResult::Cancelled))
        .count();
    assert!(cancelled >= 2);

    add_pending(&mut actor, 8, 13, NavigationOperation::Definition, &source, 20);
    actor.sessions[0].writer = None;
    actor.expire_requests_at(21);
    cleanup_failed_sessions(&mut actor, 21);
    assert!(actor.find_session(&key).is_none());
    assert!(actor
        .book
        .backoff(&key)
        .unwrap()
        .error
        .contains("cannot retire timed-out"));
}

#[test]
fn polling_classifies_lifecycle_control_and_frame_channel_failures_terminally() {
    let poll = |events: Vec<IoThreadDone>, control: ControlPoll, stopped: bool| {
        let mut actor = manager();
        let key = install_ready_session(&mut actor, full_sync());
        let error = actor
            .poll_session(&key, &events, control)
            .or_else(|| actor.poll_frames(&key, stopped))
            .expect("a failure");
        actor.fail_session(&key, &error);
        cleanup_failed_sessions(&mut actor, 10);
        assert!(actor.find_session(&key).is_none());
        actor.book.backoff(&key).unwrap().error.clone()
    };
    for (event, expected) in [
        (
            SessionControlEvent::ReaderFailed("reader".to_owned()),
            "reader",
        ),
        (
            SessionControlEvent::WriterFailed("writer".to_owned()),
            "writer",
        ),
        (
            SessionControlEvent::StderrFailed("stderr".to_owned()),
            "stderr",
        ),
        (SessionControlEvent::ReaderEof, "stopped unexpectedly"),
    ] {
        let error = poll(vec![], ControlPoll::Event(event), false);
        assert!(error.contains(expected));
    }
    let done = |session_epoch| IoThreadDone {
        kind: IoThreadKind::Stdout,
        session_epoch,
    };
    assert!(poll(vec![done(99)], ControlPoll::Quiet, false).contains("epoch mismatch"));
    assert!(poll(vec![], ControlPoll::Quiet, true).contains("frame channel stopped"));
    assert!(poll(vec![], ControlPoll::Stopped, false).contains("control channel stopped"));

    let mut actor = manager();
    let key = install_ready_session(&mut actor, full_sync());
    assert!(actor
        .poll_session(&key, &vec![done(1)], ControlPoll::Quiet)
        .is_none());
    assert!(actor.sessions[0].io_done.contains(IoThreadKind::Stdout));
    assert!(actor.poll_frames(&key, false).is_none());
}

#[test]
fn invalid_initialize_responses_and_unmatched_ids_fail_the_session_terminally() {
    let source = source("main.rs", "fn main() {}\n");
    for body in [
        r#"{"jsonrpc":"2.0","result":{"capabilities":{}}}"#,
        r#"{"jsonrpc":"2.0","id":0,"method":"window/logMessage","result":null}"#,
        r#"{"jsonrpc":"1.0","id":0,"result":{"capabilities":{}}}"#,
        r#"{"jsonrpc":"2.0","id":0,"result":{"capabilities":{}},"error":{"message":"both"}}"#,
        r#"{"jsonrpc":"2.0","id":9,"result":{"capabilities":{}}}"#,
        r#"{"jsonrpc":"2.0","id":0}"#,
        r#"{"jsonrpc":"2.0","id":0,"error":{"message":"rejected"}}"#,
        r#"{"jsonrpc":"2.0","id":0,"result":{"capabilities":[]}}"#,
        r#"{"jsonrpc":"2.0","id":0,"result":{"capabilities":{}}}"#,
        r#"{"jsonrpc":"2.0","id":0,"result": "#,
    ] {
        let mut manager = manager();
        let key = starting_initialize_session(&mut manager);
        manager.sessions[0].writer = None;
        let deferred =
            pending_user_request(&mut manager, 17, NavigationOperation::Definition, &source);
        manager.sessions[0].deferred = Some(deferred);
        deliver(&mut manager, &key, body);
        cleanup_failed_sessions(&mut manager, 10);
        assert!(manager.find_session(&key).is_none(), "body={body}");
        assert!(manager.book.backoff(&key).is_some(), "body={body}");
        assert_eq!(results(&manager).len(), 1, "body={body}");
        assert!(!failure(&manager).is_empty());
    }
}

#[test]
fn invalid_navigation_error_location_and_symbol_results_fail_and_clean_up() {
    let source = source("main.rs", "fn main() {}\n");
    for (operation, body) in [
        (
            NavigationOperation::Definition,
            r#"{"jsonrpc":"2.0","id":4,"error":[]}"#,
        ),
        (
            NavigationOperation::Definition,
            r#"{"jsonrpc":"2.0","id":4,"result":42}"#,
        ),
        (
            NavigationOperation::DocumentSymbols,
            r#"{"jsonrpc":"2.0","id":4,"result":42}"#,
        ),
    ] {
        let mut actor = manager();
        let key = install_ready_session(&mut actor, full_sync());
        add_pending(&mut actor, 4, 40, operation, &source, 1_000);
        deliver(&mut actor, &key, body);
        cleanup_failed_sessions(&mut actor, 10);
        assert!(actor.find_session(&key).is_none(), "body={body}");
        assert!(actor.book.backoff(&key).is_some(), "body={body}");
        assert!(!failure(&actor).is_empty());
    }
}

#[test]
fn document_symbol_actor_emits_the_bounded_symbol_completion() {
    let source = source("main.rs", "fn main() {}\n");
    let mut manager = manager();
    let key = install_ready_session(&mut manager, full_sync());
    add_pending(
        &mut manager,
        4,
        23,
        NavigationOperation::DocumentSymbols,
        &source,
        3_000,
    );
    let body = r#"{"jsonrpc":"2.0","id":4,"result":[{"name":"main","kind":12,"range":{"start":{"line":0,"character":0},"end":{"line":0,"character":12}},"selectionRange":{"start":{"line":0,"character":3},"end":{"line":0,"character":7}}}]}"#;
    deliver(&mut manager, &key, body);
    assert!(manager.find_session(&key).is_some());
    assert!(manager.completions.queued.is_empty());
    let symbols = &manager.completions.symbols;
    assert_eq!(symbols.len(), 1);
    assert_eq!(symbols[0].generation, 23);
    assert_eq!(symbols[0].symbols.len(), 1);
    assert_eq!(symbols[0].symbols[0].name, "main");
}

#[test]
fn locations_come_back_to_whom_asked() {
    let source = source("main.rs", "fn main() {}\n");
    let mut manager = manager();
    let key = install_ready_session(&mut manager, full_sync());
    add_pending(
        &mut manager,
        4,
        24,
        NavigationOperation::Definition,
        &source,
        3_000,
    );
    let body = r#"{"jsonrpc":"2.0","id":4,"result":{"uri":"file:///w/a.rs","range":{"start":{"line":0,"character":3},"end":{"line":0,"character":7}}}}"#;
    deliver(&mut manager, &key, body);
    let mut completions = manager.take_completions();
    assert_eq!(completions.len(), 1);
    let completion = completions.remove(0);
    assert_eq!(completion.generation, 24);
    let NavigationProtocolResult::Locations(locations) = completion.result else {
        panic!("expected locations");
    };
    assert_eq!(locations[0].uri, "file:///w/a.rs");
    assert!(manager.global.pool.used() > 0);
    manager.release_locations(completion.epoch, locations);
    assert_eq!(manager.global.pool.used(), 0);
    assert_eq!(manager.sessions[0].budget.session.used(), 0);
}

#[test]
fn cancelled_request_retirement_absorbs_one_late_response_without_session_failure() {
    let source = source("main.rs", "fn main() {}\n");
    let mut manager = manager();
    let key = install_ready_session(&mut manager, full_sync());
    add_pending(
        &mut manager,
        5,
        29,
        NavigationOperation::Definition,
        &source,
        3_000,
    );
    manager.cancel_generation(29);
    let body = r#"{"jsonrpc":"2.0","id":5,"result":null}"#;
    deliver(&mut manager, &key, body);
    assert!(manager.find_session(&key).is_some());
    assert_eq!(results(&manager).len(), 1);
    assert!(matches!(
        results(&manager)[0],
        NavigationProtocolResult::Cancelled
    ));
    deliver(&mut manager, &key, body);
    assert!(manager.find_session(&key).is_none());
}

// Failures --------------------------------------------------------------------------------

#[test]
fn consecutive_failure_backoff_is_persistent_and_fifth_failure_is_permanent() {
    let key = key();
    let base = 1_000;
    let mut book = FailureBook::new();
    for (attempt, seconds) in [1, 2, 4, 8, 30].into_iter().enumerate() {
        book.record_failure_at(&key, "crash", base);
        let backoff = book.backoff(&key).unwrap();
        assert_eq!(usize::from(backoff.attempt), attempt + 1);
        assert_eq!(backoff.retry_at - base, seconds * 1_000);
        assert_eq!(backoff_delay(backoff.attempt), seconds * 1_000);
    }
    assert!(book.permanent(&key).is_some());

    let mut actor = manager();
    actor.book.record_failure_at(&key, "crash", base);
    actor.book.record_failure_at(&key, "crash", base);
    actor
        .book
        .reset_backoff_if_stable_at(&key, Some(base), base + STABLE_READY_RESET - 1);
    assert_eq!(actor.book.backoff(&key).unwrap().attempt, 2);
    actor
        .book
        .reset_backoff_if_stable_at(&key, Some(base), base + STABLE_READY_RESET);
    assert!(actor.book.backoff(&key).is_none());
    actor.book.record_failure_at(&key, "new crash", base);
    assert_eq!(actor.book.backoff(&key).unwrap().attempt, 1);
}

fn trusted() -> NavigationSettings {
    let mut settings = NavigationSettings::disabled();
    settings.rust = Some(TrustedServer {
        program: b"/bin/ra".to_vec(),
        args: vec![],
        identity: ExecutableIdentity::Unix {
            device: 1,
            inode: 2,
            mode: 0o755,
        },
    });
    settings
}

#[test]
fn a_server_is_started_for_the_first_request() {
    let source = source("main.rs", "fn main() {}\n");
    let mut manager = NavigationManager::new(PathStyle::Unix, b"/w".to_vec(), trusted(), true);
    let first = request(1, NavigationOperation::Definition, Arc::clone(&source));
    let RequestStep::Spawn(key, first) = manager.handle_request(first, 100) else {
        panic!("expected a server to be started");
    };
    manager.spawn_session(key, first, 42, 100);
    assert_eq!(manager.sessions.len(), 1);
    assert!(matches!(
        manager.sessions[0].state,
        ServerState::Starting { since: 100 }
    ));
    let frame = manager.sessions[0].next_outgoing().unwrap();
    assert!(written(&frame).contains(r#""method":"initialize""#));
    let epoch = manager.sessions[0].epoch;
    manager.release(Some(epoch), frame.permit);

    let second = request(2, NavigationOperation::Definition, Arc::clone(&source));
    assert!(matches!(
        manager.handle_request(second, 101),
        RequestStep::Done
    ));
    assert_eq!(manager.sessions.len(), 1);
    assert!(matches!(
        results(&manager)[0],
        NavigationProtocolResult::Cancelled
    ));

    let answer = r#"{"jsonrpc":"2.0","id":0,"result":{"capabilities":{"definitionProvider":true,"textDocumentSync":1}}}"#;
    let key = manager.sessions[0].key.copy();
    deliver(&mut manager, &key, answer);
    let said: Vec<String> = std::iter::from_fn(|| manager.sessions[0].next_outgoing())
        .map(|frame| written(&frame).to_string())
        .collect();
    assert_eq!(said.len(), 3);
    assert!(said[0].contains(r#""method":"initialized""#));
    assert!(said[1].contains(r#""method":"textDocument/didOpen""#));
    assert!(said[2].contains(r#""method":"textDocument/definition""#));
    assert_eq!(manager.sessions[0].pending.len(), 1);
    assert_eq!(
        manager.sessions[0].pending[0].request.deadline(),
        10 + NAVIGATION_REQUEST_TIMEOUT
    );
}

#[test]
fn servers_that_cannot_be_started_are_not_tried_at_once() {
    let source = source("main.rs", "fn main() {}\n");
    let mut manager = NavigationManager::new(PathStyle::Unix, b"/w".to_vec(), trusted(), true);
    let first = request(1, NavigationOperation::Definition, Arc::clone(&source));
    let RequestStep::Spawn(key, first) = manager.handle_request(first, 100) else {
        panic!("expected a server to be started");
    };
    manager.spawn_failed(key, &first, "no such file", false, 100);
    assert_eq!(failure(&manager), "no such file");
    let second = request(2, NavigationOperation::Definition, Arc::clone(&source));
    assert!(matches!(
        manager.handle_request(second, 101),
        RequestStep::Done
    ));
    assert_eq!(results(&manager).len(), 2);
    let third = request(3, NavigationOperation::Definition, source);
    assert!(matches!(
        manager.handle_request(third, 1_100),
        RequestStep::Spawn(_, _)
    ));
}

#[test]
fn a_session_that_cannot_begin_has_had_its_number() {
    let source = source("main.rs", "fn main() {}\n");
    let mut manager = NavigationManager::new(PathStyle::Unix, b"/w".to_vec(), trusted(), true);
    let before = manager.next_epoch;
    let first = request(1, NavigationOperation::Definition, Arc::clone(&source));
    let RequestStep::Spawn(key, first) = manager.handle_request(first, 100) else {
        panic!("expected a server to be started");
    };
    let kept = key.copy();
    manager.link_failed(key, &first, "no thread", 100);
    assert_eq!(failure(&manager), "no thread");
    assert_eq!(manager.next_epoch, before + 1);
    assert_eq!(manager.book.backoff(&kept).unwrap().attempt, 1);
    assert!(manager.sessions.is_empty());
    assert!(manager.quarantined_spawns.is_empty());
}

#[test]
fn roots_with_the_same_parts_share_a_session() {
    let mut manager = manager();
    install_ready_session(&mut manager, full_sync());
    let rooted = |root: &[u8]| SessionKey {
        style: PathStyle::Unix,
        server_root: root.to_vec(),
        family: LanguageFamily::Rust,
    };
    assert_eq!(manager.find_session(&rooted(b"/w/")), Some(0));
    assert_eq!(manager.find_session(&rooted(b"//w/.")), Some(0));
    assert_eq!(manager.find_session(&rooted(b"/w/x")), None);
    assert_eq!(manager.find_session(&rooted(b"w")), None);
    let lettered = |root: &[u8]| SessionKey {
        style: PathStyle::Windows,
        server_root: root.to_vec(),
        family: LanguageFamily::Rust,
    };
    assert!(lettered(br"C:\w").same(&lettered(b"c:/w/")));
    assert!(!lettered(br"C:\w").same(&lettered(br"D:\w")));
}

#[test]
fn a_new_manager_has_cleaned_nothing() {
    let stats = manager().stats;
    assert_eq!(stats.sessions_cleaned, 0);
    assert_eq!(stats.clean_exits, 0);
    assert_eq!(stats.forced_tree_cleanups, 0);
    assert_eq!(stats.direct_children_reaped, 0);
    assert_eq!(stats.io_threads_joined, 0);
    assert_eq!(stats.process_owners_dropped, 0);
    assert_eq!(stats.quarantined_process_owners, 0);
}

/// What a request is told when it is answered like this.
fn told(operation: NavigationOperation, result: &str) -> String {
    let mut manager = manager();
    let key = install_ready_session(&mut manager, full_sync());
    let source = source("main.rs", "fn main() {}\n");
    add_pending(&mut manager, 7, 1, operation, &source, 10_000);
    let body = format!(r#"{{"jsonrpc":"2.0","id":7,{result}}}"#);
    deliver(&mut manager, &key, &body);
    assert!(manager.sessions.is_empty());
    failure(&manager).to_string()
}

#[test]
fn a_refused_location_is_told_as_a_fault_of_its_array() {
    let location = r#"{"uri":"file:///w/a.rs","range":{"start":{"line":0,"character":0},"end":{"line":0,"character":1}}}"#;
    let bad = location.replace("file:///w/a.rs", "no uri at all");
    let definition = |raw: &str| told(NavigationOperation::Definition, &format!(r#""result":{raw}"#));
    assert_eq!(
        definition(&format!("[{location},{{}}]")),
        "invalid bounded LSP location array: invalid or mixed LSP Location/LocationLink item behind item 1"
    );
    assert_eq!(
        definition(&format!("[{bad}]")),
        "invalid bounded LSP location array: invalid LSP result URI behind item 0"
    );
    assert_eq!(
        definition(&format!("[{location},1,{{}}]")),
        "invalid bounded LSP location array: no object at item 1"
    );
    // What stands in front of the part that cannot be read counts first.
    assert_eq!(
        definition("[{},1]"),
        "invalid bounded LSP location array: invalid or mixed LSP Location/LocationLink item behind item 0"
    );
    assert_eq!(definition("{}"), "invalid or mixed LSP Location/LocationLink item");
    assert_eq!(definition(&bad), "invalid LSP result URI: no URI");
    assert_eq!(
        definition("42"),
        "language server returned an invalid location result shape"
    );
}

#[test]
fn a_refused_symbol_is_told_as_a_fault_of_its_result() {
    let symbol = |end: u32, more: &str| {
        format!(
            r#"{{"name":"n","kind":12,"range":{{"start":{{"line":0,"character":0}},"end":{{"line":0,"character":2}}}},"selectionRange":{{"start":{{"line":0,"character":0}},"end":{{"line":0,"character":{end}}}}}{more}}}"#
        )
    };
    let outline =
        |raw: &str| told(NavigationOperation::DocumentSymbols, &format!(r#""result":{raw}"#));
    assert_eq!(outline("42"), "invalid bounded document symbol result: no list");
    assert_eq!(
        outline(&format!("[{},{}]", symbol(2, ""), symbol(3, ""))),
        "invalid bounded document symbol result: DocumentSymbol selectionRange is outside range behind item 1"
    );
    let nested = format!(r#","children":[{}]"#, symbol(3, ""));
    assert_eq!(
        outline(&format!("[{}]", symbol(2, &nested))),
        "invalid bounded document symbol result: invalid nested DocumentSymbol children behind item 0"
    );
    assert_eq!(
        outline(&format!("[{}]", symbol(2, r#","children":1"#))),
        "invalid bounded document symbol result: invalid nested DocumentSymbol children behind item 0"
    );
    let flat = r#"[{"name":"flat","kind":12,"location":{"uri":"http://w/main.rs","range":{"start":{"line":0,"character":0},"end":{"line":0,"character":2}}}}]"#;
    assert_eq!(
        outline(flat),
        "invalid bounded document symbol result: navigation target must be an unqualified file URI behind item 0"
    );
}

#[test]
fn parts_of_symbols_that_cannot_be_read_are_refused_by_their_kind() {
    let source = source("main.rs", "fn main() {}\n");
    let nested = || SymbolBody::Nested {
        name: r#""n""#.to_string(),
        detail: None,
        kind: 12,
        range: range_at(0, 2),
        selection_range: range_at(0, 2),
    };
    let fault = |bodies: Vec<SymbolBody>| {
        let mut budget = budget();
        let items = bodies.into_iter().map(|body| symbol_item(1, body, None)).collect();
        parse_document_symbol_result(
            "[]",
            &Ok(items),
            &source,
            &mut budget.session,
            &mut budget.global,
        )
        .unwrap_err()
    };
    let unread = |unread| SymbolBody::Unread(unread);
    let found = fault(vec![unread(UnreadSymbol::Item)]);
    assert_eq!((found.error, found.at), (SymbolError::UnreadItem, 0));
    let found = fault(vec![nested(), unread(UnreadSymbol::Nested)]);
    assert_eq!((found.error, found.at), (SymbolError::UnreadNested, 1));
    let found = fault(vec![nested(), unread(UnreadSymbol::Flat)]);
    assert_eq!((found.error, found.at), (SymbolError::MixedVariants, 1));
    let found = fault(vec![unread(UnreadSymbol::Flat), nested()]);
    assert_eq!((found.error, found.at), (SymbolError::UnreadFlat, 0));
    let found = fault(vec![nested(), nested(), unread(UnreadSymbol::Children)]);
    assert_eq!((found.error, found.at), (SymbolError::UnreadChildren, 2));
}

fn range_at(start: u32, end: u32) -> Range {
    let at = |character| Position { line: 0, character };
    Range {
        start: at(start),
        end: at(end),
    }
}

#[test]
fn symbols_are_of_the_document_however_its_path_is_written() {
    let source = source("main.rs", "fn main() {}\n");
    let mut budget = budget();
    let flat = |uri: &str| {
        format!(
            r#"[{{"name":"flat","kind":12,"location":{{"uri":"{uri}","range":{{"start":{{"line":0,"character":0}},"end":{{"line":0,"character":2}}}}}}}}]"#
        )
    };
    assert_eq!(budget.symbols(&flat("file:///w//main.rs"), &source).unwrap().len(), 1);
    assert_eq!(
        budget.symbols(&flat("file:///w/other.rs"), &source).unwrap_err(),
        SymbolError::OtherDocument
    );
}

#[test]
fn a_refused_error_message_is_told_with_what_the_parser_said() {
    let told = told(
        NavigationOperation::Definition,
        r#""error":{"code":1,"message":"\ud800"}"#,
    );
    assert!(told.starts_with("invalid JSON string: "), "{told}");
    assert!(told.len() > "invalid JSON string: ".len());
}

#[test]
fn retained_pre_session_owner_is_keyed_counted_and_disables_navigation() {
    let source = source("main.rs", "fn main() {}\n");
    let mut actor = NavigationManager::new(PathStyle::Unix, b"/w".to_vec(), trusted(), true);
    let first = request(1, NavigationOperation::Definition, Arc::clone(&source));
    let RequestStep::Spawn(key, first) = actor.handle_request(first, 100) else {
        panic!("expected a server to be started");
    };
    let expected = key.copy();
    actor.spawn_failed(key, &first, "cannot clean up", true, 100);
    assert_eq!(actor.quarantined_spawns.len(), 1);
    assert!(actor.quarantined_spawns[0].same(&expected));
    assert_eq!(actor.stats.quarantined_process_owners, 1);
    let second = request(2, NavigationOperation::Definition, source);
    assert!(matches!(
        actor.handle_request(second, 1_000_000),
        RequestStep::Done
    ));
}

#[test]
fn roots_are_named_by_their_last_component() {
    assert_eq!(folder_name(PathStyle::Unix, b"/home/me/project"), "project");
    assert_eq!(folder_name(PathStyle::Unix, b"/"), "workspace");
}

// The disk --------------------------------------------------------------------------------

fn job(generation: u64, source: &Arc<NavigationSource>, deadline: u64) -> DiskSnapshotJob {
    DiskSnapshotJob {
        generation,
        content_root: b"/w".to_vec(),
        source: Arc::clone(source),
        deadline,
    }
}

#[test]
fn wedged_disk_lane_atomically_completes_active_and_queued_requests() {
    let source = source("main.rs", "fn main() {}\n");
    let mut lane = DiskRevalidationLane::start();
    let now = 100;
    lane.try_submit(job(1, &source, now)).unwrap();
    assert!(lane.next_job().is_some());
    lane.try_submit(job(2, &source, now)).unwrap();
    assert_eq!(
        lane.try_submit(job(3, &source, now)).unwrap_err(),
        LaneError::Full
    );

    let mut manager = manager();
    let key = install_ready_session(&mut manager, full_sync());
    manager.disk_lane = Some(lane);
    for generation in [1, 2] {
        let pending = pending_user_request(
            &mut manager,
            generation,
            NavigationOperation::Definition,
            &source,
        );
        manager.disk_waiting.push(WaitingRequest {
            key: key.copy(),
            pending,
        });
    }
    manager.poll_disk(vec![], now);
    assert!(manager.disk_waiting.is_empty());
    assert_eq!(results(&manager).len(), 2);
    assert!(results(&manager).iter().all(|result| matches!(
        result,
        NavigationProtocolResult::Failed(message)
            if message == "File revalidation worker is unavailable."
    )));

    manager.poll_disk(vec![DiskSnapshotResult::Current { generation: 1 }], now + 1);
    assert_eq!(results(&manager).len(), 2);
    assert_eq!(manager.global.pool.used(), 0);
}

#[test]
fn disk_dispatch_distinguishes_missing_full_current_stale_and_failed_workers() {
    let source = source("main.rs", "fn main() {}\n");
    let disk_sync = navigation_capabilities(TextSyncCapability {
        open_close: false,
        change: TextChangeCapability::Absent,
    });

    let mut missing = manager();
    install_ready_session(&mut missing, disk_sync);
    missing.disk_lane = None;
    let pending = pending_user_request(&mut missing, 1, NavigationOperation::Definition, &source);
    missing.dispatch_or_revalidate(0, pending, 10);
    assert!(failure(&missing).contains("unavailable"));

    let mut actor = manager();
    install_ready_session(&mut actor, disk_sync);
    for generation in 2..=4 {
        let pending = pending_user_request(
            &mut actor,
            generation,
            NavigationOperation::Definition,
            &source,
        );
        actor.dispatch_or_revalidate(0, pending, 10);
        let taken = actor.disk_lane.as_mut().unwrap().next_job().unwrap();
        assert_eq!(taken.generation, generation);
        assert_eq!(taken.deadline, 510);
        actor.poll_disk(
            vec![match generation {
                2 => DiskSnapshotResult::Current { generation },
                3 => DiskSnapshotResult::Stale { generation },
                _ => DiskSnapshotResult::Failed {
                    generation,
                    message: "synthetic disk read failure".to_string(),
                },
            }],
            20,
        );
        assert!(actor.disk_waiting.is_empty());
    }
    assert_eq!(actor.sessions[0].pending.len(), 1);
    let request_frame = actor.sessions[0].next_outgoing().unwrap();
    assert!(written(&request_frame).contains(r#""method":"textDocument/definition""#));
    let found = results(&actor);
    assert_eq!(found.len(), 2);
    assert!(matches!(
        found[0],
        NavigationProtocolResult::Failed(message) if message.contains("changed on disk")
    ));
    assert!(matches!(
        found[1],
        NavigationProtocolResult::Failed(message) if message.contains("synthetic disk read failure")
    ));

    let mut full = manager();
    install_ready_session(&mut full, disk_sync);
    let mut lane = DiskRevalidationLane::start();
    let bounded = |generation| {
        DiskSnapshotJob::bounded(generation, b"/w".to_vec(), Arc::clone(&source), 10, 5_010)
    };
    lane.try_submit(bounded(90)).unwrap();
    assert!(lane.next_job().is_some());
    lane.try_submit(bounded(91)).unwrap();
    full.disk_lane = Some(lane);
    let pending = pending_user_request(&mut full, 5, NavigationOperation::Definition, &source);
    full.dispatch_or_revalidate(0, pending, 10);
    assert!(failure(&full).contains("queue is full"));
}

#[test]
fn disk_lane_matches_normalized_preview_and_rejects_stale() {
    let content = b"\xef\xbb\xbffn main() {}\r\n";
    assert_eq!(
        read_and_compare_snapshot(content, 17, "fn main() {}"),
        Some(true)
    );
    assert_eq!(
        read_and_compare_snapshot(content, 17, "fn other() {}"),
        Some(false)
    );
}

#[test]
fn disk_revalidation_rejects_expiry_type_size_encoding_nul_and_line_drift() {
    let source = source("main.rs", "current\n");
    let bounded =
        DiskSnapshotJob::bounded(1, b"/w".to_vec(), Arc::clone(&source), 1_000, 6_000);
    assert_eq!(bounded.deadline, 1_500);
    let short = DiskSnapshotJob::bounded(1, b"/w".to_vec(), source, 1_000, 1_100);
    assert_eq!(short.deadline, 1_100);
    assert_eq!(
        read_and_compare_snapshot(b"current\n", 8, "current"),
        Some(true)
    );
    assert_eq!(
        read_and_compare_snapshot(b"current\n", 7, "current"),
        Some(false)
    );
    for (bytes, expected_error) in [
        (b"nul\0byte".to_vec(), false),
        (vec![0xff, 0xfe], true),
        (
            "line\n".repeat(MAX_NAVIGATION_LINES + 1).into_bytes(),
            false,
        ),
        (vec![b'x'; MAX_NAVIGATION_TEXT_BYTES + 1], false),
    ] {
        let result = read_and_compare_snapshot(&bytes, bytes.len() as u64, "other");
        assert_eq!(result.is_none(), expected_error);
        if !expected_error {
            assert_eq!(result, Some(false));
        }
    }
    assert_eq!(snapshot_read_limit(8), 9);
    assert_eq!(snapshot_read_limit(u64::MAX), MAX_NAVIGATION_TEXT_BYTES + 1);
}

// Cleaning up -----------------------------------------------------------------------------

#[test]
fn cleanup_quarantines_a_stuck_io_owner_without_fake_stats_or_blind_join() {
    let mut manager = manager();
    starting_initialize_session(&mut manager);
    let mut session = manager.sessions.remove(0);
    session.epoch = SessionEpoch(9);
    session.state = ServerState::StoppingForced;
    session.writer = None;
    session.pending.clear();
    let done = |kind| IoThreadDone {
        kind,
        session_epoch: 9,
    };
    let mut stats = NavigationCleanupSnapshot::default();

    let mut progress = CleanupProgress::default();
    session.begin_cleanup(&mut manager.global, &mut progress, false);
    progress.poll_tree_exit(TreePoll::Absent, false);
    let ended = vec![done(IoThreadKind::Stdin), done(IoThreadKind::Stderr)];
    assert!(session.collect_lifecycle(&ended, false));
    for kind in [IoThreadKind::Stdin, IoThreadKind::Stderr] {
        assert!(session.may_join(kind, true));
        session.joined(&mut progress, kind, true);
    }
    assert!(!session.may_join(IoThreadKind::Stdout, true));
    assert!(!session.may_join(IoThreadKind::Stdin, false));
    assert_eq!(
        session.finalize_cleanup(progress, 1, &mut stats),
        CleanupOutcome::Quarantined
    );
    assert!(matches!(session.state, ServerState::Failed { .. }));
    assert_eq!(stats, NavigationCleanupSnapshot::default());

    let mut progress = CleanupProgress::default();
    session.begin_cleanup(&mut manager.global, &mut progress, false);
    progress.poll_tree_exit(TreePoll::Absent, false);
    assert!(session.collect_lifecycle(&vec![done(IoThreadKind::Stdout)], true));
    session.joined(&mut progress, IoThreadKind::Stdout, true);
    assert_eq!(
        session.finalize_cleanup(progress, 0, &mut stats),
        CleanupOutcome::Complete
    );
    assert_eq!(stats.sessions_cleaned, 1);
    assert_eq!(stats.io_threads_joined, IO_THREAD_COUNT);
    assert_eq!(stats.process_owners_dropped, 1);
}

#[test]
fn batch_cleanup_drives_ready_sessions_through_shared_nonblocking_phases() {
    let mut writes_seen = 0;
    let mut stats = NavigationCleanupSnapshot::default();
    for index in 0..2u64 {
        let mut manager = manager();
        install_ready_session(
            &mut manager,
            navigation_capabilities(TextSyncCapability {
                open_close: true,
                change: TextChangeCapability::Absent,
            }),
        );
        let mut session = manager.sessions.remove(0);
        session.epoch = SessionEpoch(index + 1);
        session.allocator = RequestIdAllocator::default();
        let mut progress = CleanupProgress::default();
        session.begin_cleanup(&mut manager.global, &mut progress, false);
        assert_eq!(progress.shutdown_id, Some(0));
        let body = r#"{"jsonrpc":"2.0","id":0,"result":null}"#;
        let permit = session
            .budget
            .reserve(&mut manager.global, body.len())
            .unwrap();
        let frame = ChargedPayload {
            bytes: body.as_bytes().to_vec(),
            permit,
        };
        session
            .enqueue_inbound_frame(&mut manager.global, frame)
            .unwrap();
        assert!(session.poll_shutdown_response(
            &mut manager.global,
            &mut progress,
            envelope(body).as_ref()
        ));
        assert!(progress.settled(CleanupPhase::Response, &session.io_done, 3));
        let frames = session.close_writer();
        assert!(written(&frames[0]).contains(r#""method":"shutdown""#));
        assert!(written(&frames[1]).contains(r#""method":"exit""#));
        writes_seen += frames.len();
        progress.poll_tree_exit(TreePoll::Absent, true);
        let kinds = [
            IoThreadKind::Stdin,
            IoThreadKind::Stdout,
            IoThreadKind::Stderr,
        ];
        let events: Vec<IoThreadDone> = kinds
            .iter()
            .map(|kind| IoThreadDone {
                kind: *kind,
                session_epoch: index + 1,
            })
            .collect();
        assert!(session.collect_lifecycle(&events, true));
        for kind in kinds {
            session.joined(&mut progress, kind, true);
        }
        assert!(progress.settled(CleanupPhase::Threads, &session.io_done, 0));
        assert_eq!(
            session.finalize_cleanup(progress, 0, &mut stats),
            CleanupOutcome::Complete
        );
    }
    assert_eq!(writes_seen, 4);
    assert_eq!(stats.sessions_cleaned, 2);
    assert_eq!(stats.io_threads_joined, 6);
    assert_eq!(stats.process_owners_dropped, 2);
    assert_eq!(stats.quarantined_process_owners, 0);
}

#[test]
fn cleanups_do_not_take_forever() {
    let mut clock = CleanupClock::start(0);
    let mut now = 0;
    let mut steps = 0;
    while clock.phase != CleanupPhase::Done {
        now = clock.deadline.max(now);
        assert!(clock.tick(false, now));
        steps += 1;
    }
    assert_eq!(steps, 6);
    let mut quick = CleanupClock::start(0);
    assert!(!quick.tick(false, 0));
    assert!(quick.tick(true, 0));
    assert_eq!(quick.phase, CleanupPhase::TreeExit);
}

#[test]
fn forced_cleanups_are_counted() {
    let mut progress = CleanupProgress::default();
    progress.poll_tree_exit(TreePoll::Running, true);
    assert!(!progress.tree_finished);
    assert!(progress.begin_force_cleanup(true));
    assert!(progress.escalate_force_cleanup(true));
    progress.poll_forced_tree(TreePoll::Gone);
    assert!(progress.tree_finished);
    assert!(progress.forced_cleanup);
    let mut broken = CleanupProgress::default();
    broken.force_failed("first".to_string());
    broken.force_failed("second".to_string());
    assert_eq!(broken.cleanup_error.as_deref(), Some("first"));
    broken.stop_waiting();
    assert!(broken.shutdown_response_finished);
}

#[test]
fn process_groups_are_signalled_until_they_are_gone() {
    assert!(signal_group(None));
    assert!(signal_group(Some(NO_SUCH_PROCESS)));
    assert!(!signal_group(Some(NOT_PERMITTED)));
    assert_eq!(group_exists(None), Some(true));
    assert_eq!(group_exists(Some(NO_SUCH_PROCESS)), Some(false));
    assert_eq!(group_exists(Some(NOT_PERMITTED)), Some(true));
    assert_eq!(group_exists(Some(99)), None);
    assert!(leads_own_group(7, 7));
    assert!(!leads_own_group(7, 1));
    assert_eq!(group_to_clean(7, 7), 7);
    let mut tree = ProcessTree::started();
    assert!(matches!(
        tree.begin_force_cleanup(Some(true)),
        ForceStep::SignalGroup
    ));
    assert!(!tree.poll_exit(Some(true)));
    tree.reap_if_exited(true);
    assert!(tree.poll_exit(Some(false)));
    assert!(!tree.wants_probe());
}

#[test]
fn unusable_roots_are_reported() {
    let mut global = GlobalPayloadBudget::default();
    let started = LspSession::start(
        key(),
        Err(UriError::NoFileUrl),
        SessionEpoch(1),
        42,
        "w",
        0,
        &mut global,
    );
    assert_eq!(
        started.unwrap_err().message(),
        UriError::NoFileUrl.message()
    );
    assert_eq!(global.pool.used(), 0);
}

#[test]
fn documents_are_compared_under_their_own_root() {
    let text = "fn main() {}\n";
    let dependency = Arc::new(
        NavigationSource::new(
            ContentIdentity {
                bytes: b"lib.rs".to_vec(),
            },
            PathStyle::Unix,
            b"/deps/serde/src/lib.rs".to_vec(),
            b"/deps/serde".to_vec(),
            text.len() as u64,
            b"/w".to_vec(),
            language_for_path(PathStyle::Unix, b"lib.rs").unwrap(),
            text.to_string(),
            StructureSnapshot::unavailable(),
        )
        .unwrap(),
    );
    assert_eq!(dependency.uri.as_deref(), Ok("file:///deps/serde/src/lib.rs"));
    let mut actor = manager();
    install_ready_session(
        &mut actor,
        navigation_capabilities(TextSyncCapability {
            open_close: false,
            change: TextChangeCapability::Absent,
        }),
    );
    let pending = pending_user_request(&mut actor, 1, NavigationOperation::Definition, &dependency);
    actor.dispatch_or_revalidate(0, pending, 10);
    let taken = actor.disk_lane.as_mut().unwrap().next_job().unwrap();
    assert_eq!(actor.workspace_root, b"/w");
    assert_eq!(taken.content_root, b"/deps/serde");
    assert_eq!(taken.source.absolute_path, b"/deps/serde/src/lib.rs");
    assert_eq!(actor.disk_waiting.len(), 1);
    assert!(results(&actor).is_empty());
    assert!(actor.sessions[0].next_outgoing().is_none());
}

#[test]
fn frames_that_are_put_back_come_first() {
    let mut manager = manager();
    install_ready_session(&mut manager, full_sync());
    let bodies = ["{}", "[]"];
    for body in bodies {
        let mut global = std::mem::take(&mut manager.global);
        manager.sessions[0].send_body(&mut global, body).unwrap();
        manager.global = global;
    }
    let first = manager.sessions[0].next_outgoing().unwrap();
    assert!(written(&first).ends_with("{}"));
    assert!(manager.sessions[0].put_back(first).is_none());
    let again = manager.sessions[0].next_outgoing().unwrap();
    assert!(written(&again).ends_with("{}"));
    let second = manager.sessions[0].next_outgoing().unwrap();
    assert!(written(&second).ends_with("[]"));
    manager.sessions[0].writer = None;
    assert!(manager.sessions[0].put_back(second).is_some());
}

#[test]
fn texts_are_quoted_as_json() {
    let mut words = String::new();
    for code in 0u32..0x80 {
        words.push(char::from_u32(code).unwrap());
    }
    words.push('é');
    words.push('\u{2028}');
    words.push('😀');
    assert_eq!(quote_json(&words), serde_json::Value::from(words.as_str()).to_string());
    assert_eq!(serde_json::from_str::<String>(&quote_json(&words)).unwrap(), words);
    assert_eq!(quote_json("a\"\n\u{1}"), "\"a\\\"\\n\\u0001\"");
}

#[test]
fn readers_stop_at_the_limits() {
    assert!(reads_on(4_096, 64));
    assert!(!reads_on(4_097, 1));
    assert!(!reads_on(1, 65));
}
