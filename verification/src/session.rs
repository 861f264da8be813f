//! One conversation with a language server.

use crate::bytes::to_vec;
use crate::document::{
    DocumentVersion, NavigationDocument, NavigationOperation, NavigationSource,
};
use crate::framing::{
    encode_frame, encoded, lemma_frame_length, ChargedPayload, FrameError, MAX_BODY_BYTES,
};
use crate::language::LanguageFamily;
use crate::messages::{
    cancel_body, cancel_text, close_body, close_text, initialize_body, initialize_text,
    open_body, open_text, request_body, request_text,
};
use crate::paths::{parts, parts_equal, path_parts, Part, PathStyle};
use crate::payload::{
    law_handing_back_undoes_a_reservation, GlobalPayloadBudget, PayloadBudget, PermitPool,
    SESSION_PAYLOAD_BUDGET,
};
use crate::positions::protocol_position;
use crate::rpc::{
    following, IdRecord, IoThreads, NavigationCapabilities, RequestIdAllocator, RetiredIds, RpcId,
    SessionEpoch, MAX_RETIRED_IDS,
};
use crate::source::SourcePosition;
use crate::targets::{uri_words, UriError};
use crate::text::{copy_text, text_equal};
use std::sync::Arc;
use vstd::prelude::*;
use vstd::utf8::encode_utf8;

verus! {

/// How many frames wait for the writer.
pub const SESSION_WRITER_CAPACITY: usize = 16;

/// How many frames wait to be looked at.
pub const SESSION_FRAME_CAPACITY: usize = 2;

/// How long a request may take, in milliseconds.
pub const NAVIGATION_REQUEST_TIMEOUT: u64 = 3_000;

/// How long an initialization may take, in milliseconds.
pub const INITIALIZE_TIMEOUT: u64 = 5_000;

/// What a session is for. Roots with the same parts are the same.
#[derive(Debug)]
pub struct SessionKey {
    pub style: PathStyle,
    pub server_root: Vec<u8>,
    pub family: LanguageFamily,
}

pub struct KeyRecord {
    pub root: Seq<Part>,
    pub family: LanguageFamily,
}

/// The parts of the root that a server is started in.
#[verifier::opaque]
pub open spec fn root_parts(style: PathStyle, root: Seq<u8>) -> Seq<Part> {
    parts(style, root)
}

impl View for SessionKey {
    type V = KeyRecord;

    open spec fn view(&self) -> KeyRecord {
        KeyRecord { root: root_parts(self.style, self.server_root@), family: self.family }
    }
}

impl SessionKey {
    pub fn same(&self, other: &SessionKey) -> (same: bool)
        ensures
            same == (self@ == other@),
    {
        proof {
            reveal(root_parts);
        }
        self.family == other.family && parts_equal(
            &path_parts(self.style, self.server_root.as_slice()),
            &path_parts(other.style, other.server_root.as_slice()),
        )
    }

    pub fn copy(&self) -> (key: SessionKey)
        ensures
            key@ == self@,
            key.style == self.style,
            key.server_root@ == self.server_root@,
    {
        SessionKey {
            style: self.style,
            server_root: to_vec(self.server_root.as_slice()),
            family: self.family,
        }
    }
}

/// A request of the user.
#[derive(Debug)]
pub struct NavigationRuntimeRequest {
    pub generation: u64,
    pub operation: NavigationOperation,
    pub origin: SourcePosition,
    pub source: Arc<NavigationSource>,
    pub version: DocumentVersion,
}

/// A request and the document that is charged for it.
#[derive(Debug)]
pub struct PendingUserRequest {
    pub request: NavigationRuntimeRequest,
    pub document: NavigationDocument,
}

impl PendingUserRequest {
    pub open spec fn well_formed(&self) -> bool {
        self.document.source.well_formed()
    }
}

/// What an answer is waited for.
#[derive(Debug)]
pub enum PendingRequest {
    Initialize { deadline: u64 },
    Navigation { pending: PendingUserRequest, deadline: u64 },
}

impl PendingRequest {
    pub open spec fn due(&self) -> u64 {
        match self {
            PendingRequest::Initialize { deadline } => *deadline,
            PendingRequest::Navigation { pending: _, deadline } => *deadline,
        }
    }

    pub open spec fn well_formed(&self) -> bool {
        match self {
            PendingRequest::Initialize { .. } => true,
            PendingRequest::Navigation { pending, .. } => pending.well_formed(),
        }
    }

    pub fn deadline(&self) -> (deadline: u64)
        ensures
            deadline == self.due(),
    {
        match self {
            PendingRequest::Initialize { deadline } => *deadline,
            PendingRequest::Navigation { pending: _, deadline } => *deadline,
        }
    }
}

#[derive(Debug)]
pub struct PendingEntry {
    pub id: i32,
    pub request: PendingRequest,
}

/// The document that the server was told of last.
#[derive(Debug)]
pub struct OpenedDocument {
    pub uri: String,
    pub version: DocumentVersion,
}

pub struct OpenedRecord {
    pub uri: Seq<char>,
    pub version: DocumentVersion,
}

pub open spec fn opened_record(opened: Option<OpenedDocument>) -> Option<OpenedRecord> {
    match opened {
        Some(document) => Some(OpenedRecord { uri: document.uri@, version: document.version }),
        None => None,
    }
}

#[derive(Debug)]
pub enum ServerState {
    Disabled { reason: String },
    Unavailable { reason: String },
    Starting { since: u64 },
    Ready { capabilities: NavigationCapabilities },
    Backoff { attempt: u8, retry_at: u64, error: String },
    Failed { error: String },
    StoppingShutdown,
    StoppingForced,
}

/// What a state says.
pub enum StateRecord {
    Disabled { reason: Seq<char> },
    Unavailable { reason: Seq<char> },
    Starting { since: u64 },
    Ready { capabilities: NavigationCapabilities },
    Backoff { attempt: u8, retry_at: u64, error: Seq<char> },
    Failed { error: Seq<char> },
    StoppingShutdown,
    StoppingForced,
}

impl View for ServerState {
    type V = StateRecord;

    open spec fn view(&self) -> StateRecord {
        match self {
            ServerState::Disabled { reason } => StateRecord::Disabled { reason: reason@ },
            ServerState::Unavailable { reason } => StateRecord::Unavailable { reason: reason@ },
            ServerState::Starting { since } => StateRecord::Starting { since: *since },
            ServerState::Ready { capabilities } => StateRecord::Ready {
                capabilities: *capabilities,
            },
            ServerState::Backoff { attempt, retry_at, error } => StateRecord::Backoff {
                attempt: *attempt,
                retry_at: *retry_at,
                error: error@,
            },
            ServerState::Failed { error } => StateRecord::Failed { error: error@ },
            ServerState::StoppingShutdown => StateRecord::StoppingShutdown,
            ServerState::StoppingForced => StateRecord::StoppingForced,
        }
    }
}

#[derive(Clone, Copy, Debug, PartialEq, Eq, Structural)]
pub enum SendError {
    Frame(FrameError),
    WriterStopped,
    QueueFull,
    QueueClosed,
}

impl SendError {
    pub open spec fn text(self) -> Seq<char> {
        match self {
            SendError::Frame(error) => error.text(),
            SendError::WriterStopped => "language server writer stopped"@,
            SendError::QueueFull =>
                "language server writer queue is full: sending on a full channel"@,
            SendError::QueueClosed =>
                "language server writer queue is full: sending on a closed channel"@,
        }
    }

    pub fn message(&self) -> (text: &'static str)
        ensures
            text@ == self.text(),
    {
        match self {
            SendError::Frame(error) => error.message(),
            SendError::WriterStopped => "language server writer stopped",
            SendError::QueueFull =>
                "language server writer queue is full: sending on a full channel",
            SendError::QueueClosed =>
                "language server writer queue is full: sending on a closed channel",
        }
    }
}

/// Frames that wait for the writer.
#[derive(Debug)]
pub struct Outbox {
    pub frames: Vec<ChargedPayload>,
    /// The writer went away.
    pub closed: bool,
}

/// A frame and what it is charged.
pub struct FrameRecord {
    pub bytes: Seq<u8>,
    pub charge: int,
}

pub open spec fn frame_record(frame: ChargedPayload) -> FrameRecord {
    FrameRecord { bytes: frame.bytes@, charge: frame.permit.bytes as int }
}

pub open spec fn frame_records(frames: Seq<ChargedPayload>) -> Seq<FrameRecord> {
    Seq::new(frames.len(), |i: int| frame_record(frames[i]))
}

pub struct OutboxRecord {
    pub frames: Seq<FrameRecord>,
    pub closed: bool,
}

pub open spec fn outbox_record(outbox: Option<Outbox>) -> Option<OutboxRecord> {
    match outbox {
        Some(outbox) => Some(
            OutboxRecord { frames: frame_records(outbox.frames@), closed: outbox.closed },
        ),
        None => None,
    }
}

/// A session: what it waits for and what it said.
#[derive(Debug)]
pub struct LspSession {
    pub key: SessionKey,
    pub root_uri: Result<String, UriError>,
    pub epoch: SessionEpoch,
    pub state: ServerState,
    pub budget: PayloadBudget,
    pub allocator: RequestIdAllocator,
    pub retired: RetiredIds,
    /// The requests that are not answered yet, the oldest first.
    pub pending: Vec<PendingEntry>,
    /// The request that is sent as soon as the server is ready.
    pub deferred: Option<PendingUserRequest>,
    pub opened: Option<OpenedDocument>,
    /// The frames that wait for the writer, as long as there is one.
    pub writer: Option<Outbox>,
    /// The frames that came in and were not looked at yet.
    pub inbox: Vec<ChargedPayload>,
    pub io_done: IoThreads,
    pub io_joined: IoThreads,
    pub ready_since: Option<u64>,
}

/// What a session holds.
pub struct SessionRecord {
    pub key: KeyRecord,
    pub root_uri: Result<Seq<char>, UriError>,
    pub epoch: SessionEpoch,
    pub state: StateRecord,
    pub budget: PayloadBudget,
    pub next: Option<i32>,
    pub retired: Seq<IdRecord>,
    pub pending: Seq<PendingEntry>,
    pub deferred: Option<PendingUserRequest>,
    pub opened: Option<OpenedRecord>,
    pub outbox: Option<OutboxRecord>,
    pub inbox: Seq<FrameRecord>,
    pub io_done: IoThreads,
    pub io_joined: IoThreads,
    pub ready_since: Option<u64>,
}

impl View for LspSession {
    type V = SessionRecord;

    open spec fn view(&self) -> SessionRecord {
        SessionRecord {
            key: self.key@,
            root_uri: uri_words(self.root_uri),
            epoch: self.epoch,
            state: self.state@,
            budget: self.budget,
            next: self.allocator.next,
            retired: self.retired@,
            pending: self.pending@,
            deferred: self.deferred,
            opened: opened_record(self.opened),
            outbox: outbox_record(self.writer),
            inbox: frame_records(self.inbox@),
            io_done: self.io_done,
            io_joined: self.io_joined,
            ready_since: self.ready_since,
        }
    }
}

impl SessionRecord {
    pub open spec fn ready(&self) -> Option<NavigationCapabilities> {
        match self.state {
            StateRecord::Ready { capabilities } => Some(capabilities),
            _ => None,
        }
    }
}

/// A session and the budget that all sessions share.
pub struct Talk {
    pub session: SessionRecord,
    pub global: GlobalPayloadBudget,
}

impl Talk {
    /// What is charged after bytes were handed back.
    pub open spec fn after_release(self, bytes: int) -> Talk {
        Talk {
            session: SessionRecord { budget: self.session.budget.without(bytes), ..self.session },
            global: self.global.without(bytes),
        }
    }

    pub open spec fn with_opened(self, opened: Option<OpenedRecord>) -> Talk {
        Talk { session: SessionRecord { opened, ..self.session }, ..self }
    }

    pub open spec fn with_next(self, next: Option<i32>) -> Talk {
        Talk { session: SessionRecord { next, ..self.session }, ..self }
    }
}

/// What sending a message comes to: the message is framed and charged, and waits
/// for the writer.
#[verifier::opaque]
pub open spec fn said(talk: Talk, body: Seq<char>) -> Result<Talk, SendError> {
    let bytes = encode_utf8(body);
    let frame = encoded(bytes);
    if bytes.len() == 0 || bytes.len() > MAX_BODY_BYTES {
        Err(SendError::Frame(FrameError::BodyOutOfRange))
    } else {
        match talk.session.budget.refusal(&talk.global, frame.len() as int) {
            Some(refusal) => Err(SendError::Frame(FrameError::Payload(refusal))),
            None => match talk.session.outbox {
                None => Err(SendError::WriterStopped),
                Some(outbox) => if outbox.closed {
                    Err(SendError::QueueClosed)
                } else if outbox.frames.len() >= SESSION_WRITER_CAPACITY {
                    Err(SendError::QueueFull)
                } else {
                    Ok(
                        Talk {
                            session: SessionRecord {
                                budget: talk.session.budget.with(frame.len() as int),
                                outbox: Some(
                                    OutboxRecord {
                                        frames: outbox.frames.push(
                                            FrameRecord { bytes: frame, charge: frame.len() as int },
                                        ),
                                        closed: false,
                                    },
                                ),
                                ..talk.session
                            },
                            global: talk.global.with(frame.len() as int),
                        },
                    )
                },
            },
        }
    }
}

#[derive(Clone, Copy, Debug, PartialEq, Eq, Structural)]
pub enum SyncError {
    NotReady,
    Uri(UriError),
    VersionExhausted,
    Send(SendError),
}

impl SyncError {
    pub open spec fn text(self) -> Seq<char> {
        match self {
            SyncError::NotReady => "language server is not ready"@,
            SyncError::Uri(error) => error.text(),
            SyncError::VersionExhausted =>
                "document version exhausted: out of range integral type conversion attempted"@,
            SyncError::Send(error) => error.text(),
        }
    }

    pub fn message(&self) -> (text: &'static str)
        ensures
            text@ == self.text(),
    {
        match self {
            SyncError::NotReady => "language server is not ready",
            SyncError::Uri(error) => error.message(),
            SyncError::VersionExhausted =>
                "document version exhausted: out of range integral type conversion attempted",
            SyncError::Send(error) => error.message(),
        }
    }
}

/// Opens a document where none is open.
pub open spec fn opening(
    talk: Talk,
    source: NavigationSource,
    uri: Seq<char>,
    version: DocumentVersion,
) -> (Talk, Option<SyncError>) {
    match said(
        talk,
        open_text(source.language.language_id@, source.text@, uri, version.0 as int),
    ) {
        Err(error) => (talk, Some(SyncError::Send(error))),
        Ok(after) => (after.with_opened(Some(OpenedRecord { uri, version })), None),
    }
}

/// Tells a server of a document, where the server wants to be told: the one
/// that is open is closed, and the document is opened whole.
pub open spec fn synced(talk: Talk, source: NavigationSource, version: DocumentVersion) -> (
    Talk,
    Option<SyncError>,
) {
    match talk.session.ready() {
        None => (talk, Some(SyncError::NotReady)),
        Some(capabilities) => if !capabilities.text_document_sync.open_close {
            (talk, None)
        } else {
            match source.uri {
                Err(error) => (talk, Some(SyncError::Uri(error))),
                Ok(uri) => if talk.session.opened == Some(OpenedRecord { uri: uri@, version }) {
                    (talk, None)
                } else if version.0 > i32::MAX {
                    (talk, Some(SyncError::VersionExhausted))
                } else {
                    match talk.session.opened {
                        None => opening(talk, source, uri@, version),
                        Some(before) => match said(
                            talk.with_opened(None),
                            close_text(before.uri),
                        ) {
                            Err(error) => (talk.with_opened(None), Some(SyncError::Send(error))),
                            Ok(after) => opening(after, source, uri@, version),
                        },
                    }
                },
            }
        },
    }
}

pub open spec fn operation_text(operation: NavigationOperation) -> Seq<char> {
    match operation {
        NavigationOperation::Definition => "Definition"@,
        NavigationOperation::References => "References"@,
        NavigationOperation::Implementations => "Implementations"@,
        NavigationOperation::DocumentSymbols => "DocumentSymbols"@,
    }
}

fn operation_name(operation: NavigationOperation) -> (name: &'static str)
    ensures
        name@ == operation_text(operation),
{
    match operation {
        NavigationOperation::Definition => "Definition",
        NavigationOperation::References => "References",
        NavigationOperation::Implementations => "Implementations",
        NavigationOperation::DocumentSymbols => "DocumentSymbols",
    }
}

/// Whether a server does what is asked.
pub open spec fn provides(
    ready: Option<NavigationCapabilities>,
    operation: NavigationOperation,
) -> bool {
    match ready {
        None => false,
        Some(capabilities) => match operation {
            NavigationOperation::Definition => capabilities.definition,
            NavigationOperation::References => capabilities.references,
            NavigationOperation::Implementations => capabilities.implementations,
            NavigationOperation::DocumentSymbols => capabilities.document_symbols,
        },
    }
}

/// What becomes of a request that is to be sent.
pub enum DispatchVerdict {
    Sent,
    /// The server does not do that.
    Unavailable(Seq<char>),
    /// It could not be sent.
    Failed(Seq<char>),
    /// It could not be sent, and the session is broken.
    Broken(Seq<char>, Seq<char>),
}

pub open spec fn capacity_text() -> Seq<char> {
    "language server pending request capacity requires restart"@
}

/// A time this much later, if there is one.
pub open spec fn later(now: u64, span: u64) -> u64 {
    if now + span <= u64::MAX {
        (now + span) as u64
    } else {
        u64::MAX
    }
}

/// The request itself is sent, after the server was told of its document.
pub open spec fn asked(talk: Talk, pending: PendingUserRequest, now: u64) -> (
    Talk,
    DispatchVerdict,
) {
    let source = *pending.document.source;
    let given_up = talk.after_release(pending.document.permit.bytes as int);
    match protocol_position(source.line_index@, pending.request.origin) {
        Err(error) => (given_up, DispatchVerdict::Failed(error.text())),
        Ok(position) => match source.uri {
            Err(error) => (given_up, DispatchVerdict::Failed(error.text())),
            Ok(uri) => match talk.session.next {
                None => (
                    given_up,
                    DispatchVerdict::Broken("RequestIdExhausted"@, "RequestIdExhausted"@),
                ),
                Some(id) => if talk.session.pending.len() >= MAX_RETIRED_IDS {
                    (
                        given_up.with_next(following(id)),
                        DispatchVerdict::Broken(capacity_text(), capacity_text()),
                    )
                } else {
                    match said(
                        talk.with_next(following(id)),
                        request_text(
                            IdRecord::Signed(id),
                            pending.request.operation,
                            uri@,
                            position,
                        ),
                    ) {
                        Err(error) => (
                            given_up.with_next(following(id)),
                            DispatchVerdict::Broken(
                                error.text(),
                                "language server writer failed: "@ + error.text(),
                            ),
                        ),
                        Ok(after) => (
                            Talk {
                                session: SessionRecord {
                                    pending: after.session.pending.push(
                                        PendingEntry {
                                            id,
                                            request: PendingRequest::Navigation {
                                                pending,
                                                deadline: later(now, NAVIGATION_REQUEST_TIMEOUT),
                                            },
                                        },
                                    ),
                                    ..after.session
                                },
                                ..after
                            },
                            DispatchVerdict::Sent,
                        ),
                    }
                },
            },
        },
    }
}

/// What sending a request comes to. A request that is not sent gives up its document.
pub open spec fn dispatched(talk: Talk, pending: PendingUserRequest, now: u64) -> (
    Talk,
    DispatchVerdict,
) {
    let bytes = pending.document.permit.bytes as int;
    if !provides(talk.session.ready(), pending.request.operation) {
        (
            talk.after_release(bytes),
            DispatchVerdict::Unavailable(
                "Configured language server does not provide "@ + operation_text(
                    pending.request.operation,
                ) + "."@,
            ),
        )
    } else {
        let (told, fault) = synced(talk, *pending.document.source, pending.document.version);
        match fault {
            Some(error) => (
                told.after_release(bytes),
                DispatchVerdict::Broken(
                    error.text(),
                    "language server synchronization failed: "@ + error.text(),
                ),
            ),
            None => asked(told, pending, now),
        }
    }
}

/// What became of a request that was to be sent.
#[derive(Debug)]
pub enum DispatchOutcome {
    Sent,
    Unavailable(NavigationRuntimeRequest, String),
    Failed(NavigationRuntimeRequest, String),
    Broken(NavigationRuntimeRequest, String, String),
}

impl DispatchOutcome {
    /// The outcome is the verdict on this request.
    pub open spec fn tells(&self, verdict: DispatchVerdict, asked: NavigationRuntimeRequest) -> bool {
        match verdict {
            DispatchVerdict::Sent => self is Sent,
            DispatchVerdict::Unavailable(message) => {
                &&& self matches DispatchOutcome::Unavailable(request, words)
                &&& *request == asked
                &&& words@ == message
            },
            DispatchVerdict::Failed(message) => {
                &&& self matches DispatchOutcome::Failed(request, words)
                &&& *request == asked
                &&& words@ == message
            },
            DispatchVerdict::Broken(message, error) => {
                &&& self matches DispatchOutcome::Broken(request, words, fault)
                &&& *request == asked
                &&& words@ == message
                &&& fault@ == error
            },
        }
    }
}

/// No number is waited for twice.
pub open spec fn distinct_ids(pending: Seq<PendingEntry>) -> bool {
    forall|i: int, j: int|
        0 <= i < j < pending.len() ==> (#[trigger] pending[i]).id != (#[trigger] pending[j]).id
}

/// The numbers that are waited for were handed out before.
pub open spec fn ids_before(pending: Seq<PendingEntry>, next: Option<i32>) -> bool {
    next matches Some(bound) ==> forall|i: int|
        0 <= i < pending.len() ==> (#[trigger] pending[i]).id < bound
}

pub open spec fn all_well_formed(pending: Seq<PendingEntry>) -> bool {
    forall|i: int| 0 <= i < pending.len() ==> (#[trigger] pending[i]).request.well_formed()
}

impl LspSession {
    pub open spec fn well_formed(&self) -> bool {
        &&& self.budget.well_formed()
        &&& self.retired.well_formed()
        &&& distinct_ids(self.pending@)
        &&& ids_before(self.pending@, self.allocator.next)
        &&& all_well_formed(self.pending@)
        &&& self.deferred matches Some(pending) ==> pending.well_formed()
    }

    pub open spec fn talk(&self, global: &GlobalPayloadBudget) -> Talk {
        Talk { session: self@, global: *global }
    }

    /// Frames a message and puts it before the writer.
    pub fn send_body(&mut self, global: &mut GlobalPayloadBudget, body: &str) -> (result: Result<
        (),
        SendError,
    >)
        requires
            old(self).well_formed(),
            old(global).well_formed(),
        ensures
            final(self).well_formed(),
            final(global).well_formed(),
            match said(old(self).talk(old(global)), body@) {
                Ok(after) => result is Ok && final(self).talk(final(global)) == after,
                Err(error) => result == Err::<(), _>(error) && final(self).talk(final(global))
                    == old(self).talk(old(global)),
            },
            final(self).state == old(self).state,
            final(self).pending == old(self).pending,
            final(self).allocator == old(self).allocator,
            final(self).opened == old(self).opened,
    {
        proof {
            reveal(said);
            lemma_frame_length(encode_utf8(body@));
        }
        let frame = match encode_frame(body.as_bytes(), &mut self.budget, global) {
            Err(error) => {
                return Err(SendError::Frame(error));
            },
            Ok(frame) => frame,
        };
        let ghost length = encoded(encode_utf8(body@)).len() as int;
        proof {
            law_handing_back_undoes_a_reservation(old(self).budget, *old(global), length);
        }
        match self.writer.take() {
            None => {
                self.budget.release(global, frame.permit);
                Err(SendError::WriterStopped)
            },
            Some(outbox) => {
                let mut outbox = outbox;
                if outbox.closed {
                    self.budget.release(global, frame.permit);
                    self.writer = Some(outbox);
                    return Err(SendError::QueueClosed);
                }
                if outbox.frames.len() >= SESSION_WRITER_CAPACITY {
                    self.budget.release(global, frame.permit);
                    self.writer = Some(outbox);
                    return Err(SendError::QueueFull);
                }
                let ghost before = outbox.frames@;
                let ghost added = frame;
                outbox.frames.push(frame);
                assert(frame_records(outbox.frames@) =~= frame_records(before).push(
                    frame_record(added),
                ));
                self.writer = Some(outbox);
                Ok(())
            },
        }
    }

    pub fn supports(&self, operation: NavigationOperation) -> (supported: bool)
        ensures
            supported == provides(self@.ready(), operation),
    {
        match &self.state {
            ServerState::Ready { capabilities } => match operation {
                NavigationOperation::Definition => capabilities.definition,
                NavigationOperation::References => capabilities.references,
                NavigationOperation::Implementations => capabilities.implementations,
                NavigationOperation::DocumentSymbols => capabilities.document_symbols,
            },
            _ => false,
        }
    }

    /// Opens a document where none is open.
    fn open_document(
        &mut self,
        global: &mut GlobalPayloadBudget,
        document: &NavigationDocument,
        uri: String,
    ) -> (result: Result<(), SyncError>)
        requires
            old(self).well_formed(),
            old(global).well_formed(),
            document.version.0 <= i32::MAX,
        ensures
            final(self).well_formed(),
            final(global).well_formed(),
            ({
                let (after, fault) = opening(
                    old(self).talk(old(global)),
                    *document.source,
                    uri@,
                    document.version,
                );
                &&& final(self).talk(final(global)) == after
                &&& match fault {
                    None => result is Ok,
                    Some(error) => result == Err::<(), _>(error),
                }
            }),
    {
        let body = open_body(
            document.source.language.language_id,
            document.source.text.as_str(),
            uri.as_str(),
            document.version.0 as i32,
        );
        if let Err(error) = self.send_body(global, body.as_str()) {
            return Err(SyncError::Send(error));
        }
        self.opened = Some(OpenedDocument { uri, version: document.version });
        Ok(())
    }

    /// Tells the server of a document.
    pub fn sync_document(
        &mut self,
        global: &mut GlobalPayloadBudget,
        document: &NavigationDocument,
    ) -> (result: Result<(), SyncError>)
        requires
            old(self).well_formed(),
            old(global).well_formed(),
        ensures
            final(self).well_formed(),
            final(global).well_formed(),
            ({
                let (after, fault) = synced(
                    old(self).talk(old(global)),
                    *document.source,
                    document.version,
                );
                &&& final(self).talk(final(global)) == after
                &&& match fault {
                    None => result is Ok,
                    Some(error) => result == Err::<(), _>(error),
                }
            }),
    {
        let open_close = match &self.state {
            ServerState::Ready { capabilities } => capabilities.text_document_sync.open_close,
            _ => {
                return Err(SyncError::NotReady);
            },
        };
        if !open_close {
            return Ok(());
        }
        let uri = match &document.source.uri {
            Err(error) => {
                return Err(SyncError::Uri(*error));
            },
            Ok(uri) => copy_text(uri.as_str()),
        };
        let known = match &self.opened {
            Some(opened) => opened.version == document.version && text_equal(
                opened.uri.as_str(),
                uri.as_str(),
            ),
            None => false,
        };
        if known {
            return Ok(());
        }
        if document.version.0 > 2_147_483_647 {
            return Err(SyncError::VersionExhausted);
        }
        match self.opened.take() {
            None => self.open_document(global, document, uri),
            Some(before) => {
                let body = close_body(before.uri.as_str());
                if let Err(error) = self.send_body(global, body.as_str()) {
                    return Err(SyncError::Send(error));
                }
                self.open_document(global, document, uri)
            },
        }
    }

    /// Sends the request itself.
    fn ask(
        &mut self,
        global: &mut GlobalPayloadBudget,
        pending: PendingUserRequest,
        now: u64,
    ) -> (outcome: DispatchOutcome)
        requires
            old(self).well_formed(),
            old(global).well_formed(),
            pending.well_formed(),
        ensures
            final(self).well_formed(),
            final(global).well_formed(),
            ({
                let (after, verdict) = asked(old(self).talk(old(global)), pending, now);
                &&& final(self).talk(final(global)) == after
                &&& outcome.tells(verdict, pending.request)
            }),
    {
        let operation = pending.request.operation;
        let position = match pending.document.source.line_index.to_utf16(pending.request.origin) {
            Err(error) => {
                self.budget.release(global, pending.document.permit);
                return DispatchOutcome::Failed(pending.request, copy_text(error.message()));
            },
            Ok(position) => position,
        };
        let uri = match &pending.document.source.uri {
            Err(error) => {
                let message = copy_text(error.message());
                self.budget.release(global, pending.document.permit);
                return DispatchOutcome::Failed(pending.request, message);
            },
            Ok(uri) => copy_text(uri.as_str()),
        };
        let id = match self.allocator.allocate() {
            None => {
                self.budget.release(global, pending.document.permit);
                return DispatchOutcome::Broken(
                    pending.request,
                    copy_text("RequestIdExhausted"),
                    copy_text("RequestIdExhausted"),
                );
            },
            Some(id) => id,
        };
        if self.pending.len() >= MAX_RETIRED_IDS {
            self.budget.release(global, pending.document.permit);
            return DispatchOutcome::Broken(
                pending.request,
                copy_text("language server pending request capacity requires restart"),
                copy_text("language server pending request capacity requires restart"),
            );
        }
        let body = request_body(&RpcId::Signed(id), operation, uri.as_str(), position);
        if let Err(error) = self.send_body(global, body.as_str()) {
            let mut fault = copy_text("language server writer failed: ");
            fault.push_str(error.message());
            self.budget.release(global, pending.document.permit);
            return DispatchOutcome::Broken(pending.request, copy_text(error.message()), fault);
        }
        let deadline: u64 = now.saturating_add(NAVIGATION_REQUEST_TIMEOUT);
        let ghost before = self.pending@;
        self.pending.push(
            PendingEntry { id, request: PendingRequest::Navigation { pending, deadline } },
        );
        proof {
            assert forall|i: int, j: int| 0 <= i < j < self.pending@.len() implies (
            #[trigger] self.pending@[i]).id != (#[trigger] self.pending@[j]).id by {
                assert(self.pending@[i] == before[i]);
                if j < before.len() {
                    assert(self.pending@[j] == before[j]);
                }
            }
        }
        DispatchOutcome::Sent
    }

    /// Sends a request, after the server was told of its document.
    pub fn dispatch(
        &mut self,
        global: &mut GlobalPayloadBudget,
        pending: PendingUserRequest,
        now: u64,
    ) -> (outcome: DispatchOutcome)
        requires
            old(self).well_formed(),
            old(global).well_formed(),
            pending.well_formed(),
        ensures
            final(self).well_formed(),
            final(global).well_formed(),
            ({
                let (after, verdict) = dispatched(old(self).talk(old(global)), pending, now);
                &&& final(self).talk(final(global)) == after
                &&& outcome.tells(verdict, pending.request)
            }),
    {
        let operation = pending.request.operation;
        if !self.supports(operation) {
            let mut message = copy_text("Configured language server does not provide ");
            message.push_str(operation_name(operation));
            message.push_str(".");
            self.budget.release(global, pending.document.permit);
            return DispatchOutcome::Unavailable(pending.request, message);
        }
        if let Err(error) = self.sync_document(global, &pending.document) {
            let mut fault = copy_text("language server synchronization failed: ");
            fault.push_str(error.message());
            self.budget.release(global, pending.document.permit);
            return DispatchOutcome::Broken(pending.request, copy_text(error.message()), fault);
        }
        self.ask(global, pending, now)
    }
}

// Starting --------------------------------------------------------------------------------

/// Why a session does not start.
#[derive(Clone, Copy, Debug, PartialEq, Eq, Structural)]
pub enum StartError {
    Uri(UriError),
    Send(SendError),
}

impl StartError {
    pub open spec fn text(self) -> Seq<char> {
        match self {
            StartError::Uri(error) => error.text(),
            StartError::Send(error) => error.text(),
        }
    }

    pub fn message(&self) -> (text: &'static str)
        ensures
            text@ == self.text(),
    {
        match self {
            StartError::Uri(error) => error.message(),
            StartError::Send(error) => error.message(),
        }
    }
}

/// A session that said nothing yet.
pub open spec fn fresh_session(
    key: KeyRecord,
    root_uri: Result<Seq<char>, UriError>,
    epoch: SessionEpoch,
    now: u64,
) -> SessionRecord {
    SessionRecord {
        key,
        root_uri,
        epoch,
        state: StateRecord::Starting { since: now },
        budget: PayloadBudget {
            session: PermitPool { limit: SESSION_PAYLOAD_BUDGET, used: 0 },
        },
        next: Some(0),
        retired: Seq::empty(),
        pending: Seq::empty(),
        deferred: None,
        opened: None,
        outbox: Some(OutboxRecord { frames: Seq::empty(), closed: false }),
        inbox: Seq::empty(),
        io_done: IoThreads { stdin: false, stdout: false, stderr: false },
        io_joined: IoThreads { stdin: false, stdout: false, stderr: false },
        ready_since: None,
    }
}

/// A session that asked its server to get ready, and the answer is due.
pub open spec fn started(
    fresh: SessionRecord,
    global: GlobalPayloadBudget,
    process_id: nat,
    folder: Seq<char>,
    now: u64,
) -> Result<Talk, StartError> {
    match fresh.root_uri {
        Err(error) => Err(StartError::Uri(error)),
        Ok(root) => match said(
            Talk { session: fresh, global }.with_next(Some(1)),
            initialize_text(IdRecord::Signed(0), process_id, root, folder),
        ) {
            Err(error) => Err(StartError::Send(error)),
            Ok(after) => Ok(
                Talk {
                    session: SessionRecord {
                        pending: after.session.pending.push(
                            PendingEntry {
                                id: 0,
                                request: PendingRequest::Initialize {
                                    deadline: later(now, INITIALIZE_TIMEOUT),
                                },
                            },
                        ),
                        ..after.session
                    },
                    ..after
                },
            ),
        },
    }
}

// Requests that are waited for ------------------------------------------------------------

/// Where a number is waited for, from a place on.
pub open spec fn pending_place(pending: Seq<PendingEntry>, id: i32, from: int) -> Option<int>
    decreases pending.len() - from,
{
    if from < 0 || from >= pending.len() {
        None
    } else if pending[from].id == id {
        Some(from)
    } else {
        pending_place(pending, id, from + 1)
    }
}

pub proof fn lemma_pending_place(pending: Seq<PendingEntry>, id: i32, from: int)
    requires
        0 <= from <= pending.len(),
    ensures
        match pending_place(pending, id, from) {
            Some(at) => from <= at < pending.len() && pending[at].id == id,
            None => forall|i: int| from <= i < pending.len() ==> (#[trigger] pending[i]).id != id,
        },
    decreases pending.len() - from,
{
    if from < pending.len() && pending[from].id != id {
        lemma_pending_place(pending, id, from + 1);
        if pending_place(pending, id, from + 1) is None {
            assert forall|i: int| from <= i < pending.len() implies (#[trigger] pending[i]).id
                != id by {
                if i > from {
                    assert(from + 1 <= i);
                }
            }
        }
    }
}

/// Why a request that was given up could not be retired.
#[derive(Clone, Copy, Debug, PartialEq, Eq, Structural)]
pub enum RetireError {
    Send(SendError),
    Full,
}

impl RetireError {
    pub open spec fn text(self) -> Seq<char> {
        match self {
            RetireError::Send(error) => error.text(),
            RetireError::Full => "retired JSON-RPC id capacity requires session restart"@,
        }
    }

    pub fn message(&self) -> (text: &'static str)
        ensures
            text@ == self.text(),
    {
        match self {
            RetireError::Send(error) => error.message(),
            RetireError::Full => "retired JSON-RPC id capacity requires session restart",
        }
    }
}

/// Tells the server that a request is given up, and remembers its number so that
/// an answer to it is not taken for something else.
pub open spec fn retired(talk: Talk, id: i32) -> (Talk, Option<RetireError>) {
    match said(talk, cancel_text(IdRecord::Signed(id))) {
        Err(error) => (talk, Some(RetireError::Send(error))),
        Ok(after) => if after.session.retired.contains(IdRecord::Signed(id)) {
            (after, None)
        } else if after.session.retired.len() >= MAX_RETIRED_IDS {
            (after, Some(RetireError::Full))
        } else {
            (
                Talk {
                    session: SessionRecord {
                        retired: after.session.retired.push(IdRecord::Signed(id)),
                        ..after.session
                    },
                    ..after
                },
                None,
            )
        },
    }
}

impl LspSession {
    /// Starts a session: its server is asked to get ready.
    pub fn start(
        key: SessionKey,
        root_uri: Result<String, UriError>,
        epoch: SessionEpoch,
        process_id: u32,
        folder: &str,
        now: u64,
        global: &mut GlobalPayloadBudget,
    ) -> (result: Result<LspSession, StartError>)
        requires
            old(global).well_formed(),
        ensures
            final(global).well_formed(),
            match started(
                fresh_session(key@, uri_words(root_uri), epoch, now),
                *old(global),
                process_id as nat,
                folder@,
                now,
            ) {
                Ok(talk) => {
                    &&& result matches Ok(session)
                    &&& session.well_formed()
                    &&& session.talk(final(global)) == talk
                },
                Err(error) => result == Err::<LspSession, _>(error) && *final(global) == *old(
                    global,
                ),
            },
    {
        let root = match &root_uri {
            Err(error) => {
                return Err(StartError::Uri(*error));
            },
            Ok(root) => copy_text(root.as_str()),
        };
        let mut session = LspSession {
            key,
            root_uri,
            epoch,
            state: ServerState::Starting { since: now },
            budget: PayloadBudget::session(),
            allocator: RequestIdAllocator::default(),
            retired: RetiredIds::default(),
            pending: Vec::new(),
            deferred: None,
            opened: None,
            writer: Some(Outbox { frames: Vec::new(), closed: false }),
            inbox: Vec::new(),
            io_done: IoThreads::empty(),
            io_joined: IoThreads::empty(),
            ready_since: None,
        };
        let ghost fresh = fresh_session(key@, uri_words(root_uri), epoch, now);
        proof {
            assert(session.inbox@ =~= Seq::<ChargedPayload>::empty());
            assert(frame_records(session.inbox@) =~= Seq::<FrameRecord>::empty());
            assert(session@.outbox->0.frames =~= Seq::<FrameRecord>::empty());
            assert(session.pending@ =~= Seq::<PendingEntry>::empty());
            assert(session@ == fresh);
        }
        let _ = session.allocator.allocate();
        assert(session.talk(global) == Talk { session: fresh, global: *global }.with_next(Some(1)));
        let body = initialize_body(&RpcId::Signed(0), process_id, root.as_str(), folder);
        if let Err(error) = session.send_body(global, body.as_str()) {
            return Err(StartError::Send(error));
        }
        let deadline: u64 = now.saturating_add(INITIALIZE_TIMEOUT);
        session.pending.push(
            PendingEntry { id: 0, request: PendingRequest::Initialize { deadline } },
        );
        Ok(session)
    }

    /// Takes a frame in. A reader that is too fast is a fault.
    pub fn enqueue_inbound_frame(&mut self, global: &mut GlobalPayloadBudget, frame: ChargedPayload) -> (result:
        Result<(), InboxError>)
        requires
            old(self).well_formed(),
            old(global).well_formed(),
        ensures
            final(self).well_formed(),
            final(global).well_formed(),
            if old(self)@.inbox.len() >= SESSION_FRAME_CAPACITY {
                &&& result == Err::<(), _>(InboxError::Full)
                &&& final(self).talk(final(global)) == old(self).talk(old(global)).after_release(
                    frame.permit.bytes as int,
                )
            } else {
                &&& result is Ok
                &&& *final(global) == *old(global)
                &&& final(self)@ == (SessionRecord {
                    inbox: old(self)@.inbox.push(frame_record(frame)),
                    ..old(self)@
                })
            },
    {
        if self.inbox.len() >= SESSION_FRAME_CAPACITY {
            self.budget.release(global, frame.permit);
            return Err(InboxError::Full);
        }
        let ghost before = self.inbox@;
        self.inbox.push(frame);
        assert(frame_records(self.inbox@) =~= frame_records(before).push(frame_record(frame)));
        Ok(())
    }

    /// Hands the oldest frame to the writer.
    pub fn next_outgoing(&mut self) -> (frame: Option<ChargedPayload>)
        requires
            old(self).well_formed(),
        ensures
            final(self).well_formed(),
            match old(self)@.outbox {
                Some(outbox) => if outbox.frames.len() == 0 {
                    frame is None && final(self)@ == old(self)@
                } else {
                    &&& frame matches Some(taken)
                    &&& frame_record(taken) == outbox.frames[0]
                    &&& final(self)@ == (SessionRecord {
                        outbox: Some(
                            OutboxRecord { frames: outbox.frames.remove(0), ..outbox },
                        ),
                        ..old(self)@
                    })
                },
                None => frame is None && final(self)@ == old(self)@,
            },
    {
        match self.writer.take() {
            None => None,
            Some(outbox) => {
                let mut outbox = outbox;
                let ghost before = outbox.frames@;
                let taken = if outbox.frames.len() > 0 {
                    Some(outbox.frames.remove(0))
                } else {
                    None
                };
                proof {
                    if before.len() > 0 {
                        assert(frame_records(outbox.frames@) =~= frame_records(before).remove(0));
                    }
                }
                self.writer = Some(outbox);
                taken
            },
        }
    }

    /// Takes a frame back that the writer had no room for, to be handed out first. Where
    /// there is no writer, the frame is returned.
    pub fn put_back(&mut self, frame: ChargedPayload) -> (refused: Option<ChargedPayload>)
        requires
            old(self).well_formed(),
        ensures
            final(self).well_formed(),
            match old(self)@.outbox {
                Some(outbox) => refused is None && final(self)@ == (SessionRecord {
                    outbox: Some(
                        OutboxRecord {
                            frames: outbox.frames.insert(0, frame_record(frame)),
                            ..outbox
                        },
                    ),
                    ..old(self)@
                }),
                None => refused == Some(frame) && final(self)@ == old(self)@,
            },
    {
        match self.writer.take() {
            None => Some(frame),
            Some(outbox) => {
                let mut outbox = outbox;
                let ghost before = outbox.frames@;
                let ghost taken = frame_record(frame);
                outbox.frames.insert(0, frame);
                assert(frame_records(outbox.frames@) =~= frame_records(before).insert(0, taken));
                self.writer = Some(outbox);
                None
            },
        }
    }

    /// Stops waiting for a number.
    pub fn take_pending(&mut self, id: i32) -> (taken: Option<PendingRequest>)
        requires
            old(self).well_formed(),
        ensures
            final(self).well_formed(),
            match pending_place(old(self).pending@, id, 0) {
                None => taken is None && final(self)@ == old(self)@,
                Some(at) => {
                    &&& 0 <= at < old(self).pending@.len()
                    &&& taken == Some(old(self).pending@[at].request)
                    &&& final(self)@ == (SessionRecord {
                        pending: old(self).pending@.remove(at),
                        ..old(self)@
                    })
                },
            },
    {
        let mut index: usize = 0;
        while index < self.pending.len()
            invariant
                index <= self.pending@.len(),
                *self == *old(self),
                self.well_formed(),
                pending_place(self.pending@, id, 0) == pending_place(
                    self.pending@,
                    id,
                    index as int,
                ),
            decreases self.pending@.len() - index,
        {
            if self.pending[index].id == id {
                let ghost before = self.pending@;
                let entry = self.pending.remove(index);
                proof {
                    let after = self.pending@;
                    assert forall|i: int| 0 <= i < after.len() implies #[trigger] after[i]
                        == before[if i < index {
                        i
                    } else {
                        i + 1
                    }] by {}
                    assert forall|i: int, j: int| 0 <= i < j < after.len() implies (
                    #[trigger] after[i]).id != (#[trigger] after[j]).id by {}
                }
                return Some(entry.request);
            }
            index = index + 1;
        }
        None
    }

    /// Tells the server that a request is given up.
    pub fn retire(&mut self, global: &mut GlobalPayloadBudget, id: i32) -> (result: Result<
        (),
        RetireError,
    >)
        requires
            old(self).well_formed(),
            old(global).well_formed(),
        ensures
            final(self).well_formed(),
            final(global).well_formed(),
            ({
                let (after, fault) = retired(old(self).talk(old(global)), id);
                &&& final(self).talk(final(global)) == after
                &&& match fault {
                    None => result is Ok,
                    Some(error) => result == Err::<(), _>(error),
                }
            }),
    {
        let number = RpcId::Signed(id);
        let body = cancel_body(&number);
        if let Err(error) = self.send_body(global, body.as_str()) {
            return Err(RetireError::Send(error));
        }
        if self.retired.insert(number) {
            Ok(())
        } else {
            Err(RetireError::Full)
        }
    }
}

/// Why a frame could not be taken in.
#[derive(Clone, Copy, Debug, PartialEq, Eq, Structural)]
pub enum InboxError {
    Full,
    Disconnected,
}

impl InboxError {
    pub fn message(&self) -> (text: &'static str)
        ensures
            text@ == (match self {
                InboxError::Full => "language server frame channel is full"@,
                InboxError::Disconnected => "language server frame channel disconnected"@,
            }),
    {
        match self {
            InboxError::Full => "language server frame channel is full",
            InboxError::Disconnected => "language server frame channel disconnected",
        }
    }
}

// Giving up -------------------------------------------------------------------------------

/// The requests of the user among those that are waited for.
pub open spec fn user_requests(pending: Seq<PendingEntry>) -> Seq<PendingUserRequest>
    decreases pending.len(),
{
    if pending.len() == 0 {
        Seq::empty()
    } else {
        match pending.last().request {
            PendingRequest::Initialize { .. } => user_requests(pending.drop_last()),
            PendingRequest::Navigation { pending: request, .. } => user_requests(
                pending.drop_last(),
            ).push(request),
        }
    }
}

/// All requests of the user that a session still owes an answer.
pub open spec fn owed(session: SessionRecord) -> Seq<PendingUserRequest> {
    match session.deferred {
        None => user_requests(session.pending),
        Some(pending) => user_requests(session.pending).push(pending),
    }
}

pub open spec fn requests_well_formed(requests: Seq<PendingUserRequest>) -> bool {
    forall|i: int| 0 <= i < requests.len() ==> (#[trigger] requests[i]).well_formed()
}

/// A session that waits for nothing any more.
pub open spec fn emptied(session: SessionRecord) -> SessionRecord {
    SessionRecord {
        state: StateRecord::StoppingForced,
        pending: Seq::empty(),
        deferred: None,
        ..session
    }
}

impl LspSession {
    /// Hands out the requests that are owed an answer, and stops waiting.
    pub fn drain(&mut self) -> (requests: Vec<PendingUserRequest>)
        requires
            old(self).well_formed(),
        ensures
            final(self).well_formed(),
            final(self)@ == emptied(old(self)@),
            requests@ == owed(old(self)@),
            requests_well_formed(requests@),
    {
        let mut pending: Vec<PendingEntry> = Vec::new();
        std::mem::swap(&mut pending, &mut self.pending);
        let ghost all = pending@;
        let mut requests: Vec<PendingUserRequest> = Vec::new();
        let ghost mut done: int = 0;
        assert(requests@ =~= user_requests(all.subrange(0, 0)));
        while pending.len() > 0
            invariant
                0 <= done <= all.len(),
                pending@ == all.subrange(done, all.len() as int),
                all_well_formed(all),
                requests@ == user_requests(all.subrange(0, done)),
                requests_well_formed(requests@),
            decreases pending@.len(),
        {
            let entry = pending.remove(0);
            proof {
                assert(entry == all[done]);
                assert(all.subrange(0, done + 1).drop_last() =~= all.subrange(0, done));
                assert(pending@ =~= all.subrange(done + 1, all.len() as int));
                assert(all[done].request.well_formed());
            }
            if let PendingRequest::Navigation { pending: request, .. } = entry.request {
                requests.push(request);
            }
            proof {
                done = done + 1;
            }
        }
        assert(all.subrange(0, all.len() as int) =~= all);
        if let Some(request) = self.deferred.take() {
            requests.push(request);
        }
        self.state = ServerState::StoppingForced;
        assert(self.pending@ =~= Seq::<PendingEntry>::empty());
        requests
    }
}

/// What the writer puts back is what it is handed next, and nothing else is moved by it.
pub proof fn law_putting_back_undoes_handing_out(outbox: OutboxRecord)
    requires
        outbox.frames.len() > 0,
    ensures
        outbox.frames.remove(0).insert(0, outbox.frames[0]) == outbox.frames,
{
    assert(outbox.frames.remove(0).insert(0, outbox.frames[0]) =~= outbox.frames);
}

// What a session says ---------------------------------------------------------------------

/// A server provides what its capability of the same name says.
pub proof fn law_servers_provide_what_they_are_able_to(capabilities: NavigationCapabilities)
    ensures
        provides(Some(capabilities), NavigationOperation::Definition) == capabilities.definition,
        provides(Some(capabilities), NavigationOperation::References) == capabilities.references,
        provides(Some(capabilities), NavigationOperation::Implementations)
            == capabilities.implementations,
        provides(Some(capabilities), NavigationOperation::DocumentSymbols)
            == capabilities.document_symbols,
        forall|operation: NavigationOperation| !#[trigger] provides(None, operation),
{
}

/// Time does not run over: what would is the last moment there is.
pub proof fn law_deadlines_lie_ahead(now: u64, span: u64)
    ensures
        now <= later(now, span),
        now + span <= u64::MAX ==> later(now, span) == now + span,
        now + span > u64::MAX ==> later(now, span) == u64::MAX,
{
}

/// The last frame in line asks about the origin of the request in the document's own
/// protocol position, and the request waits under the number that the frame bears for three
/// seconds.
pub open spec fn asks(
    before: SessionRecord,
    after: SessionRecord,
    pending: PendingUserRequest,
    now: u64,
    id: i32,
    position: crate::positions::Position,
    uri: String,
) -> bool {
    &&& before.next == Some(id)
    &&& protocol_position(pending.document.source.line_index@, pending.request.origin) == Ok::<
        _,
        crate::positions::PositionError,
    >(position)
    &&& pending.document.source.uri == Ok::<_, UriError>(uri)
    &&& after.outbox is Some && after.outbox->0.frames.len() > 0
    &&& after.outbox->0.frames.last().bytes == encoded(
        encode_utf8(
            request_text(IdRecord::Signed(id), pending.request.operation, uri@, position),
        ),
    )
    &&& after.pending.len() == before.pending.len() + 1
    &&& after.pending.drop_last() == before.pending
    &&& after.pending.last().id == id
    &&& after.pending.last().request matches PendingRequest::Navigation { pending: kept, deadline }
        && kept == pending && (now + 3000 <= u64::MAX ==> deadline == now + 3000)
    &&& id < i32::MAX ==> after.next == Some((id + 1) as i32)
}

/// A request that is sent is about its origin, and it is remembered under the next number.
pub proof fn law_sent_requests_ask_about_their_origin(
    talk: Talk,
    pending: PendingUserRequest,
    now: u64,
)
    requires
        dispatched(talk, pending, now).1 is Sent,
    ensures
        exists|id: i32, position: crate::positions::Position, uri: String| #[trigger]
            asks(
                talk.session,
                dispatched(talk, pending, now).0.session,
                pending,
                now,
                id,
                position,
                uri,
            ),
{
    reveal(said);
    let source = *pending.document.source;
    let (told, fault) = synced(talk, source, pending.document.version);
    let after = dispatched(talk, pending, now).0.session;
    let id = talk.session.next->0;
    let position = protocol_position(source.line_index@, pending.request.origin)->Ok_0;
    let uri = source.uri->Ok_0;
    assert(told.session.next == talk.session.next);
    assert(told.session.pending == talk.session.pending);
    assert(after.pending.drop_last() =~= talk.session.pending);
    assert(asks(talk.session, after, pending, now, id, position, uri));
}

/// A server that is told of documents knows the document and its version when it is asked,
/// and only what a server provides is asked of it.
pub proof fn law_servers_know_what_they_are_asked_about(
    talk: Talk,
    pending: PendingUserRequest,
    now: u64,
)
    requires
        dispatched(talk, pending, now).1 is Sent,
    ensures
        talk.session.ready() matches Some(capabilities) && provides(
            Some(capabilities),
            pending.request.operation,
        ) && (capabilities.text_document_sync.open_close ==> {
            &&& pending.document.source.uri is Ok
            &&& dispatched(talk, pending, now).0.session.opened == Some(
                OpenedRecord {
                    uri: pending.document.source.uri->Ok_0@,
                    version: pending.document.version,
                },
            )
        }),
{
    reveal(said);
}

/// The entry that waits under a number is found, and no other.
pub proof fn law_entries_are_found_by_number(pending: Seq<PendingEntry>, id: i32)
    ensures
        match pending_place(pending, id, 0) {
            Some(at) => 0 <= at < pending.len() && pending[at].id == id && forall|i: int|
                0 <= i < at ==> (#[trigger] pending[i]).id != id,
            None => forall|i: int| 0 <= i < pending.len() ==> (#[trigger] pending[i]).id != id,
        },
{
    lemma_first_entry(pending, id, 0);
}

proof fn lemma_first_entry(pending: Seq<PendingEntry>, id: i32, from: int)
    requires
        0 <= from <= pending.len(),
    ensures
        match pending_place(pending, id, from) {
            Some(at) => from <= at < pending.len() && pending[at].id == id && forall|i: int|
                from <= i < at ==> (#[trigger] pending[i]).id != id,
            None => forall|i: int| from <= i < pending.len() ==> (#[trigger] pending[i]).id != id,
        },
    decreases pending.len() - from,
{
    if from < pending.len() && pending[from].id != id {
        lemma_first_entry(pending, id, from + 1);
    }
}

} // verus!
