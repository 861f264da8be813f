//! What servers say.

use crate::completions::{NavigationProtocolResult, ResultRecord};
use crate::document::NavigationOperation;
use crate::failures::{forgiven, is_stable};
use crate::json::{broken_limit, json_preflight, Place};
use crate::locations::{parse_navigation_result, result_locations, total_charge, LocationParts};
use crate::manager::{
    completed, failed_at, lemma_told_keys, outlined, place_of, released,
    session_keys, told, ManagerRecord, NavigationManager,
};
use crate::messages::{initialized_body, initialized_text, response_body, response_text};
use crate::outline::{
    explain_symbols, listed, parse_document_symbol_result, result_symbols, source_path,
    symbol_fault_text, symbols_charge, SymbolItem,
};
use crate::payload::{
    law_handing_back_undoes_a_reservation, GlobalPayloadBudget, PayloadBudget,
};
use crate::protocol::{
    call_answer, error_message, explain_message, initialized_capabilities,
    parse_initialize_capabilities, parse_protocol_error, raw_result, refused_message,
    server_call_result, words_result, CallParams, Envelope, RawCapabilities,
};
use crate::requests::{revalidated_at, talk_at, with_talk};
use crate::process::IoThreadDone;
use crate::rpc::{
    lemma_without, record_io_done, without, IdRecord, IoThreads, LifecycleError, RpcId,
    SessionEpoch,
};
use crate::session::{
    frame_record, frame_records, lemma_pending_place, pending_place, said, LspSession, PendingRequest,
    PendingUserRequest, ServerState, SessionKey, SessionRecord, StateRecord, Talk,
};
use crate::text::{copy_text, text_equal};
use vstd::prelude::*;

verus! {

/// What was read out of a frame. Only the parts that its message needs are looked at.
#[derive(Debug)]
pub struct FrameParts {
    pub envelope: Option<Envelope>,
    /// The parameters of a request of the server.
    pub call: CallParams,
    /// The token of the message in an error, or why there is none.
    pub error_message: Result<String, String>,
    /// The token of the capabilities in an answer to an initialization.
    pub capabilities_object: Result<String, String>,
    pub capabilities: Result<RawCapabilities, String>,
    pub locations: LocationParts,
    /// The symbols in an answer, or why it is no list.
    pub symbols: Result<Vec<SymbolItem>, String>,
}

pub open spec fn words_option(words: Option<String>) -> Option<Seq<char>> {
    match words {
        Some(words) => Some(words@),
        None => None,
    }
}

/// The message of an error: what it costs and what it says, or what is wrong with it.
pub open spec fn told_error(
    message: Result<String, String>,
    budget: &PayloadBudget,
    global: &GlobalPayloadBudget,
) -> Result<(int, Seq<char>), Seq<char>> {
    match message {
        Err(words) => Err(words@),
        Ok(token) => match error_message(token@, budget, global) {
            Err(fault) => Err(refused_message(token@, fault)),
            Ok(found) => Ok(found),
        },
    }
}

/// The session at a place is charged.
pub open spec fn charged_at(manager: ManagerRecord, at: int, bytes: int) -> ManagerRecord {
    let session = manager.sessions[at];
    with_talk(
        manager,
        at,
        Talk {
            session: SessionRecord { budget: session.budget.with(bytes), ..session },
            global: manager.global.with(bytes),
        },
    )
}

/// A session answered as it should. If it did so long enough, its failures are forgotten.
pub open spec fn healthy_at(manager: ManagerRecord, at: int, now: u64) -> ManagerRecord {
    if is_stable(manager.sessions[at].ready_since, now) {
        ManagerRecord { book: forgiven(manager.book, manager.sessions[at].key), ..manager }
    } else {
        manager
    }
}

/// An answer cannot be read: the request is told so, and the session fails.
pub open spec fn unreadable(
    manager: ManagerRecord,
    at: int,
    pending: PendingUserRequest,
    words: Seq<char>,
    error: Seq<char>,
) -> ManagerRecord {
    failed_at(told(manager, pending.request, ResultRecord::Failed(words)), at, error)
}

/// A request is answered with an error.
#[verifier::opaque]
pub open spec fn refused(
    manager: ManagerRecord,
    at: int,
    pending: PendingUserRequest,
    message: Result<String, String>,
    now: u64,
) -> ManagerRecord {
    let session = manager.sessions[at];
    match told_error(message, &session.budget, &manager.global) {
        Err(words) => unreadable(
            manager,
            at,
            pending,
            words,
            "invalid language server error result"@,
        ),
        Ok((charge, words)) => completed(
            healthy_at(charged_at(manager, at, charge), at, now),
            pending.request,
            ResultRecord::Failed(words),
            Some(session.epoch),
            Some(charge),
        ),
    }
}

/// A request for symbols is answered.
#[verifier::opaque]
pub open spec fn outlined_at(
    manager: ManagerRecord,
    at: int,
    pending: PendingUserRequest,
    raw: Seq<char>,
    items: Result<Vec<SymbolItem>, String>,
    now: u64,
) -> ManagerRecord {
    let session = manager.sessions[at];
    let source = *pending.document.source;
    match result_symbols(
        raw,
        listed(items),
        source_path(source),
        source.line_index@,
        session.budget.room(&manager.global),
    ) {
        Err(fault) => unreadable(
            manager,
            at,
            pending,
            symbol_fault_text(items, fault),
            "invalid language server document symbol result"@,
        ),
        Ok(symbols) => outlined(
            healthy_at(charged_at(manager, at, symbols_charge(symbols)), at, now),
            pending.request,
            symbols,
            session.epoch,
        ),
    }
}

/// A request for locations is answered.
#[verifier::opaque]
pub open spec fn located(
    manager: ManagerRecord,
    at: int,
    pending: PendingUserRequest,
    raw: Seq<char>,
    parts: LocationParts,
    now: u64,
) -> ManagerRecord {
    let session = manager.sessions[at];
    match result_locations(
        pending.request.operation,
        raw,
        parts.items@,
        parts.unread is Some,
        session.budget.room(&manager.global),
    ) {
        Err(fault) => unreadable(
            manager,
            at,
            pending,
            parts.fault_text(pending.request.operation, raw, fault),
            "invalid language server navigation result"@,
        ),
        Ok(entries) => completed(
            healthy_at(charged_at(manager, at, total_charge(entries)), at, now),
            pending.request,
            ResultRecord::Locations(entries),
            Some(session.epoch),
            None,
        ),
    }
}

/// A request of the user is answered. Its document is handed back at the end.
pub open spec fn answered(
    manager: ManagerRecord,
    at: int,
    pending: PendingUserRequest,
    error: Option<Seq<char>>,
    raw: Seq<char>,
    parts: FrameParts,
    now: u64,
) -> ManagerRecord {
    let after = if error is Some {
        refused(manager, at, pending, parts.error_message, now)
    } else if pending.request.operation is DocumentSymbols {
        outlined_at(manager, at, pending, raw, parts.symbols, now)
    } else {
        located(manager, at, pending, raw, parts.locations, now)
    };
    released(
        after,
        Some(manager.sessions[at].epoch),
        pending.document.permit.bytes as int,
    )
}

/// A server said whether it is ready. The request that was kept for this is sent.
#[verifier::opaque]
pub open spec fn initialized_at(
    manager: ManagerRecord,
    at: int,
    error: Option<Seq<char>>,
    raw: Seq<char>,
    parts: FrameParts,
    now: u64,
) -> ManagerRecord {
    let session = manager.sessions[at];
    if error is Some {
        let message = match told_error(parts.error_message, &session.budget, &manager.global) {
            Ok((_, words)) => words,
            Err(_) => "invalid bounded error message"@,
        };
        failed_at(manager, at, "language server initialization failed: "@ + message)
    } else {
        match initialized_capabilities(
            raw,
            words_result(parts.capabilities_object),
            raw_result(parts.capabilities),
        ) {
            Err(words) => failed_at(manager, at, words),
            Ok(capabilities) => {
                let ready = ManagerRecord {
                    sessions: manager.sessions.update(
                        at,
                        SessionRecord {
                            state: StateRecord::Ready { capabilities },
                            ready_since: Some(now),
                            ..session
                        },
                    ),
                    ..manager
                };
                match said(talk_at(ready, at), initialized_text()) {
                    Err(error) => failed_at(
                        ready,
                        at,
                        "cannot finish language server initialization: "@ + error.text(),
                    ),
                    Ok(talk) => {
                        let told = with_talk(ready, at, talk);
                        match session.deferred {
                            None => told,
                            Some(pending) => revalidated_at(
                                ManagerRecord {
                                    sessions: told.sessions.update(
                                        at,
                                        SessionRecord { deferred: None, ..told.sessions[at] },
                                    ),
                                    ..told
                                },
                                at,
                                pending,
                                now,
                            ),
                        }
                    },
                }
            },
        }
    }
}

/// A server asked for something. What is only told needs no answer.
#[verifier::opaque]
pub open spec fn called_at(
    manager: ManagerRecord,
    at: int,
    id: Option<RpcId>,
    method: Seq<char>,
    params: Option<Seq<char>>,
    call: CallParams,
) -> ManagerRecord {
    match id {
        None => manager,
        Some(id) => match said(
            talk_at(manager, at),
            response_text(
                id@,
                call_answer(method, params, call, manager.sessions[at].root_uri),
            ),
        ) {
            Ok(talk) => with_talk(manager, at, talk),
            Err(error) => failed_at(
                manager,
                at,
                "cannot answer language server request: "@ + error.text(),
            ),
        },
    }
}

/// Where the request with an identifier is waited for.
pub open spec fn place_of_id(session: SessionRecord, id: IdRecord) -> Option<int> {
    match id {
        IdRecord::Signed(number) => pending_place(session.pending, number, 0),
        IdRecord::Words(_) => None,
    }
}

/// An answer came.
#[verifier::opaque]
pub open spec fn responded(
    manager: ManagerRecord,
    at: int,
    envelope: Envelope,
    parts: FrameParts,
    now: u64,
) -> ManagerRecord {
    let session = manager.sessions[at];
    match envelope.id {
        None => failed_at(manager, at, "JSON-RPC response is missing its id"@),
        Some(id) => if envelope.result is Some == envelope.error is Some {
            failed_at(
                manager,
                at,
                "JSON-RPC response must contain exactly one of result or error"@,
            )
        } else if session.retired.contains(id@) {
            ManagerRecord {
                sessions: manager.sessions.update(
                    at,
                    SessionRecord { retired: without(session.retired, id@), ..session },
                ),
                ..manager
            }
        } else {
            match place_of_id(session, id@) {
                None => failed_at(manager, at, "unmatched JSON-RPC response id"@),
                Some(place) => {
                    let taken = ManagerRecord {
                        sessions: manager.sessions.update(
                            at,
                            SessionRecord { pending: session.pending.remove(place), ..session },
                        ),
                        ..manager
                    };
                    let error = words_option(envelope.error);
                    let raw = match envelope.result {
                        Some(words) => words@,
                        None => Seq::empty(),
                    };
                    match session.pending[place].request {
                        PendingRequest::Initialize { .. } => initialized_at(
                            taken,
                            at,
                            error,
                            raw,
                            parts,
                            now,
                        ),
                        PendingRequest::Navigation { pending, .. } => answered(
                            taken,
                            at,
                            pending,
                            error,
                            raw,
                            parts,
                            now,
                        ),
                    }
                },
            }
        },
    }
}

/// A message came.
pub open spec fn enveloped(manager: ManagerRecord, at: int, parts: FrameParts, now: u64) -> ManagerRecord {
    match parts.envelope {
        None => failed_at(manager, at, "invalid JSON-RPC envelope"@),
        Some(envelope) => if !envelope.is_current() {
            failed_at(manager, at, "invalid JSON-RPC envelope"@)
        } else {
            match envelope.method {
                Some(method) => if envelope.result is Some || envelope.error is Some {
                    failed_at(
                        manager,
                        at,
                        "invalid JSON-RPC message contains method and response fields"@,
                    )
                } else {
                    called_at(
                        manager,
                        at,
                        envelope.id,
                        method@,
                        words_option(envelope.params),
                        parts.call,
                    )
                },
                None => responded(manager, at, envelope, parts, now),
            }
        },
    }
}

/// The oldest frame of a session is looked at. It is charged as long as that takes,
/// and once more for what is read out of it.
pub open spec fn framed(manager: ManagerRecord, at: int, parts: FrameParts, now: u64) -> ManagerRecord {
    let session = manager.sessions[at];
    let frame = session.inbox[0];
    let length = frame.bytes.len() as int;
    let taken = ManagerRecord {
        sessions: manager.sessions.update(
            at,
            SessionRecord { inbox: session.inbox.remove(0), ..session },
        ),
        ..manager
    };
    match broken_limit(frame.bytes, 0, 0, Place::Code) {
        Some(limit) => released(
            failed_at(taken, at, "malformed language server JSON: "@ + limit.text()),
            Some(session.epoch),
            frame.charge,
        ),
        None => if session.budget.refusal(&manager.global, length) is Some {
            released(
                failed_at(
                    taken,
                    at,
                    "language server response exceeded the navigation payload budget"@,
                ),
                Some(session.epoch),
                frame.charge,
            )
        } else {
            released(
                released(
                    enveloped(charged_at(taken, at, length), at, parts, now),
                    Some(session.epoch),
                    frame.charge,
                ),
                Some(session.epoch),
                length,
            )
        },
    }
}

impl NavigationManager {
    /// A server answered as it should.
    fn mark_healthy(&mut self, at: usize, now: u64)
        requires
            old(self).well_formed(),
            at < old(self).sessions@.len(),
        ensures
            final(self).well_formed(),
            final(self)@ == healthy_at(old(self)@, at as int, now),
    {
        assert(self@.sessions[at as int] == self.sessions@[at as int]@);
        let ready_since = self.sessions[at].ready_since;
        let key = self.sessions[at].key.copy();
        self.book.reset_backoff_if_stable_at(&key, ready_since, now);
    }

    /// An answer cannot be read.
    fn reject_answer(&mut self, at: usize, pending: &PendingUserRequest, words: &str, error: &str)
        requires
            old(self).well_formed(),
            at < old(self).sessions@.len(),
        ensures
            final(self).well_formed(),
            final(self)@ == unreadable(old(self)@, at as int, *pending, words@, error@),
    {
        proof {
            lemma_told_keys(self@, pending.request, ResultRecord::Failed(words@), None, None);
        }
        self.complete_request(
            &pending.request,
            NavigationProtocolResult::Failed(copy_text(words)),
        );
        self.fail_at(at, copy_text(error));
    }

    /// A request is answered with an error.
    #[verifier::rlimit(60)]
    fn finish_error(
        &mut self,
        at: usize,
        pending: &PendingUserRequest,
        message: &Result<String, String>,
        now: u64,
    )
        requires
            old(self).well_formed(),
            at < old(self).sessions@.len(),
        ensures
            final(self).well_formed(),
            final(self)@ == refused(old(self)@, at as int, *pending, *message, now),
    {
        let ghost before = self@;
        proof {
            reveal(refused);
            assert(self@.sessions[at as int] == self.sessions@[at as int]@);
        }
        let epoch = self.sessions[at].epoch;
        let token = match message {
            Err(words) => {
                self.reject_answer(
                    at,
                    pending,
                    words.as_str(),
                    "invalid language server error result",
                );
                return;
            },
            Ok(token) => token,
        };
        let parsed = parse_protocol_error(
            token.as_str(),
            &mut self.sessions[at].budget,
            &mut self.global,
        );
        match parsed {
            Err(fault) => {
                proof {
                    assert(self@.sessions =~= before.sessions);
                    assert(self@ == before);
                }
                let words = explain_message(token.as_str(), fault);
                self.reject_answer(
                    at,
                    pending,
                    words.as_str(),
                    "invalid language server error result",
                );
            },
            Ok((words, permit)) => {
                proof {
                    let charge = permit.bytes as int;
                    assert(self@.sessions =~= charged_at(before, at as int, charge).sessions);
                    assert(self@ == charged_at(before, at as int, charge));
                    assert(session_keys(self@.sessions) =~= session_keys(before.sessions));
                }
                self.mark_healthy(at, now);
                self.complete_request_with_permit(
                    &pending.request,
                    NavigationProtocolResult::Failed(words),
                    Some(epoch),
                    Some(permit),
                );
            },
        }
    }

    /// A request for symbols is answered.
    #[verifier::rlimit(60)]
    fn finish_symbols(
        &mut self,
        at: usize,
        pending: &PendingUserRequest,
        raw: &str,
        items: &Result<Vec<SymbolItem>, String>,
        now: u64,
    )
        requires
            old(self).well_formed(),
            at < old(self).sessions@.len(),
            pending.well_formed(),
        ensures
            final(self).well_formed(),
            final(self)@ == outlined_at(
                old(self)@,
                at as int,
                *pending,
                raw@,
                *items,
                now,
            ),
    {
        let ghost before = self@;
        proof {
            reveal(outlined_at);
            assert(self@.sessions[at as int] == self.sessions@[at as int]@);
        }
        let epoch = self.sessions[at].epoch;
        let parsed = parse_document_symbol_result(
            raw,
            items,
            &pending.document.source,
            &mut self.sessions[at].budget,
            &mut self.global,
        );
        match parsed {
            Err(fault) => {
                proof {
                    assert(self@.sessions =~= before.sessions);
                    assert(self@ == before);
                }
                let words = explain_symbols(items, fault);
                self.reject_answer(
                    at,
                    pending,
                    words.as_str(),
                    "invalid language server document symbol result",
                );
            },
            Ok(symbols) => {
                proof {
                    let charge = symbols_charge(crate::outline::document_symbols(symbols@));
                    assert(self@.sessions =~= charged_at(before, at as int, charge).sessions);
                    assert(self@ == charged_at(before, at as int, charge));
                    assert(session_keys(self@.sessions) =~= session_keys(before.sessions));
                }
                self.mark_healthy(at, now);
                self.complete_document_symbols(&pending.request, symbols, epoch);
            },
        }
    }

    /// A request for locations is answered.
    #[verifier::rlimit(60)]
    fn finish_locations(
        &mut self,
        at: usize,
        pending: &PendingUserRequest,
        raw: &str,
        parts: &LocationParts,
        now: u64,
    )
        requires
            old(self).well_formed(),
            at < old(self).sessions@.len(),
        ensures
            final(self).well_formed(),
            final(self)@ == located(
                old(self)@,
                at as int,
                *pending,
                raw@,
                *parts,
                now,
            ),
    {
        let ghost before = self@;
        proof {
            reveal(located);
            assert(self@.sessions[at as int] == self.sessions@[at as int]@);
        }
        let epoch = self.sessions[at].epoch;
        let parsed = parse_navigation_result(
            pending.request.operation,
            raw,
            parts,
            &mut self.sessions[at].budget,
            &mut self.global,
        );
        match parsed {
            Err(fault) => {
                proof {
                    assert(self@.sessions =~= before.sessions);
                    assert(self@ == before);
                }
                let words = parts.explain(pending.request.operation, raw, fault);
                self.reject_answer(
                    at,
                    pending,
                    words.as_str(),
                    "invalid language server navigation result",
                );
            },
            Ok(locations) => {
                proof {
                    let charge = total_charge(crate::locations::location_entries(locations@));
                    assert(self@.sessions =~= charged_at(before, at as int, charge).sessions);
                    assert(self@ == charged_at(before, at as int, charge));
                    assert(session_keys(self@.sessions) =~= session_keys(before.sessions));
                }
                self.mark_healthy(at, now);
                self.complete_request_with_permit(
                    &pending.request,
                    NavigationProtocolResult::Locations(locations),
                    Some(epoch),
                    None,
                );
            },
        }
    }

    /// A request of the user is answered.
    fn finish_navigation(
        &mut self,
        at: usize,
        pending: PendingUserRequest,
        error: &Option<String>,
        raw: &str,
        parts: &FrameParts,
        now: u64,
    )
        requires
            old(self).well_formed(),
            at < old(self).sessions@.len(),
            pending.well_formed(),
        ensures
            final(self).well_formed(),
            final(self)@ == answered(
                old(self)@,
                at as int,
                pending,
                words_option(*error),
                raw@,
                *parts,
                now,
            ),
    {
        assert(self@.sessions[at as int] == self.sessions@[at as int]@);
        let epoch = self.sessions[at].epoch;
        if error.is_some() {
            self.finish_error(at, &pending, &parts.error_message, now);
        } else if pending.request.operation == NavigationOperation::DocumentSymbols {
            self.finish_symbols(at, &pending, raw, &parts.symbols, now);
        } else {
            self.finish_locations(at, &pending, raw, &parts.locations, now);
        }
        self.release(Some(epoch), pending.document.permit);
    }
}

impl NavigationManager {
    /// A server said whether it is ready.
    #[verifier::rlimit(60)]
    fn finish_initialize(
        &mut self,
        at: usize,
        error: &Option<String>,
        raw: &str,
        parts: &FrameParts,
        now: u64,
    )
        requires
            old(self).well_formed(),
            at < old(self).sessions@.len(),
        ensures
            final(self).well_formed(),
            final(self)@ == initialized_at(
                old(self)@,
                at as int,
                words_option(*error),
                raw@,
                *parts,
                now,
            ),
    {
        let ghost before = self@;
        let ghost session = self@.sessions[at as int];
        proof {
            reveal(initialized_at);
            assert(session == self.sessions@[at as int]@);
        }
        if error.is_some() {
            let mut words = copy_text("language server initialization failed: ");
            let message = self.start_error(at, &parts.error_message);
            words.push_str(message.as_str());
            self.fail_at(at, words);
            return;
        }
        let capabilities = match parse_initialize_capabilities(
            raw,
            &parts.capabilities_object,
            &parts.capabilities,
        ) {
            Err(words) => {
                self.fail_at(at, words);
                return;
            },
            Ok(capabilities) => capabilities,
        };
        self.sessions[at].state = ServerState::Ready { capabilities };
        self.sessions[at].ready_since = Some(now);
        let ghost ready = ManagerRecord {
            sessions: before.sessions.update(
                at as int,
                SessionRecord {
                    state: StateRecord::Ready { capabilities },
                    ready_since: Some(now),
                    ..session
                },
            ),
            ..before
        };
        proof {
            assert(self@.sessions =~= ready.sessions);
            assert(self@ == ready);
            assert(session_keys(ready.sessions) =~= session_keys(before.sessions));
            assert(ready.sessions[at as int] == self.sessions@[at as int]@);
        }
        let body = initialized_body();
        let ghost outcome = said(talk_at(ready, at as int), initialized_text());
        proof {
            lemma_said_keeps(talk_at(ready, at as int), initialized_text());
        }
        let sent = self.sessions[at].send_body(&mut self.global, body.as_str());
        match sent {
            Err(error) => {
                proof {
                    assert(self@.sessions =~= ready.sessions);
                    assert(self@ == ready);
                }
                let mut words = copy_text("cannot finish language server initialization: ");
                words.push_str(error.message());
                self.fail_at(at, words);
            },
            Ok(()) => {
                let ghost told = with_talk(ready, at as int, outcome->Ok_0);
                proof {
                    assert(self@.sessions =~= told.sessions);
                    assert(self@ == told);
                    assert(session_keys(told.sessions) =~= session_keys(ready.sessions));
                    assert(told.sessions[at as int] == self.sessions@[at as int]@);
                }
                let deferred = self.sessions[at].deferred.take();
                if let Some(pending) = deferred {
                    proof {
                        let next = ManagerRecord {
                            sessions: told.sessions.update(
                                at as int,
                                SessionRecord { deferred: None, ..told.sessions[at as int] },
                            ),
                            ..told
                        };
                        assert(self@.sessions =~= next.sessions);
                        assert(self@ == next);
                        assert(session_keys(next.sessions) =~= session_keys(told.sessions));
                        assert(next.sessions[at as int].ready() is Some);
                    }
                    self.dispatch_or_revalidate(at, pending, now);
                } else {
                    proof {
                        assert(self@.sessions =~= told.sessions);
                        assert(self@ == told);
                    }
                }
            },
        }
    }

    /// The message of an error that ends an initialization.
    fn start_error(&mut self, at: usize, message: &Result<String, String>) -> (words: String)
        requires
            old(self).well_formed(),
            at < old(self).sessions@.len(),
        ensures
            final(self).well_formed(),
            final(self)@ == old(self)@,
            final(self).sessions@.len() == old(self).sessions@.len(),
            words@ == (match told_error(
                *message,
                &old(self)@.sessions[at as int].budget,
                &old(self)@.global,
            ) {
                Ok((_, words)) => words,
                Err(_) => "invalid bounded error message"@,
            }),
    {
        let ghost before = self@;
        assert(before.sessions[at as int] == self.sessions@[at as int]@);
        let token = match message {
            Err(_) => {
                return copy_text("invalid bounded error message");
            },
            Ok(token) => token,
        };
        let ghost budget = before.sessions[at as int].budget;
        let parsed = parse_protocol_error(
            token.as_str(),
            &mut self.sessions[at].budget,
            &mut self.global,
        );
        match parsed {
            Err(_) => {
                assert(self@.sessions =~= before.sessions);
                assert(session_keys(self@.sessions) =~= session_keys(before.sessions));
                copy_text("invalid bounded error message")
            },
            Ok((words, permit)) => {
                proof {
                    lemma_error_fits(token@, budget, before.global);
                    law_handing_back_undoes_a_reservation(
                        budget,
                        before.global,
                        permit.bytes as int,
                    );
                }
                self.sessions[at].budget.release(&mut self.global, permit);
                assert(self@.sessions =~= before.sessions);
                assert(session_keys(self@.sessions) =~= session_keys(before.sessions));
                words
            },
        }
    }

    /// A server asked for something.
    #[verifier::rlimit(60)]
    fn handle_server_call(
        &mut self,
        at: usize,
        id: &Option<RpcId>,
        method: &str,
        params: &Option<String>,
        call: &CallParams,
    )
        requires
            old(self).well_formed(),
            at < old(self).sessions@.len(),
        ensures
            final(self).well_formed(),
            final(self)@ == called_at(
                old(self)@,
                at as int,
                *id,
                method@,
                words_option(*params),
                *call,
            ),
    {
        let ghost before = self@;
        proof {
            reveal(called_at);
            assert(before.sessions[at as int] == self.sessions@[at as int]@);
        }
        let id = match id {
            None => {
                return;
            },
            Some(id) => id,
        };
        let raw: Option<&str> = match params {
            None => None,
            Some(words) => Some(words.as_str()),
        };
        let outcome = server_call_result(method, raw, call, &self.sessions[at].root_uri);
        let body = response_body(id, &outcome);
        let ghost talk = said(talk_at(before, at as int), body@);
        proof {
            lemma_said_keeps(talk_at(before, at as int), body@);
        }
        let sent = self.sessions[at].send_body(&mut self.global, body.as_str());
        match sent {
            Ok(()) => {
                proof {
                    let told = with_talk(before, at as int, talk->Ok_0);
                    assert(self@.sessions =~= told.sessions);
                    assert(self@ == told);
                    assert(session_keys(told.sessions) =~= session_keys(before.sessions));
                }
            },
            Err(error) => {
                proof {
                    assert(self@.sessions =~= before.sessions);
                    assert(self@ == before);
                }
                let mut words = copy_text("cannot answer language server request: ");
                words.push_str(error.message());
                self.fail_at(at, words);
            },
        }
    }

    /// An answer came.
    #[verifier::rlimit(60)]
    fn handle_response(&mut self, at: usize, envelope: &Envelope, parts: &FrameParts, now: u64)
        requires
            old(self).well_formed(),
            at < old(self).sessions@.len(),
        ensures
            final(self).well_formed(),
            final(self)@ == responded(old(self)@, at as int, *envelope, *parts, now),
    {
        let ghost before = self@;
        let ghost session = self@.sessions[at as int];
        proof {
            reveal(responded);
            assert(session == self.sessions@[at as int]@);
        }
        let id = match &envelope.id {
            None => {
                self.fail_at(at, copy_text("JSON-RPC response is missing its id"));
                return;
            },
            Some(id) => id,
        };
        if envelope.result.is_some() == envelope.error.is_some() {
            self.fail_at(
                at,
                copy_text("JSON-RPC response must contain exactly one of result or error"),
            );
            return;
        }
        if self.sessions[at].retired.take(id) {
            proof {
                let next = before.sessions.update(
                    at as int,
                    SessionRecord { retired: without(session.retired, id@), ..session },
                );
                assert(self@.sessions =~= next);
                assert(session_keys(self@.sessions) =~= session_keys(before.sessions));
            }
            return;
        }
        proof {
            lemma_without(session.retired, id@);
            assert(self@.sessions =~= before.sessions);
            assert(self@ == before);
            assert(session == self.sessions@[at as int]@);
        }
        let number: i32 = match id {
            RpcId::Signed(number) => *number,
            RpcId::String(_) => {
                self.fail_at(at, copy_text("unmatched JSON-RPC response id"));
                return;
            },
        };
        let ghost place = pending_place(session.pending, number, 0);
        proof {
            lemma_pending_place(session.pending, number, 0);
        }
        let entry = self.sessions[at].take_pending(number);
        let request = match entry {
            None => {
                proof {
                    assert(self@.sessions =~= before.sessions);
                    assert(self@ == before);
                }
                self.fail_at(at, copy_text("unmatched JSON-RPC response id"));
                return;
            },
            Some(request) => request,
        };
        proof {
            let taken = before.sessions.update(
                at as int,
                SessionRecord { pending: session.pending.remove(place->0), ..session },
            );
            assert(self@.sessions =~= taken);
            assert(session_keys(self@.sessions) =~= session_keys(before.sessions));
            assert(session.pending[place->0].request.well_formed());
        }
        let raw = match &envelope.result {
            Some(words) => copy_text(words.as_str()),
            None => {
                let empty = String::new();
                assert(empty@ =~= Seq::<char>::empty());
                empty
            },
        };
        match request {
            PendingRequest::Initialize { .. } => {
                self.finish_initialize(at, &envelope.error, raw.as_str(), parts, now);
            },
            PendingRequest::Navigation { pending, .. } => {
                self.finish_navigation(at, pending, &envelope.error, raw.as_str(), parts, now);
            },
        }
    }

    /// A message came.
    fn handle_envelope(&mut self, at: usize, parts: &FrameParts, now: u64)
        requires
            old(self).well_formed(),
            at < old(self).sessions@.len(),
        ensures
            final(self).well_formed(),
            final(self)@ == enveloped(old(self)@, at as int, *parts, now),
    {
        let envelope = match &parts.envelope {
            None => {
                self.fail_at(at, copy_text("invalid JSON-RPC envelope"));
                return;
            },
            Some(envelope) => envelope,
        };
        if !text_equal(envelope.jsonrpc.as_str(), "2.0") {
            self.fail_at(at, copy_text("invalid JSON-RPC envelope"));
            return;
        }
        match &envelope.method {
            Some(method) => {
                if envelope.result.is_some() || envelope.error.is_some() {
                    self.fail_at(
                        at,
                        copy_text("invalid JSON-RPC message contains method and response fields"),
                    );
                    return;
                }
                self.handle_server_call(
                    at,
                    &envelope.id,
                    method.as_str(),
                    &envelope.params,
                    &parts.call,
                );
            },
            None => {
                self.handle_response(at, envelope, parts, now);
            },
        }
    }

    /// Looks at the oldest frame of a session. `parts` is what was read out of it.
    #[verifier::rlimit(60)]
    pub fn handle_frame(&mut self, key: &SessionKey, parts: &FrameParts, now: u64)
        requires
            old(self).well_formed(),
        ensures
            final(self).well_formed(),
            match place_of(old(self)@.sessions, key@, 0) {
                None => final(self)@ == old(self)@,
                Some(at) => final(self)@ == (if old(self)@.sessions[at].inbox.len() == 0 {
                    old(self)@
                } else {
                    framed(old(self)@, at, *parts, now)
                }),
            },
    {
        let at = match self.find_session(key) {
            None => {
                return;
            },
            Some(at) => at,
        };
        let ghost before = self@;
        let ghost session = self@.sessions[at as int];
        assert(session == self.sessions@[at as int]@);
        if self.sessions[at].inbox.len() == 0 {
            return;
        }
        let epoch = self.sessions[at].epoch;
        let frame = self.sessions[at].inbox.remove(0);
        let ghost taken = ManagerRecord {
            sessions: before.sessions.update(
                at as int,
                SessionRecord { inbox: session.inbox.remove(0), ..session },
            ),
            ..before
        };
        proof {
            assert(frame_records(self.sessions@[at as int].inbox@) =~= session.inbox.remove(0));
            assert(session.inbox[0] == frame_record(frame));
            assert(self@.sessions =~= taken.sessions);
            assert(self@ == taken);
            assert(session_keys(taken.sessions) =~= session_keys(before.sessions));
            assert(taken.sessions[at as int] == self.sessions@[at as int]@);
        }
        if let Err(limit) = json_preflight(frame.as_slice()) {
            let mut words = copy_text("malformed language server JSON: ");
            words.push_str(limit.message());
            self.fail_at(at, words);
            self.release(Some(epoch), frame.permit);
            return;
        }
        let length: usize = frame.len();
        let reserved = self.sessions[at].budget.reserve(&mut self.global, length);
        let scratch = match reserved {
            Err(_) => {
                proof {
                    assert(self@.sessions =~= taken.sessions);
                    assert(self@ == taken);
                }
                self.fail_at(
                    at,
                    copy_text("language server response exceeded the navigation payload budget"),
                );
                self.release(Some(epoch), frame.permit);
                return;
            },
            Ok(scratch) => scratch,
        };
        proof {
            let charged = charged_at(taken, at as int, length as int);
            assert(self@.sessions =~= charged.sessions);
            assert(self@ == charged);
            assert(session_keys(charged.sessions) =~= session_keys(taken.sessions));
        }
        self.handle_envelope(at, parts, now);
        self.release(Some(epoch), frame.permit);
        self.release(Some(epoch), scratch);
    }
}

/// What sending a message leaves alone.
proof fn lemma_said_keeps(talk: Talk, body: Seq<char>)
    ensures
        said(talk, body) matches Ok(after) ==> after.session.key == talk.session.key
            && after.session.epoch == talk.session.epoch && after.session.state
            == talk.session.state && after.session.deferred == talk.session.deferred,
{
    reveal(said);
}

proof fn lemma_error_fits(token: Seq<char>, budget: PayloadBudget, global: GlobalPayloadBudget)
    ensures
        error_message(token, &budget, &global) matches Ok((charge, _)) ==> budget.refusal(
            &global,
            charge,
        ) is None,
{
}

// Threads ---------------------------------------------------------------------------------

/// What the threads of a session say.
#[derive(Debug)]
pub enum SessionControlEvent {
    ReaderFailed(String),
    ReaderEof,
    WriterFailed(String),
    StderrFailed(String),
}

/// What is found when the threads of a session are asked.
#[derive(Debug)]
pub enum ControlPoll {
    Quiet,
    Event(SessionControlEvent),
    /// Nobody is left to say anything.
    Stopped,
}

/// What is wrong with a session by what its threads say.
pub open spec fn control_fault(poll: ControlPoll) -> Option<Seq<char>> {
    match poll {
        ControlPoll::Quiet => None,
        ControlPoll::Stopped => Some("language server I/O control channel stopped"@),
        ControlPoll::Event(event) => Some(
            match event {
                SessionControlEvent::ReaderFailed(words) => words@,
                SessionControlEvent::WriterFailed(words) => words@,
                SessionControlEvent::StderrFailed(words) => words@,
                SessionControlEvent::ReaderEof => "language server stopped unexpectedly"@,
            },
        ),
    }
}

pub fn control_error(poll: ControlPoll) -> (fault: Option<String>)
    ensures
        match control_fault(poll) {
            None => fault is None,
            Some(words) => fault matches Some(found) && found@ == words,
        },
{
    match poll {
        ControlPoll::Quiet => None,
        ControlPoll::Stopped => Some(copy_text("language server I/O control channel stopped")),
        ControlPoll::Event(SessionControlEvent::ReaderFailed(words)) => Some(words),
        ControlPoll::Event(SessionControlEvent::WriterFailed(words)) => Some(words),
        ControlPoll::Event(SessionControlEvent::StderrFailed(words)) => Some(words),
        ControlPoll::Event(SessionControlEvent::ReaderEof) => Some(
            copy_text("language server stopped unexpectedly"),
        ),
    }
}

/// The threads that are done after events, and what is wrong with the events.
pub open spec fn lifecycle(epoch: SessionEpoch, done: IoThreads, events: Seq<IoThreadDone>) -> (
    IoThreads,
    Option<LifecycleError>,
)
    decreases events.len(),
{
    if events.len() == 0 {
        (done, None)
    } else {
        let (before, fault) = lifecycle(epoch, done, events.drop_last());
        let event = events.last();
        if fault is Some {
            (before, fault)
        } else if event.session_epoch != epoch.0 {
            (before, Some(LifecycleError::EpochMismatch))
        } else if before.holds(event.kind) {
            (before, Some(LifecycleError::CompletedTwice))
        } else {
            (before.with(event.kind), None)
        }
    }
}

proof fn lemma_fault_spreads(epoch: SessionEpoch, done: IoThreads, events: Seq<IoThreadDone>, upto: int)
    requires
        0 <= upto <= events.len(),
        lifecycle(epoch, done, events.subrange(0, upto)).1 is Some,
    ensures
        lifecycle(epoch, done, events) == lifecycle(epoch, done, events.subrange(0, upto)),
    decreases events.len() - upto,
{
    if upto == events.len() {
        assert(events.subrange(0, upto) =~= events);
    } else {
        assert(events.subrange(0, upto + 1).drop_last() =~= events.subrange(0, upto));
        lemma_fault_spreads(epoch, done, events, upto + 1);
    }
}

/// What a look at the threads of a session comes to. A fault in what they did goes
/// before what they say.
pub open spec fn polled(
    manager: ManagerRecord,
    at: int,
    events: Seq<IoThreadDone>,
    control: ControlPoll,
) -> (ManagerRecord, Option<Seq<char>>) {
    let session = manager.sessions[at];
    let (done, fault) = lifecycle(session.epoch, session.io_done, events);
    let noted = ManagerRecord {
        sessions: manager.sessions.update(at, SessionRecord { io_done: done, ..session }),
        ..manager
    };
    match fault {
        Some(error) => (noted, Some(error.text())),
        None => (noted, control_fault(control)),
    }
}

impl LspSession {
    /// Takes note of the threads that are done.
    pub(crate) fn note_done(&mut self, events: &Vec<IoThreadDone>) -> (fault: Option<LifecycleError>)
        requires
            old(self).well_formed(),
        ensures
            final(self).well_formed(),
            ({
                let (done, error) = lifecycle(old(self).epoch, old(self).io_done, events@);
                &&& fault == error
                &&& final(self)@ == (SessionRecord { io_done: done, ..old(self)@ })
            }),
    {
        let epoch = self.epoch;
        let ghost first = self.io_done;
        let mut index: usize = 0;
        assert(events@.subrange(0, 0) =~= Seq::<IoThreadDone>::empty());
        while index < events.len()
            invariant
                index <= events@.len(),
                self.well_formed(),
                epoch == old(self).epoch,
                first == old(self).io_done,
                self@ == (SessionRecord { io_done: self.io_done, ..old(self)@ }),
                lifecycle(epoch, first, events@.subrange(0, index as int)) == (
                    self.io_done,
                    None::<LifecycleError>,
                ),
            decreases events@.len() - index,
        {
            assert(events@.subrange(0, index + 1).drop_last() =~= events@.subrange(
                0,
                index as int,
            ));
            if let Err(error) = record_io_done(epoch, &mut self.io_done, events[index]) {
                proof {
                    lemma_fault_spreads(epoch, first, events@, index + 1);
                }
                return Some(error);
            }
            index = index + 1;
        }
        assert(events@.subrange(0, events@.len() as int) =~= events@);
        None
    }
}

impl NavigationManager {
    /// Looks at the threads of a session, and says what is wrong with it. A session
    /// with which something is wrong has to fail.
    pub fn poll_session(
        &mut self,
        key: &SessionKey,
        events: &Vec<IoThreadDone>,
        control: ControlPoll,
    ) -> (fault: Option<String>)
        requires
            old(self).well_formed(),
        ensures
            final(self).well_formed(),
            match place_of(old(self)@.sessions, key@, 0) {
                None => fault is None && final(self)@ == old(self)@,
                Some(at) => {
                    let (after, words) = polled(old(self)@, at, events@, control);
                    &&& final(self)@ == after
                    &&& match words {
                        None => fault is None,
                        Some(expected) => fault matches Some(found) && found@ == expected,
                    }
                },
            },
    {
        let at = match self.find_session(key) {
            None => {
                return None;
            },
            Some(at) => at,
        };
        let ghost before = self@;
        assert(before.sessions[at as int] == self.sessions@[at as int]@);
        let wrong = self.sessions[at].note_done(events);
        proof {
            let (after, _) = polled(before, at as int, events@, control);
            assert(self@.sessions =~= after.sessions);
            assert(self@ == after);
            assert(session_keys(self@.sessions) =~= session_keys(before.sessions));
        }
        if let Some(error) = wrong {
            return Some(copy_text(error.message()));
        }
        control_error(control)
    }
}

/// What is wrong with a session by its frames: nothing is left of them, and nobody is
/// left to bring more.
pub open spec fn frames_fault(manager: ManagerRecord, key: crate::session::KeyRecord, stopped: bool) -> Option<
    Seq<char>,
> {
    match place_of(manager.sessions, key, 0) {
        Some(at) => if stopped && manager.sessions[at].inbox.len() == 0 {
            Some("language server frame channel stopped"@)
        } else {
            None
        },
        None => None,
    }
}

impl NavigationManager {
    /// Looks at the frames of a session, once its reader stopped or not.
    pub fn poll_frames(&self, key: &SessionKey, stopped: bool) -> (fault: Option<String>)
        ensures
            match frames_fault(self@, key@, stopped) {
                None => fault is None,
                Some(words) => fault matches Some(found) && found@ == words,
            },
    {
        match self.find_session(key) {
            None => None,
            Some(at) => {
                assert(self@.sessions[at as int] == self.sessions@[at as int]@);
                if stopped && self.sessions[at].inbox.len() == 0 {
                    Some(copy_text("language server frame channel stopped"))
                } else {
                    None
                }
            },
        }
    }
}

} // verus!
