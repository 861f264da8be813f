//! Who serves a request, and how it is sent.

use crate::bytes::to_vec;
use crate::completions::{NavigationProtocolResult, ResultRecord};
use crate::disk::{
    disk_deadline, DiskSnapshotJob, DiskSnapshotResult, JobRecord, LaneError, LaneRecord,
};
use crate::document::{
    share, DocumentError, NavigationDocument, NavigationSource, MAX_DOCUMENT_CHARGE,
};
use crate::failures::{with_failure, BookRecord};
use crate::manager::{
    apart, distinct, failed_at, failed_keys, lemma_place_of, lemma_released_keys,
    lemma_told_keys, place_of, released, session_keys, told, waiting_records, FailedRecord,
    ManagerRecord, NavigationCleanupSnapshot, NavigationManager, WaitingRecord, WaitingRequest,
};
use crate::paths::{file_name, path_file_name, PathStyle};
use crate::payload::{GlobalPayloadBudget, PayloadPermit};
use crate::protocol::{clean_protocol_message, cleaned};
use crate::rpc::SessionEpoch;
use crate::session::{
    dispatched, fresh_session, later, root_parts, said, started, DispatchOutcome, DispatchVerdict,
    KeyRecord, LspSession, NavigationRuntimeRequest, PendingUserRequest, ServerState, SessionKey,
    SessionRecord, Talk, NAVIGATION_REQUEST_TIMEOUT,
};
use crate::targets::{path_to_lsp_uri, path_uri, uri_words};
use crate::text::{copy_text, utf8_text};
use vstd::prelude::*;
use vstd::utf8::{decode_utf8, valid_utf8};

verus! {

/// A manager whose session at a place said something.
pub open spec fn with_talk(manager: ManagerRecord, at: int, talk: Talk) -> ManagerRecord {
    ManagerRecord {
        sessions: manager.sessions.update(at, talk.session),
        global: talk.global,
        ..manager
    }
}

/// The session at a place, and what all sessions share.
pub open spec fn talk_at(manager: ManagerRecord, at: int) -> Talk {
    Talk { session: manager.sessions[at], global: manager.global }
}

/// The session at a place sends a request. A session that breaks over it fails.
#[verifier::opaque]
pub open spec fn dispatched_at(
    manager: ManagerRecord,
    at: int,
    pending: PendingUserRequest,
    now: u64,
) -> ManagerRecord {
    let (talk, verdict) = dispatched(talk_at(manager, at), pending, now);
    let after = with_talk(manager, at, talk);
    match verdict {
        DispatchVerdict::Sent => after,
        DispatchVerdict::Unavailable(words) => told(
            after,
            pending.request,
            ResultRecord::Unavailable(words),
        ),
        DispatchVerdict::Failed(words) => told(
            after,
            pending.request,
            ResultRecord::Failed(words),
        ),
        DispatchVerdict::Broken(words, error) => failed_at(
            told(after, pending.request, ResultRecord::Failed(words)),
            at,
            error,
        ),
    }
}

/// A request is left without an answer, because one with its number took its place.
pub open spec fn replaced_waiting(manager: ManagerRecord, generation: u64) -> ManagerRecord {
    match waiting_place(manager.waiting, generation, 0) {
        None => manager,
        Some(at) => released(
            ManagerRecord { waiting: manager.waiting.remove(at), ..manager },
            epoch_of(manager.sessions, manager.waiting[at].key),
            manager.waiting[at].pending.document.permit.bytes as int,
        ),
    }
}

/// The epoch of the session of a key.
pub open spec fn epoch_of(sessions: Seq<SessionRecord>, key: KeyRecord) -> Option<SessionEpoch> {
    match place_of(sessions, key, 0) {
        None => None,
        Some(at) => Some(sessions[at].epoch),
    }
}

/// Where a request of a generation waits.
pub open spec fn waiting_place(waiting: Seq<WaitingRecord>, generation: u64, from: int) -> Option<int>
    decreases waiting.len() - from,
{
    if from < 0 || from >= waiting.len() {
        None
    } else if waiting[from].pending.request.generation == generation {
        Some(from)
    } else {
        waiting_place(waiting, generation, from + 1)
    }
}

/// A request whose source must be on disk waits for the comparison; any other is sent.
#[verifier::opaque]
pub open spec fn revalidated_at(
    manager: ManagerRecord,
    at: int,
    pending: PendingUserRequest,
    now: u64,
) -> ManagerRecord {
    let session = manager.sessions[at];
    let given_up = |words: Seq<char>|
        released(
            told(manager, pending.request, ResultRecord::Failed(words)),
            Some(session.epoch),
            pending.document.permit.bytes as int,
        );
    match session.ready() {
        None => manager,
        Some(capabilities) => if !capabilities.text_document_sync.reads_disk() {
            dispatched_at(manager, at, pending, now)
        } else {
            match manager.lane {
                None => given_up(LaneError::Unavailable.text()),
                Some(lane) => if lane.wedged {
                    given_up(LaneError::Unavailable.text())
                } else if lane.queued is Some {
                    given_up(LaneError::Full.text())
                } else {
                    let submitted = ManagerRecord {
                        lane: Some(
                            LaneRecord {
                                queued: Some(
                                    JobRecord {
                                        generation: pending.request.generation,
                                        root: pending.document.source.content_root@,
                                        source: *pending.document.source,
                                        deadline: disk_deadline(
                                            now,
                                            later(now, NAVIGATION_REQUEST_TIMEOUT),
                                        ) as u64,
                                    },
                                ),
                                ..lane
                            },
                        ),
                        ..manager
                    };
                    let freed = replaced_waiting(submitted, pending.request.generation);
                    ManagerRecord {
                        waiting: freed.waiting.push(WaitingRecord { key: session.key, pending }),
                        ..freed
                    }
                },
            }
        },
    }
}

/// What a request is told at once, or what has to be done for it.
pub enum GateRecord {
    Answer(ResultRecord),
    /// A server has to be started.
    Spawn(KeyRecord),
    /// The session at this place serves it.
    Serve(int),
}

/// A session failed and is not cleaned up yet.
pub open spec fn failure_of(failed: Seq<FailedRecord>, key: KeyRecord, from: int) -> Option<Seq<char>>
    decreases failed.len() - from,
{
    if from < 0 || from >= failed.len() {
        None
    } else if failed[from].session.key == key {
        Some(failed[from].error)
    } else {
        failure_of(failed, key, from + 1)
    }
}

/// Who serves a request.
#[verifier::opaque]
pub open spec fn gate(manager: ManagerRecord, source: NavigationSource, now: u64) -> GateRecord {
    match source.language.family {
        None => GateRecord::Answer(
            ResultRecord::Unavailable("No semantic language server for this file type."@),
        ),
        Some(family) => if manager.settings.of(family) is None {
            GateRecord::Answer(
                ResultRecord::Unavailable(
                    "No configured "@ + family.name_text() + " language server."@,
                ),
            )
        } else {
            let key = KeyRecord { root: root_parts(manager.style, source.server_root@), family };
            if manager.book.permanent.contains_key(key) {
                GateRecord::Answer(
                    ResultRecord::Failed(
                        "Language server is disabled after repeated failures: "@
                            + manager.book.permanent[key],
                    ),
                )
            } else if manager.quarantined.len() + manager.spawns.len() != 0 {
                GateRecord::Answer(
                    ResultRecord::Failed(
                        "Language server navigation is unavailable because a process owner is quarantined."@,
                    ),
                )
            } else {
                match failure_of(manager.failed, key, 0) {
                    Some(error) => GateRecord::Answer(
                        ResultRecord::Failed(
                            "Language server is restarting after failure: "@ + cleaned(error),
                        ),
                    ),
                    None => if manager.book.backoffs.contains_key(key) && now
                        < manager.book.backoffs[key].retry_at {
                        GateRecord::Answer(
                            ResultRecord::Failed(
                                "Language server is restarting after failure: "@
                                    + manager.book.backoffs[key].error,
                            ),
                        )
                    } else {
                        match place_of(manager.sessions, key, 0) {
                            Some(at) => GateRecord::Serve(at),
                            None => GateRecord::Spawn(key),
                        }
                    },
                }
            }
        },
    }
}

/// The session at a place serves a request: it sends it, or keeps it until its
/// server is ready. Of the requests that are kept only the last stays.
#[verifier::opaque]
pub open spec fn served(
    manager: ManagerRecord,
    at: int,
    request: NavigationRuntimeRequest,
    now: u64,
) -> ManagerRecord {
    let session = manager.sessions[at];
    let charge = request.source.charge();
    if charge > MAX_DOCUMENT_CHARGE {
        told(manager, request, ResultRecord::Failed(DocumentError::TooLarge.text()))
    } else {
        match session.budget.refusal(&manager.global, charge) {
            Some(refusal) => told(
                manager,
                request,
                ResultRecord::Failed(DocumentError::Payload(refusal).text()),
            ),
            None => {
                let pending = PendingUserRequest {
                    request,
                    document: NavigationDocument {
                        source: request.source,
                        version: request.version,
                        permit: PayloadPermit { bytes: charge as usize },
                    },
                };
                let charged = with_talk(
                    manager,
                    at,
                    Talk {
                        session: SessionRecord { budget: session.budget.with(charge), ..session },
                        global: manager.global.with(charge),
                    },
                );
                if session.ready() is Some {
                    revalidated_at(charged, at, pending, now)
                } else {
                    let kept = ManagerRecord {
                        sessions: charged.sessions.update(
                            at,
                            SessionRecord { deferred: Some(pending), ..charged.sessions[at] },
                        ),
                        ..charged
                    };
                    match session.deferred {
                        None => kept,
                        Some(replaced) => released(
                            told(kept, replaced.request, ResultRecord::Cancelled),
                            Some(session.epoch),
                            replaced.document.permit.bytes as int,
                        ),
                    }
                }
            },
        }
    }
}

/// What has to be done for a request.
#[derive(Debug)]
pub enum RequestStep {
    Done,
    /// The server of this key has to be started for it.
    Spawn(SessionKey, NavigationRuntimeRequest),
}

enum Gate {
    Answer(NavigationProtocolResult),
    Spawn(SessionKey),
    Serve(usize),
}

/// What a request for which a server was started in this root comes to.
pub open spec fn spawned(
    manager: ManagerRecord,
    key: KeyRecord,
    root: Seq<u8>,
    request: NavigationRuntimeRequest,
    process_id: nat,
    now: u64,
) -> ManagerRecord {
    let root_uri = path_uri(manager.style, root);
    let folder = folder_text(manager.style, root);
    let epoch = SessionEpoch(manager.next_epoch);
    let numbered = ManagerRecord { next_epoch: later(manager.next_epoch, 1), ..manager };
    match started(fresh_session(key, root_uri, epoch, now), manager.global, process_id, folder, now) {
        Err(error) => told(
            ManagerRecord { book: with_failure(numbered.book, key, error.text(), now), ..numbered },
            request,
            ResultRecord::Failed(error.text()),
        ),
        Ok(talk) => served(
            ManagerRecord {
                sessions: numbered.sessions.push(talk.session),
                global: talk.global,
                ..numbered
            },
            manager.sessions.len() as int,
            request,
            now,
        ),
    }
}

/// A count as far as it can be told.
pub open spec fn capped(count: nat) -> usize {
    if count <= usize::MAX {
        count as usize
    } else {
        usize::MAX
    }
}

/// What a request for which a server could not be started comes to.
pub open spec fn not_spawned(
    manager: ManagerRecord,
    key: KeyRecord,
    request: NavigationRuntimeRequest,
    message: Seq<char>,
    retained: bool,
    now: u64,
) -> ManagerRecord {
    let noted = if retained {
        ManagerRecord {
            book: BookRecord {
                permanent: manager.book.permanent.insert(key, message),
                ..manager.book
            },
            spawns: manager.spawns.push(key),
            stats: NavigationCleanupSnapshot {
                quarantined_process_owners: capped(
                    manager.quarantined.len() + manager.spawns.len() + 1,
                ),
                ..manager.stats
            },
            ..manager
        }
    } else {
        ManagerRecord { book: with_failure(manager.book, key, message, now), ..manager }
    };
    told(noted, request, ResultRecord::Failed(message))
}

/// What a request comes to whose server was started and cannot be talked to. The
/// session that did not begin has had its number.
pub open spec fn not_linked(
    manager: ManagerRecord,
    key: KeyRecord,
    request: NavigationRuntimeRequest,
    message: Seq<char>,
    now: u64,
) -> ManagerRecord {
    not_spawned(
        ManagerRecord { next_epoch: later(manager.next_epoch, 1), ..manager },
        key,
        request,
        message,
        false,
        now,
    )
}

impl NavigationManager {
    /// The session at a place sends a request.
    #[verifier::rlimit(60)]
    pub fn dispatch_navigation(&mut self, at: usize, pending: PendingUserRequest, now: u64)
        requires
            old(self).well_formed(),
            at < old(self).sessions@.len(),
            pending.well_formed(),
        ensures
            final(self).well_formed(),
            final(self)@ == dispatched_at(old(self)@, at as int, pending, now),
    {
        let ghost before = self@;
        let ghost asked = pending.request;
        let ghost (talk, verdict) = dispatched(talk_at(before, at as int), pending, now);
        proof {
            reveal(dispatched_at);
            lemma_dispatch_keeps_key(talk_at(before, at as int), pending, now);
        }
        let outcome = self.sessions[at].dispatch(&mut self.global, pending, now);
        proof {
            assert(self@.sessions =~= before.sessions.update(at as int, talk.session));
            assert(self@ == with_talk(before, at as int, talk));
            assert(session_keys(self@.sessions) =~= session_keys(before.sessions));
        }
        match outcome {
            DispatchOutcome::Sent => {},
            DispatchOutcome::Unavailable(request, words) => {
                self.complete_request(&request, NavigationProtocolResult::Unavailable(words));
            },
            DispatchOutcome::Failed(request, words) => {
                self.complete_request(&request, NavigationProtocolResult::Failed(words));
            },
            DispatchOutcome::Broken(request, words, error) => {
                proof {
                    lemma_told_keys(self@, asked, ResultRecord::Failed(words@), None, None);
                }
                self.complete_request(&request, NavigationProtocolResult::Failed(words));
                self.fail_at(at, error);
            },
        }
    }
}

/// Sending a request does not change what a session is for.
proof fn lemma_dispatch_keeps_key(talk: Talk, pending: PendingUserRequest, now: u64)
    ensures
        dispatched(talk, pending, now).0.session.key == talk.session.key,
        dispatched(talk, pending, now).0.session.epoch == talk.session.epoch,
{
    reveal(said);
}

pub proof fn lemma_waiting_place(waiting: Seq<WaitingRecord>, generation: u64, from: int)
    requires
        0 <= from <= waiting.len(),
    ensures
        waiting_place(waiting, generation, from) matches Some(at) ==> from <= at < waiting.len()
            && waiting[at].pending.request.generation == generation,
    decreases waiting.len() - from,
{
    if from < waiting.len() && waiting[from].pending.request.generation != generation {
        lemma_waiting_place(waiting, generation, from + 1);
    }
}

impl NavigationManager {
    pub(crate) fn find_waiting(&self, generation: u64) -> (found: Option<usize>)
        ensures
            match waiting_place(self@.waiting, generation, 0) {
                None => found is None,
                Some(at) => found matches Some(index) && index == at && index
                    < self.disk_waiting@.len(),
            },
    {
        let mut index: usize = 0;
        while index < self.disk_waiting.len()
            invariant
                index <= self.disk_waiting@.len(),
                waiting_place(self@.waiting, generation, 0) == waiting_place(
                    self@.waiting,
                    generation,
                    index as int,
                ),
            decreases self.disk_waiting@.len() - index,
        {
            assert(self@.waiting[index as int] == self.disk_waiting@[index as int]@);
            if self.disk_waiting[index].pending.request.generation == generation {
                return Some(index);
            }
            index = index + 1;
        }
        None
    }

    pub(crate) fn epoch_of(&self, key: &SessionKey) -> (epoch: Option<SessionEpoch>)
        ensures
            epoch == epoch_of(self@.sessions, key@),
    {
        match self.find_session(key) {
            None => None,
            Some(at) => {
                assert(self@.sessions[at as int] == self.sessions@[at as int]@);
                Some(self.sessions[at].epoch)
            },
        }
    }

    /// Takes out the request of a generation that waits.
    pub(crate) fn remove_waiting(&mut self, at: usize) -> (taken: WaitingRequest)
        requires
            old(self).well_formed(),
            at < old(self).disk_waiting@.len(),
        ensures
            final(self).well_formed(),
            taken@ == old(self)@.waiting[at as int],
            taken.pending.well_formed(),
            final(self)@ == (ManagerRecord {
                waiting: old(self)@.waiting.remove(at as int),
                ..old(self)@
            }),
    {
        let ghost before = self.disk_waiting@;
        let ghost shown = self@;
        assert(before[at as int].pending.well_formed());
        let taken = self.disk_waiting.remove(at);
        proof {
            let after = self.disk_waiting@;
            assert forall|i: int| 0 <= i < after.len() implies #[trigger] after[i] == before[if i
                < at {
                i
            } else {
                i + 1
            }] by {}
            assert(waiting_records(after) =~= shown.waiting.remove(at as int));
            assert forall|i: int| 0 <= i < self@.waiting.len() implies session_keys(
                self@.sessions,
            ).contains((#[trigger] self@.waiting[i]).key) by {
                let j = if i < at {
                    i
                } else {
                    i + 1
                };
                assert(self@.waiting[i] == shown.waiting[j]);
            }
        }
        taken
    }

    /// Drops a request that waits, because one with its number takes its place.
    fn replace_waiting(&mut self, generation: u64)
        requires
            old(self).well_formed(),
        ensures
            final(self).well_formed(),
            final(self)@ == replaced_waiting(old(self)@, generation),
    {
        if let Some(at) = self.find_waiting(generation) {
            let epoch = self.epoch_of(&self.disk_waiting[at].key);
            assert(self@.waiting[at as int] == self.disk_waiting@[at as int]@);
            let replaced = self.remove_waiting(at);
            self.release(epoch, replaced.pending.document.permit);
        }
    }

    /// A request that is not served has its result, and its document is handed back.
    fn decline(&mut self, epoch: SessionEpoch, pending: PendingUserRequest, words: &str)
        requires
            old(self).well_formed(),
        ensures
            final(self).well_formed(),
            final(self)@ == released(
                told(old(self)@, pending.request, ResultRecord::Failed(words@)),
                Some(epoch),
                pending.document.permit.bytes as int,
            ),
    {
        self.complete_request(
            &pending.request,
            NavigationProtocolResult::Failed(copy_text(words)),
        );
        self.release(Some(epoch), pending.document.permit);
    }

    /// Sends a request, or has its source compared with the disk first.
    #[verifier::rlimit(60)]
    pub fn dispatch_or_revalidate(&mut self, at: usize, pending: PendingUserRequest, now: u64)
        requires
            old(self).well_formed(),
            at < old(self).sessions@.len(),
            old(self)@.sessions[at as int].ready() is Some,
            pending.well_formed(),
        ensures
            final(self).well_formed(),
            final(self)@ == revalidated_at(old(self)@, at as int, pending, now),
    {
        proof {
            reveal(revalidated_at);
            assert(self@.sessions[at as int] == self.sessions@[at as int]@);
        }
        let reads_disk = match &self.sessions[at].state {
            ServerState::Ready { capabilities } =>
                capabilities.text_document_sync.requires_disk_revalidation(),
            _ => false,
        };
        if !reads_disk {
            self.dispatch_navigation(at, pending, now);
            return;
        }
        let epoch = self.sessions[at].epoch;
        let key = self.sessions[at].key.copy();
        let ghost before = self@;
        let deadline: u64 = now.saturating_add(NAVIGATION_REQUEST_TIMEOUT);
        let generation: u64 = pending.request.generation;
        let job = DiskSnapshotJob::bounded(
            generation,
            to_vec(pending.document.source.content_root.as_slice()),
            share(&pending.document.source),
            now,
            deadline,
        );
        let ghost wanted = job@;
        match self.disk_lane.take() {
            None => {
                assert(self@ == before);
                self.decline(epoch, pending, "File revalidation worker is unavailable.");
            },
            Some(lane) => {
                let mut lane = lane;
                let submitted = lane.try_submit(job);
                self.disk_lane = Some(lane);
                match submitted {
                    Err(error) => {
                        assert(self@ == before);
                        self.decline(epoch, pending, error.message());
                    },
                    Ok(()) => {
                        assert(self@ == (ManagerRecord {
                            lane: Some(
                                LaneRecord { queued: Some(wanted), ..before.lane->0 },
                            ),
                            ..before
                        }));
                        let ghost submitted = self@;
                        self.replace_waiting(generation);
                        proof {
                            lemma_waiting_place(submitted.waiting, generation, 0);
                            if waiting_place(submitted.waiting, generation, 0) is Some {
                                let place = waiting_place(submitted.waiting, generation, 0)->0;
                                lemma_released_keys(
                                    ManagerRecord {
                                        waiting: submitted.waiting.remove(place),
                                        ..submitted
                                    },
                                    epoch_of(submitted.sessions, submitted.waiting[place].key),
                                    submitted.waiting[place].pending.document.permit.bytes as int,
                                );
                            }
                        }
                        let ghost freed = self@;
                        let waiting = WaitingRequest { key, pending };
                        let ghost added = waiting@;
                        self.disk_waiting.push(waiting);
                        proof {
                            assert(self@.waiting =~= freed.waiting.push(added));
                            assert(session_keys(freed.sessions) == session_keys(before.sessions));
                            assert(session_keys(before.sessions)[at as int] == added.key);
                            assert(session_keys(self@.sessions).contains(added.key));
                            assert forall|i: int| 0 <= i < self@.waiting.len() implies session_keys(
                                self@.sessions,
                            ).contains((#[trigger] self@.waiting[i]).key) by {
                                if i < freed.waiting.len() {
                                    assert(self@.waiting[i] == freed.waiting[i]);
                                }
                            }
                        }
                    },
                }
            },
        }
    }

    /// Why a session failed that is not cleaned up yet.
    fn failure(&self, key: &SessionKey) -> (error: Option<&String>)
        ensures
            match failure_of(self@.failed, key@, 0) {
                None => error is None,
                Some(words) => error matches Some(found) && found@ == words,
            },
    {
        let mut index: usize = 0;
        while index < self.failed.len()
            invariant
                index <= self.failed@.len(),
                failure_of(self@.failed, key@, 0) == failure_of(
                    self@.failed,
                    key@,
                    index as int,
                ),
            decreases self.failed@.len() - index,
        {
            assert(self@.failed[index as int] == self.failed@[index as int]@);
            if self.failed[index].session.key.same(key) {
                return Some(&self.failed[index].error);
            }
            index = index + 1;
        }
        None
    }

    fn has_quarantined_owners(&self) -> (yes: bool)
        ensures
            yes == (self@.quarantined.len() + self@.spawns.len() != 0),
    {
        self.quarantined.len() != 0 || self.quarantined_spawns.len() != 0
    }

    /// Who serves a request.
    fn gate(&self, source: &NavigationSource, now: u64) -> (found: Gate)
        ensures
            match gate(self@, *source, now) {
                GateRecord::Answer(result) => found matches Gate::Answer(answer) && answer@
                    == result,
                GateRecord::Spawn(key) => found matches Gate::Spawn(wanted) && wanted@ == key
                    && wanted.server_root@ == source.server_root@ && place_of(self@.sessions, key, 0) is None && failure_of(
                    self@.failed,
                    key,
                    0,
                ) is None && self@.quarantined.len() == 0 && self@.spawns.len() == 0,
                GateRecord::Serve(at) => found matches Gate::Serve(index) && index == at && index
                    < self.sessions@.len(),
            },
    {
        proof {
            reveal(gate);
        }
        let family = match source.language.family {
            None => {
                return Gate::Answer(
                    NavigationProtocolResult::Unavailable(
                        copy_text("No semantic language server for this file type."),
                    ),
                );
            },
            Some(family) => family,
        };
        if self.settings.server(family).is_none() {
            let mut words = copy_text("No configured ");
            words.push_str(family.display_name());
            words.push_str(" language server.");
            return Gate::Answer(NavigationProtocolResult::Unavailable(words));
        }
        let key = SessionKey {
            style: self.style,
            server_root: to_vec(source.server_root.as_slice()),
            family,
        };
        if let Some(error) = self.book.permanent(&key) {
            let mut words = copy_text("Language server is disabled after repeated failures: ");
            words.push_str(error.as_str());
            return Gate::Answer(NavigationProtocolResult::Failed(words));
        }
        if self.has_quarantined_owners() {
            return Gate::Answer(
                NavigationProtocolResult::Failed(
                    copy_text(
                        "Language server navigation is unavailable because a process owner is quarantined.",
                    ),
                ),
            );
        }
        if let Some(error) = self.failure(&key) {
            let shown = clean_protocol_message(error.as_str());
            let mut words = copy_text("Language server is restarting after failure: ");
            words.push_str(shown.as_str());
            return Gate::Answer(NavigationProtocolResult::Failed(words));
        }
        if let Some(backoff) = self.book.backoff(&key) {
            if now < backoff.retry_at {
                let mut words = copy_text("Language server is restarting after failure: ");
                words.push_str(backoff.error.as_str());
                return Gate::Answer(NavigationProtocolResult::Failed(words));
            }
        }
        match self.find_session(&key) {
            Some(at) => Gate::Serve(at),
            None => Gate::Spawn(key),
        }
    }

    /// The session at a place serves a request.
    #[verifier::rlimit(60)]
    fn serve(&mut self, at: usize, request: NavigationRuntimeRequest, now: u64)
        requires
            old(self).well_formed(),
            at < old(self).sessions@.len(),
            request.source.well_formed(),
        ensures
            final(self).well_formed(),
            final(self)@ == served(old(self)@, at as int, request, now),
    {
        proof {
            reveal(served);
            assert(self@.sessions[at as int] == self.sessions@[at as int]@);
        }
        let ghost before = self@;
        let ghost charge = request.source.charge();
        let document = match NavigationDocument::from_source(
            share(&request.source),
            request.version,
            &mut self.sessions[at].budget,
            &mut self.global,
        ) {
            Err(error) => {
                proof {
                    assert(self@.sessions =~= before.sessions);
                    assert(self@ == before);
                }
                self.complete_request(
                    &request,
                    NavigationProtocolResult::Failed(copy_text(error.message())),
                );
                return;
            },
            Ok(document) => document,
        };
        let ghost charged = with_talk(
            before,
            at as int,
            Talk {
                session: SessionRecord {
                    budget: before.sessions[at as int].budget.with(charge),
                    ..before.sessions[at as int]
                },
                global: before.global.with(charge),
            },
        );
        proof {
            assert(self@.sessions =~= charged.sessions);
            assert(self@ == charged);
            assert(session_keys(charged.sessions) =~= session_keys(before.sessions));
        }
        let pending = PendingUserRequest { request, document };
        let ghost kept_request = pending;
        let ready = match &self.sessions[at].state {
            ServerState::Ready { .. } => true,
            _ => false,
        };
        if ready {
            assert(self@.sessions[at as int] == self.sessions@[at as int]@);
            self.dispatch_or_revalidate(at, pending, now);
            return;
        }
        let epoch = self.sessions[at].epoch;
        let mut deferred: Option<PendingUserRequest> = Some(pending);
        std::mem::swap(&mut deferred, &mut self.sessions[at].deferred);
        proof {
            let kept = ManagerRecord {
                sessions: charged.sessions.update(
                    at as int,
                    SessionRecord {
                        deferred: Some(kept_request),
                        ..charged.sessions[at as int]
                    },
                ),
                ..charged
            };
            assert(self@.sessions =~= kept.sessions);
            assert(self@ == kept);
            assert(session_keys(kept.sessions) =~= session_keys(charged.sessions));
        }
        if let Some(replaced) = deferred {
            self.complete_request(&replaced.request, NavigationProtocolResult::Cancelled);
            self.release(Some(epoch), replaced.document.permit);
        }
    }

    /// Serves a request, or says which server has to be started for it.
    pub fn handle_request(&mut self, request: NavigationRuntimeRequest, now: u64) -> (step: RequestStep)
        requires
            old(self).well_formed(),
            request.source.well_formed(),
        ensures
            final(self).well_formed(),
            match gate(old(self)@, *request.source, now) {
                GateRecord::Answer(result) => step is Done && final(self)@ == told(
                    old(self)@,
                    request,
                    result,
                ),
                GateRecord::Spawn(wanted) => {
                    &&& step matches RequestStep::Spawn(key, kept)
                    &&& key@ == wanted
                    &&& key.server_root@ == request.source.server_root@
                    &&& kept == request
                    &&& final(self)@ == old(self)@
                },
                GateRecord::Serve(at) => step is Done && final(self)@ == served(
                    old(self)@,
                    at,
                    request,
                    now,
                ),
            },
    {
        match self.gate(&request.source, now) {
            Gate::Answer(result) => {
                self.complete_request(&request, result);
                RequestStep::Done
            },
            Gate::Spawn(key) => RequestStep::Spawn(key, request),
            Gate::Serve(at) => {
                self.serve(at, request, now);
                RequestStep::Done
            },
        }
    }
}

// Starting servers ------------------------------------------------------------------------

/// The last name of a path, if it is text, or a word for it.
pub open spec fn folder_text(style: PathStyle, root: Seq<u8>) -> Seq<char> {
    match file_name(style, root) {
        Some(name) => if valid_utf8(name) {
            decode_utf8(name)
        } else {
            "workspace"@
        },
        None => "workspace"@,
    }
}

/// What a folder is called.
pub fn folder_name(style: PathStyle, root: &[u8]) -> (name: String)
    ensures
        name@ == folder_text(style, root@),
{
    let last: &[u8] = match path_file_name(style, root) {
        None => {
            return copy_text("workspace");
        },
        Some(last) => last,
    };
    match utf8_text(last) {
        None => copy_text("workspace"),
        Some(words) => {
            proof {
                vstd::utf8::encode_utf8_decode_utf8(words@);
            }
            copy_text(words)
        },
    }
}

/// Nothing has this key: no session, no failure and no process that is left over.
pub open spec fn is_free(manager: ManagerRecord, key: KeyRecord) -> bool {
    &&& !session_keys(manager.sessions).contains(key)
    &&& !failed_keys(manager.failed).contains(key)
    &&& !session_keys(manager.quarantined).contains(key)
    &&& !manager.spawns.contains(key)
}

proof fn lemma_failure_of(failed: Seq<FailedRecord>, key: KeyRecord, from: int)
    requires
        0 <= from <= failed.len(),
    ensures
        failure_of(failed, key, from) is None ==> forall|i: int|
            from <= i < failed.len() ==> (#[trigger] failed[i]).session.key != key,
    decreases failed.len() - from,
{
    if from < failed.len() && failed[from].session.key != key {
        lemma_failure_of(failed, key, from + 1);
        if failure_of(failed, key, from + 1) is None {
            assert forall|i: int| from <= i < failed.len() implies (
            #[trigger] failed[i]).session.key != key by {
                if i > from {
                    assert(from + 1 <= i);
                }
            }
        }
    }
}

/// A server is started only for a key that nothing has.
pub proof fn law_a_server_is_started_once(
    manager: ManagerRecord,
    source: NavigationSource,
    now: u64,
    key: KeyRecord,
)
    requires
        gate(manager, source, now) == GateRecord::Spawn(key),
    ensures
        is_free(manager, key),
{
    reveal(gate);
    lemma_place_of(manager.sessions, key, 0);
    lemma_failure_of(manager.failed, key, 0);
    assert(place_of(manager.sessions, key, 0) is None);
    assert(failure_of(manager.failed, key, 0) is None);
    if session_keys(manager.sessions).contains(key) {
        let i = choose|i: int|
            0 <= i < manager.sessions.len() && session_keys(manager.sessions)[i] == key;
        assert(manager.sessions[i].key == key);
    }
    if failed_keys(manager.failed).contains(key) {
        let i = choose|i: int|
            0 <= i < manager.failed.len() && failed_keys(manager.failed)[i] == key;
        assert(manager.failed[i].session.key == key);
    }
}

proof fn lemma_added_key(keys: Seq<KeyRecord>, key: KeyRecord, others: Seq<KeyRecord>)
    requires
        distinct(keys),
        apart(keys, others),
        !keys.contains(key),
        !others.contains(key),
    ensures
        distinct(keys.push(key)),
        apart(keys.push(key), others),
        apart(others, keys.push(key)),
{
    let more = keys.push(key);
    assert forall|i: int, j: int| 0 <= i < j < more.len() implies #[trigger] more[i]
        != #[trigger] more[j] by {
        assert(more[i] == keys[i]);
        if j < keys.len() {
            assert(more[j] == keys[j]);
        } else {
            assert(keys.contains(keys[i]));
        }
    }
    assert forall|i: int, j: int| 0 <= i < more.len() && 0 <= j < others.len() implies #[trigger] more[i]
        != #[trigger] others[j] by {
        if i < keys.len() {
            assert(more[i] == keys[i]);
        } else {
            assert(others.contains(others[j]));
        }
    }
}

impl NavigationManager {
    /// A server was started for a request: its session begins, and serves it.
    #[verifier::rlimit(60)]
    pub fn spawn_session(
        &mut self,
        key: SessionKey,
        request: NavigationRuntimeRequest,
        process_id: u32,
        now: u64,
    )
        requires
            old(self).well_formed(),
            request.source.well_formed(),
            is_free(old(self)@, key@),
        ensures
            final(self).well_formed(),
            final(self)@ == spawned(
                old(self)@,
                key@,
                key.server_root@,
                request,
                process_id as nat,
                now,
            ),
    {
        let ghost before = self@;
        let folder = folder_name(self.style, key.server_root.as_slice());
        let root_uri = path_to_lsp_uri(self.style, key.server_root.as_slice());
        let ghost named = uri_words(root_uri);
        assert(named == path_uri(before.style, key.server_root@));
        let epoch = SessionEpoch(self.next_epoch);
        self.next_epoch = self.next_epoch.saturating_add(1);
        let ghost wanted = key@;
        let kept = key.copy();
        let session = match LspSession::start(
            key,
            root_uri,
            epoch,
            process_id,
            folder.as_str(),
            now,
            &mut self.global,
        ) {
            Err(error) => {
                self.book.record_failure_at(&kept, error.message(), now);
                self.complete_request(
                    &request,
                    NavigationProtocolResult::Failed(copy_text(error.message())),
                );
                return;
            },
            Ok(session) => session,
        };
        let ghost said_first = session@;
        let at: usize = self.sessions.len();
        proof {
            lemma_started_key(
                fresh_session(wanted, named, epoch, now),
                before.global,
                process_id as nat,
                folder@,
                now,
            );
        }
        self.sessions.push(session);
        proof {
            assert(self@.sessions =~= before.sessions.push(said_first));
            assert(session_keys(self@.sessions) =~= session_keys(before.sessions).push(wanted));
            lemma_added_key(session_keys(before.sessions), wanted, failed_keys(before.failed));
            lemma_added_key(
                session_keys(before.sessions),
                wanted,
                session_keys(before.quarantined),
            );
            lemma_added_key(session_keys(before.sessions), wanted, before.spawns);
            assert forall|i: int| 0 <= i < self@.waiting.len() implies session_keys(
                self@.sessions,
            ).contains((#[trigger] self@.waiting[i]).key) by {
                let key = self@.waiting[i].key;
                assert(session_keys(before.sessions).contains(before.waiting[i].key));
                let j = choose|j: int|
                    0 <= j < before.sessions.len() && session_keys(before.sessions)[j] == key;
                assert(session_keys(self@.sessions)[j] == key);
            }
        }
        self.serve(at, request, now);
    }

    /// No server could be started for a request. Where a process is left over all
    /// the same, nothing more is started for the key.
    pub fn spawn_failed(
        &mut self,
        key: SessionKey,
        request: &NavigationRuntimeRequest,
        message: &str,
        retained: bool,
        now: u64,
    )
        requires
            old(self).well_formed(),
            is_free(old(self)@, key@),
        ensures
            final(self).well_formed(),
            final(self)@ == not_spawned(old(self)@, key@, *request, message@, retained, now),
    {
        let ghost before = self@;
        if retained {
            self.book.give_up(key.copy(), copy_text(message));
            let count: usize = self.quarantined.len().saturating_add(
                self.quarantined_spawns.len(),
            ).saturating_add(1);
            self.stats.quarantined_process_owners = count;
            let ghost wanted = key@;
            self.quarantined_spawns.push(key);
            proof {
                assert(self@.spawns =~= before.spawns.push(wanted));
                lemma_added_key(before.spawns, wanted, Seq::empty());
                assert forall|i: int, j: int|
                    0 <= i < session_keys(self@.sessions).len() && 0 <= j
                        < self@.spawns.len() implies #[trigger] session_keys(self@.sessions)[i]
                    != #[trigger] self@.spawns[j] by {
                    assert(session_keys(before.sessions).contains(
                        session_keys(before.sessions)[i],
                    ));
                    if j < before.spawns.len() {
                        assert(self@.spawns[j] == before.spawns[j]);
                    }
                }
                assert forall|i: int, j: int|
                    0 <= i < failed_keys(self@.failed).len() && 0 <= j
                        < self@.spawns.len() implies #[trigger] failed_keys(self@.failed)[i]
                    != #[trigger] self@.spawns[j] by {
                    assert(failed_keys(before.failed).contains(failed_keys(before.failed)[i]));
                    if j < before.spawns.len() {
                        assert(self@.spawns[j] == before.spawns[j]);
                    }
                }
                assert forall|i: int, j: int|
                    0 <= i < session_keys(self@.quarantined).len() && 0 <= j
                        < self@.spawns.len() implies #[trigger] session_keys(
                    self@.quarantined,
                )[i] != #[trigger] self@.spawns[j] by {
                    assert(session_keys(before.quarantined).contains(
                        session_keys(before.quarantined)[i],
                    ));
                    if j < before.spawns.len() {
                        assert(self@.spawns[j] == before.spawns[j]);
                    }
                }
            }
        } else {
            self.book.record_failure_at(&key, message, now);
        }
        self.complete_request(request, NavigationProtocolResult::Failed(copy_text(message)));
    }

    /// A server was started for a request, and no thread could be had to talk to it.
    pub fn link_failed(
        &mut self,
        key: SessionKey,
        request: &NavigationRuntimeRequest,
        message: &str,
        now: u64,
    )
        requires
            old(self).well_formed(),
            is_free(old(self)@, key@),
        ensures
            final(self).well_formed(),
            final(self)@ == not_linked(old(self)@, key@, *request, message@, now),
    {
        self.next_epoch = self.next_epoch.saturating_add(1);
        self.spawn_failed(key, request, message, false, now);
    }
}

proof fn lemma_started_key(
    fresh: SessionRecord,
    global: GlobalPayloadBudget,
    process_id: nat,
    folder: Seq<char>,
    now: u64,
)
    ensures
        started(fresh, global, process_id, folder, now) matches Ok(talk) ==> talk.session.key
            == fresh.key,
{
    reveal(said);
}

// The disk --------------------------------------------------------------------------------

/// Requests that waited are told that they cannot be served.
pub open spec fn unwaited(manager: ManagerRecord, waiting: Seq<WaitingRecord>, words: Seq<char>) -> ManagerRecord
    decreases waiting.len(),
{
    if waiting.len() == 0 {
        manager
    } else {
        let before = unwaited(manager, waiting.drop_last(), words);
        released(
            told(before, waiting.last().pending.request, ResultRecord::Failed(words)),
            epoch_of(before.sessions, waiting.last().key),
            waiting.last().pending.document.permit.bytes as int,
        )
    }
}

/// The worker is late.
pub open spec fn is_late(lane: Option<LaneRecord>, now: u64) -> bool {
    lane matches Some(lane) && lane.active_deadline matches Some(deadline) && now >= deadline
}

/// A look at the worker: one that is late is given up, and with it all requests
/// that wait for it.
pub open spec fn lane_checked(manager: ManagerRecord, came_back: bool, now: u64) -> ManagerRecord {
    let lane = match manager.lane {
        None => None,
        Some(lane) => Some(
            LaneRecord {
                active_deadline: if came_back {
                    None
                } else {
                    lane.active_deadline
                },
                ..lane
            },
        ),
    };
    if is_late(lane, now) {
        unwaited(
            ManagerRecord {
                lane: Some(LaneRecord { wedged: true, ..lane->0 }),
                waiting: Seq::empty(),
                ..manager
            },
            manager.waiting,
            LaneError::Unavailable.text(),
        )
    } else {
        ManagerRecord { lane, ..manager }
    }
}

/// A source was compared with the disk.
#[verifier::opaque]
pub open spec fn compared(manager: ManagerRecord, result: DiskSnapshotResult, now: u64) -> ManagerRecord {
    match waiting_place(manager.waiting, result.generation(), 0) {
        None => manager,
        Some(at) => {
            let waiting = manager.waiting[at];
            let taken = ManagerRecord { waiting: manager.waiting.remove(at), ..manager };
            let declined = |words: Seq<char>|
                released(
                    told(taken, waiting.pending.request, ResultRecord::Failed(words)),
                    epoch_of(taken.sessions, waiting.key),
                    waiting.pending.document.permit.bytes as int,
                );
            match result {
                DiskSnapshotResult::Current { .. } => dispatched_at(
                    taken,
                    place_of(taken.sessions, waiting.key, 0)->0,
                    waiting.pending,
                    now,
                ),
                DiskSnapshotResult::Stale { .. } => declined(
                    "File changed on disk; refresh Preview."@,
                ),
                DiskSnapshotResult::Failed { generation: _, message } => declined(message@),
            }
        },
    }
}

pub open spec fn all_compared(
    manager: ManagerRecord,
    results: Seq<DiskSnapshotResult>,
    now: u64,
) -> ManagerRecord
    decreases results.len(),
{
    if results.len() == 0 {
        manager
    } else {
        compared(all_compared(manager, results.drop_last(), now), results.last(), now)
    }
}

impl NavigationManager {
    /// A request that waited is told that it cannot be served.
    fn decline_waiting(&mut self, waiting: WaitingRequest, words: &str)
        requires
            old(self).well_formed(),
        ensures
            final(self).well_formed(),
            ({
                let told = told(
                    old(self)@,
                    waiting.pending.request,
                    ResultRecord::Failed(words@),
                );
                final(self)@ == released(
                    told,
                    epoch_of(old(self)@.sessions, waiting.key@),
                    waiting.pending.document.permit.bytes as int,
                )
            }),
    {
        let epoch = self.epoch_of(&waiting.key);
        self.complete_request(
            &waiting.pending.request,
            NavigationProtocolResult::Failed(copy_text(words)),
        );
        self.release(epoch, waiting.pending.document.permit);
    }

    fn check_lane(&mut self, came_back: bool, now: u64)
        requires
            old(self).well_formed(),
        ensures
            final(self).well_formed(),
            final(self)@ == lane_checked(old(self)@, came_back, now),
    {
        let late = match self.disk_lane.take() {
            None => false,
            Some(lane) => {
                let mut lane = lane;
                if came_back {
                    lane.finish();
                }
                let late = lane.mark_wedged_if_overdue(now);
                self.disk_lane = Some(lane);
                late
            },
        };
        if late {
            let mut waiting: Vec<WaitingRequest> = Vec::new();
            std::mem::swap(&mut waiting, &mut self.disk_waiting);
            let ghost all = waiting@;
            let ghost shown = waiting_records(all);
            let ghost opened = self@;
            assert(opened.waiting =~= Seq::<WaitingRecord>::empty());
            let ghost mut done: int = 0;
            while waiting.len() > 0
                invariant
                    0 <= done <= all.len(),
                    waiting@ == all.subrange(done, all.len() as int),
                    shown == waiting_records(all),
                    self.well_formed(),
                    self@ == unwaited(
                        opened,
                        shown.subrange(0, done),
                        LaneError::Unavailable.text(),
                    ),
                decreases waiting@.len(),
            {
                let entry = waiting.remove(0);
                proof {
                    assert(entry == all[done]);
                    assert(shown.subrange(0, done + 1).drop_last() =~= shown.subrange(0, done));
                    assert(shown.subrange(0, done + 1).last() == entry@);
                    assert(waiting@ =~= all.subrange(done + 1, all.len() as int));
                }
                self.decline_waiting(entry, LaneError::Unavailable.message());
                proof {
                    done = done + 1;
                }
            }
            assert(shown.subrange(0, shown.len() as int) =~= shown);
        }
    }

    #[verifier::rlimit(60)]
    fn settle(&mut self, result: DiskSnapshotResult, now: u64)
        requires
            old(self).well_formed(),
        ensures
            final(self).well_formed(),
            final(self)@ == compared(old(self)@, result, now),
    {
        proof {
            reveal(compared);
        }
        let generation = match &result {
            DiskSnapshotResult::Current { generation } => *generation,
            DiskSnapshotResult::Stale { generation } => *generation,
            DiskSnapshotResult::Failed { generation, .. } => *generation,
        };
        let at = match self.find_waiting(generation) {
            None => {
                return;
            },
            Some(at) => at,
        };
        let ghost before = self@;
        let waiting = self.remove_waiting(at);
        match result {
            DiskSnapshotResult::Current { .. } => {
                proof {
                    let key = before.waiting[at as int].key;
                    assert(session_keys(before.sessions).contains(key));
                    lemma_place_of(before.sessions, key, 0);
                    let i = choose|i: int|
                        0 <= i < before.sessions.len() && session_keys(before.sessions)[i] == key;
                    assert(before.sessions[i].key == key);
                }
                match self.find_session(&waiting.key) {
                    None => {},
                    Some(place) => {
                        self.dispatch_navigation(place, waiting.pending, now);
                    },
                }
            },
            DiskSnapshotResult::Stale { .. } => {
                self.decline_waiting(waiting, "File changed on disk; refresh Preview.");
            },
            DiskSnapshotResult::Failed { message, .. } => {
                self.decline_waiting(waiting, message.as_str());
            },
        }
    }

    /// Looks at the worker, and goes on with the requests whose sources were compared.
    pub fn poll_disk(&mut self, results: Vec<DiskSnapshotResult>, now: u64)
        requires
            old(self).well_formed(),
        ensures
            final(self).well_formed(),
            final(self)@ == all_compared(
                lane_checked(old(self)@, results@.len() > 0, now),
                results@,
                now,
            ),
    {
        self.check_lane(results.len() > 0, now);
        let mut results = results;
        let ghost all = results@;
        let ghost checked = self@;
        let ghost mut done: int = 0;
        while results.len() > 0
            invariant
                0 <= done <= all.len(),
                results@ == all.subrange(done, all.len() as int),
                self.well_formed(),
                self@ == all_compared(checked, all.subrange(0, done), now),
            decreases results@.len(),
        {
            let result = results.remove(0);
            proof {
                assert(result == all[done]);
                assert(all.subrange(0, done + 1).drop_last() =~= all.subrange(0, done));
                assert(all.subrange(0, done + 1).last() == result);
                assert(results@ =~= all.subrange(done + 1, all.len() as int));
            }
            self.settle(result, now);
            proof {
                done = done + 1;
            }
        }
        assert(all.subrange(0, all.len() as int) =~= all);
    }
}

/// A server that failed is not started again before its time, nor one that was
/// given up, nor any while a process is left over.
pub proof fn law_no_server_is_started_before_its_time(
    manager: ManagerRecord,
    source: NavigationSource,
    now: u64,
    key: KeyRecord,
)
    requires
        gate(manager, source, now) == GateRecord::Spawn(key),
    ensures
        manager.book.backoffs.contains_key(key) ==> now >= manager.book.backoffs[key].retry_at,
        !manager.book.permanent.contains_key(key),
        manager.quarantined.len() == 0,
        manager.spawns.len() == 0,
{
    reveal(gate);
}

// Who is let through ----------------------------------------------------------------------

/// A request comes to a server only if its language has one that the user lets start, it has
/// not failed for good, is not failing or waiting to be tried again, and no process is left
/// over. Then it comes to the session of its root and language, or that session is started.
pub proof fn law_requests_come_to_sound_servers(
    manager: ManagerRecord,
    source: NavigationSource,
    now: u64,
)
    ensures
        ({
            let answer = gate(manager, source, now);
            !(answer is Answer) ==> {
                &&& source.language.family is Some
                &&& ({
                    let family = source.language.family->0;
                    let key = KeyRecord {
                        root: crate::paths::parts(manager.style, source.server_root@),
                        family,
                    };
                    &&& manager.settings.of(family) is Some
                    &&& !manager.book.permanent.contains_key(key)
                    &&& manager.quarantined.len() == 0 && manager.spawns.len() == 0
                    &&& forall|i: int|
                        0 <= i < manager.failed.len() ==> (#[trigger] manager.failed[i]).session.key
                            != key
                    &&& manager.book.backoffs.contains_key(key) ==> now
                        >= manager.book.backoffs[key].retry_at
                    &&& answer matches GateRecord::Serve(at) ==> 0 <= at < manager.sessions.len()
                        && manager.sessions[at].key == key
                    &&& answer matches GateRecord::Spawn(own) ==> own == key && forall|i: int|
                        0 <= i < manager.sessions.len() ==> (#[trigger] manager.sessions[i]).key
                            != key
                })
            }
        }),
{
    reveal(gate);
    reveal(root_parts);
    if source.language.family is Some {
        let key = KeyRecord {
            root: root_parts(manager.style, source.server_root@),
            family: source.language.family->0,
        };
        lemma_no_failure(manager.failed, key, 0);
        lemma_first_session(manager.sessions, key, 0);
    }
}

proof fn lemma_no_failure(failed: Seq<FailedRecord>, key: KeyRecord, from: int)
    requires
        0 <= from <= failed.len(),
    ensures
        failure_of(failed, key, from) is None <==> forall|i: int|
            from <= i < failed.len() ==> (#[trigger] failed[i]).session.key != key,
    decreases failed.len() - from,
{
    if from < failed.len() && failed[from].session.key != key {
        lemma_no_failure(failed, key, from + 1);
    }
}

proof fn lemma_first_session(sessions: Seq<SessionRecord>, key: KeyRecord, from: int)
    requires
        0 <= from <= sessions.len(),
    ensures
        match place_of(sessions, key, from) {
            Some(at) => from <= at < sessions.len() && sessions[at].key == key,
            None => forall|i: int|
                from <= i < sessions.len() ==> (#[trigger] sessions[i]).key != key,
        },
    decreases sessions.len() - from,
{
    if from < sessions.len() && sessions[from].key != key {
        lemma_first_session(sessions, key, from + 1);
    }
}

/// A request for which nothing stands in the way is let through.
pub proof fn law_nothing_else_holds_a_request_up(
    manager: ManagerRecord,
    source: NavigationSource,
    now: u64,
)
    requires
        source.language.family is Some,
        manager.settings.of(source.language.family->0) is Some,
        manager.quarantined.len() == 0,
        manager.spawns.len() == 0,
        manager.failed.len() == 0,
        !manager.book.permanent.contains_key(
            KeyRecord {
                root: crate::paths::parts(manager.style, source.server_root@),
                family: source.language.family->0,
            },
        ),
        ({
            let key = KeyRecord {
                root: crate::paths::parts(manager.style, source.server_root@),
                family: source.language.family->0,
            };
            manager.book.backoffs.contains_key(key) ==> now >= manager.book.backoffs[key].retry_at
        }),
    ensures
        !(gate(manager, source, now) is Answer),
{
    reveal(gate);
    reveal(root_parts);
}

/// A session is named after the directory that it serves, if that name is text.
pub proof fn law_folders_are_named_after_their_directory(style: PathStyle, root: Seq<u8>)
    ensures
        file_name(style, root) is Some && valid_utf8(file_name(style, root)->0) ==> folder_text(
            style,
            root,
        ) == decode_utf8(file_name(style, root)->0),
        file_name(style, root) is None || !valid_utf8(file_name(style, root)->0) ==> folder_text(
            style,
            root,
        ) == "workspace"@,
{
}

} // verus!
