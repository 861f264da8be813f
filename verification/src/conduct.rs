//! How sessions and their requests are dealt with, as relations between what is there before
//! and what is there afterwards.

use crate::cleanup::{cleaned_up, cleanup_begun, CleanupOutcome, ProgressRecord};
use crate::completions::ResultRecord;
use crate::disk::DiskSnapshotResult;
use crate::frames::{
    called_at, control_fault, enveloped, initialized_at, lifecycle, located, outlined_at, refused,
    responded, told_error, ControlPoll, FrameParts,
};
use crate::framing::encoded;
use crate::locations::{result_locations, LocationParts};
use crate::manager::{
    completed, failed_at, given_up, place_of, released, told, waiting_for, waiting_for_others,
    ManagerRecord, WaitingRecord,
};
use crate::messages::{initialized_text, response_text, shutdown_text};
use crate::outline::{listed, result_symbols, source_path, SymbolItem};
use crate::process::IoThreadDone;
use crate::protocol::{
    call_answer, initialized_capabilities, raw_result, words_result, CallParams, Envelope,
};
use crate::requests::{
    compared, dispatched_at, not_spawned, revalidated_at, served, talk_at, waiting_place, with_talk,
};
use crate::retirement::{retired_one, without_entry, Retirement};
use crate::rpc::{without, IdRecord, IoThreads, RpcId, SessionEpoch};
use crate::session::{
    dispatched, emptied, owed, pending_place, retired, said, DispatchVerdict, KeyRecord,
    NavigationRuntimeRequest, PendingUserRequest, SessionRecord, StateRecord, Talk,
};
use vstd::prelude::*;
use vstd::utf8::encode_utf8;

verus! {

/// A message that is no message of the protocol, or that is a request and an answer at once,
/// ends the session, and so does an answer without a number or without exactly one of a
/// result and an error.
pub proof fn law_broken_messages_end_the_session(
    manager: ManagerRecord,
    at: int,
    parts: FrameParts,
    now: u64,
)
    ensures
        parts.envelope is None || parts.envelope->0.jsonrpc@ != "2.0"@ ==> enveloped(
            manager,
            at,
            parts,
            now,
        ) == failed_at(manager, at, "invalid JSON-RPC envelope"@),
        parts.envelope is Some && parts.envelope->0.jsonrpc@ == "2.0"@ ==> {
            let envelope = parts.envelope->0;
            let after = enveloped(manager, at, parts, now);
            &&& envelope.method is Some && (envelope.result is Some || envelope.error is Some)
                ==> after == failed_at(
                manager,
                at,
                "invalid JSON-RPC message contains method and response fields"@,
            )
            &&& envelope.method is None && envelope.id is None ==> after == failed_at(
                manager,
                at,
                "JSON-RPC response is missing its id"@,
            )
            &&& envelope.method is None && envelope.id is Some && ((envelope.result is Some
                && envelope.error is Some) || (envelope.result is None && envelope.error is None))
                ==> after == failed_at(
                manager,
                at,
                "JSON-RPC response must contain exactly one of result or error"@,
            )
        },
{
    reveal(responded);
}

/// An answer to a request that was given up changes nothing but that it is not waited for any
/// more.
pub proof fn law_late_answers_are_dropped(
    manager: ManagerRecord,
    at: int,
    envelope: Envelope,
    parts: FrameParts,
    now: u64,
)
    requires
        0 <= at < manager.sessions.len(),
        envelope.id is Some,
        envelope.result is Some != envelope.error is Some,
        manager.sessions[at].retired.contains(envelope.id->0@),
    ensures
        ({
            let after = responded(manager, at, envelope, parts, now);
            &&& after.completions == manager.completions && after.symbols == manager.symbols
            &&& after.failed == manager.failed && after.waiting == manager.waiting
            &&& after.global == manager.global && after.book == manager.book
            &&& after.sessions.len() == manager.sessions.len()
            &&& forall|i: int|
                0 <= i < manager.sessions.len() && i != at ==> #[trigger] after.sessions[i]
                    == manager.sessions[i]
            &&& after.sessions[at].pending == manager.sessions[at].pending
            &&& after.sessions[at].retired == without(
                manager.sessions[at].retired,
                envelope.id->0@,
            )
        }),
{
    reveal(responded);
}

proof fn lemma_given_up_kept(
    manager: ManagerRecord,
    epoch: SessionEpoch,
    requests: Seq<PendingUserRequest>,
    result: ResultRecord,
)
    ensures
        ({
            let after = given_up(manager, epoch, requests, result);
            &&& after.sessions.len() == manager.sessions.len()
            &&& forall|i: int|
                0 <= i < manager.sessions.len() ==> (#[trigger] after.sessions[i]).key
                    == manager.sessions[i].key
            &&& after.failed.len() == manager.failed.len()
            &&& forall|i: int|
                0 <= i < manager.failed.len() ==> (#[trigger] after.failed[i]).error
                    == manager.failed[i].error && after.failed[i].session.key
                    == manager.failed[i].session.key
        }),
    decreases requests.len(),
{
    if requests.len() > 0 {
        lemma_given_up_kept(manager, epoch, requests.drop_last(), result);
    }
}

/// A session that fails leaves the sessions and stands last among the failed ones, with what
/// it failed of; the others stay.
pub proof fn law_failed_sessions_are_set_aside(manager: ManagerRecord, at: int, error: Seq<char>)
    requires
        0 <= at < manager.sessions.len(),
    ensures
        ({
            let after = failed_at(manager, at, error);
            &&& after.sessions.len() == manager.sessions.len() - 1
            &&& forall|i: int|
                0 <= i < at ==> (#[trigger] after.sessions[i]).key == manager.sessions[i].key
            &&& forall|i: int|
                at <= i < after.sessions.len() ==> (#[trigger] after.sessions[i]).key
                    == manager.sessions[i + 1].key
            &&& after.failed.len() == manager.failed.len() + 1
            &&& after.failed.last().error == error
            &&& after.failed.last().session.key == manager.sessions[at].key
            &&& forall|i: int|
                0 <= i < manager.failed.len() ==> (#[trigger] after.failed[i]).error
                    == manager.failed[i].error
        }),
{
    reveal(failed_at);
    let session = manager.sessions[at];
    let open = ManagerRecord {
        sessions: manager.sessions.update(at, emptied(session)),
        waiting: waiting_for_others(manager.waiting, session.key),
        ..manager
    };
    lemma_given_up_kept(
        open,
        session.epoch,
        owed(session) + waiting_for(manager.waiting, session.key),
        ResultRecord::Failed(error),
    );
}

/// What waits is told apart by the session that it waits for, in order.
pub proof fn law_waiting_requests_go_with_their_session(
    waiting: Seq<WaitingRecord>,
    last: WaitingRecord,
    key: KeyRecord,
)
    ensures
        waiting_for(Seq::empty(), key).len() == 0,
        waiting_for_others(Seq::empty(), key).len() == 0,
        last.key == key ==> waiting_for(waiting.push(last), key) == waiting_for(waiting, key).push(
            last.pending,
        ) && waiting_for_others(waiting.push(last), key) == waiting_for_others(waiting, key),
        last.key != key ==> waiting_for(waiting.push(last), key) == waiting_for(waiting, key)
            && waiting_for_others(waiting.push(last), key) == waiting_for_others(
            waiting,
            key,
        ).push(last),
{
    assert(waiting.push(last).drop_last() =~= waiting);
}

/// A result is the last one in line, and it tells which request it answers.
pub proof fn law_results_name_their_request(
    manager: ManagerRecord,
    request: NavigationRuntimeRequest,
    result: ResultRecord,
    epoch: Option<SessionEpoch>,
    permit: Option<int>,
)
    ensures
        ({
            let after = completed(manager, request, result, epoch, permit);
            &&& after.completions.len() > 0
            &&& after.completions.last().generation == request.generation
            &&& after.completions.last().operation == request.operation
            &&& after.completions.last().identity == request.source.identity.bytes@
            &&& after.completions.last().version == request.version
            &&& after.completions.last().result == result
            &&& after.sessions.len() == manager.sessions.len()
            &&& after.waiting == manager.waiting
        }),
{
}

/// A request whose file changed, or could not be compared, is told so and waits no longer.
pub proof fn law_changed_files_are_not_asked_about(
    manager: ManagerRecord,
    result: DiskSnapshotResult,
    now: u64,
    at: int,
)
    requires
        waiting_place(manager.waiting, result.generation(), 0) == Some(at),
        0 <= at < manager.waiting.len(),
    ensures
        ({
            let after = compared(manager, result, now);
            let request = manager.waiting[at].pending.request;
            &&& result is Stale ==> {
                &&& after.waiting == manager.waiting.remove(at)
                &&& after.completions.last().result == ResultRecord::Failed(
                    "File changed on disk; refresh Preview."@,
                )
                &&& after.completions.last().generation == request.generation
            }
            &&& result matches DiskSnapshotResult::Failed { generation, message } ==> {
                &&& after.waiting == manager.waiting.remove(at)
                &&& after.completions.last().result == ResultRecord::Failed(message@)
                &&& after.completions.last().generation == request.generation
            }
        }),
{
    reveal(compared);
}

/// What the threads of a session say of it: nothing, that it stopped, or what they failed of.
pub proof fn law_threads_are_believed(poll: ControlPoll)
    ensures
        control_fault(poll) is None <==> poll is Quiet,
        poll is Stopped ==> control_fault(poll) == Some(
            "language server I/O control channel stopped"@,
        ),
{
}

/// Each thread of a session ends once, and only for its own session.
pub proof fn law_each_thread_ends_once(
    epoch: SessionEpoch,
    done: IoThreads,
    events: Seq<IoThreadDone>,
    last: IoThreadDone,
)
    requires
        lifecycle(epoch, done, events).1 is None,
    ensures
        lifecycle(epoch, done, Seq::empty()) == (done, None::<crate::rpc::LifecycleError>),
        ({
            let (before, _) = lifecycle(epoch, done, events);
            let (after, fault) = lifecycle(epoch, done, events.push(last));
            &&& fault is None <==> last.session_epoch == epoch.0 && !before.holds(last.kind)
            &&& fault is None ==> after == before.with(last.kind)
            &&& fault is Some ==> after == before
        }),
{
    assert(events.push(last).drop_last() =~= events);
}

/// A request that took too long has failed, and one that was taken back is cancelled.
pub proof fn law_retired_requests_are_told_why(why: Retirement)
    ensures
        why is TimedOut ==> why.outcome() == ResultRecord::Failed(
            "Language server request timed out."@,
        ),
        why is Cancelled ==> why.outcome() == ResultRecord::Cancelled,
{
}

/// A request of a server is answered under its own number with the answer that it is due; a
/// notice is not answered.
pub proof fn law_servers_are_answered_under_their_number(
    manager: ManagerRecord,
    at: int,
    id: RpcId,
    method: Seq<char>,
    params: Option<Seq<char>>,
    call: CallParams,
)
    requires
        0 <= at < manager.sessions.len(),
    ensures
        called_at(manager, at, None, method, params, call) == manager,
        ({
            let words = response_text(
                id@,
                call_answer(method, params, call, manager.sessions[at].root_uri),
            );
            let after = called_at(manager, at, Some(id), method, params, call);
            said(talk_at(manager, at), words) is Ok ==> {
                &&& after.sessions.len() == manager.sessions.len()
                &&& after.sessions[at].outbox is Some
                &&& after.sessions[at].outbox->0.frames.len() > 0
                &&& after.sessions[at].outbox->0.frames.last().bytes == encoded(encode_utf8(words))
                &&& after.completions == manager.completions
            }
        }),
{
    reveal(called_at);
    reveal(said);
}

/// The locations of an answer are the result of its request.
pub proof fn law_located_answers_become_results(
    manager: ManagerRecord,
    at: int,
    pending: PendingUserRequest,
    raw: Seq<char>,
    parts: LocationParts,
    now: u64,
)
    requires
        0 <= at < manager.sessions.len(),
        result_locations(
            pending.request.operation,
            raw,
            parts.items@,
            parts.unread is Some,
            manager.sessions[at].budget.room(&manager.global),
        ) is Ok,
    ensures
        ({
            let entries = result_locations(
                pending.request.operation,
                raw,
                parts.items@,
                parts.unread is Some,
                manager.sessions[at].budget.room(&manager.global),
            )->Ok_0;
            let after = located(manager, at, pending, raw, parts, now);
            &&& after.completions.last().result == ResultRecord::Locations(entries)
            &&& after.completions.last().generation == pending.request.generation
            &&& after.completions.last().operation == pending.request.operation
            &&& after.sessions.len() == manager.sessions.len()
            &&& after.failed.len() == manager.failed.len()
        }),
{
    reveal(located);
}

/// The symbols of an answer are the result of its request.
pub proof fn law_outlined_answers_become_results(
    manager: ManagerRecord,
    at: int,
    pending: PendingUserRequest,
    raw: Seq<char>,
    items: Result<Vec<SymbolItem>, String>,
    now: u64,
)
    requires
        0 <= at < manager.sessions.len(),
        result_symbols(
            raw,
            listed(items),
            source_path(*pending.document.source),
            pending.document.source.line_index@,
            manager.sessions[at].budget.room(&manager.global),
        ) is Ok,
    ensures
        ({
            let symbols = result_symbols(
                raw,
                listed(items),
                source_path(*pending.document.source),
                pending.document.source.line_index@,
                manager.sessions[at].budget.room(&manager.global),
            )->Ok_0;
            let after = outlined_at(manager, at, pending, raw, items, now);
            &&& after.symbols.last().symbols == symbols
            &&& after.symbols.last().generation == pending.request.generation
            &&& after.symbols.last().version == pending.request.version
            &&& after.completions == manager.completions
            &&& after.failed.len() == manager.failed.len()
        }),
{
    reveal(outlined_at);
}

/// An error that a server answers with is the result of the request, in its own words.
pub proof fn law_refused_requests_are_told(
    manager: ManagerRecord,
    at: int,
    pending: PendingUserRequest,
    message: Result<String, String>,
    now: u64,
)
    requires
        0 <= at < manager.sessions.len(),
        told_error(message, &manager.sessions[at].budget, &manager.global) is Ok,
    ensures
        ({
            let (charge, words) = told_error(
                message,
                &manager.sessions[at].budget,
                &manager.global,
            )->Ok_0;
            let after = refused(manager, at, pending, message, now);
            &&& after.completions.last().result == ResultRecord::Failed(words)
            &&& after.completions.last().generation == pending.request.generation
            &&& after.sessions.len() == manager.sessions.len()
            &&& after.failed.len() == manager.failed.len()
        }),
{
    reveal(refused);
}

/// A server that answered its first message is ready with what it told, from that moment on,
/// and it is told that it is.
pub proof fn law_answered_servers_are_ready(
    manager: ManagerRecord,
    at: int,
    raw: Seq<char>,
    parts: FrameParts,
    now: u64,
)
    requires
        0 <= at < manager.sessions.len(),
        manager.sessions[at].deferred is None,
        manager.failed.len() == initialized_at(manager, at, None, raw, parts, now).failed.len(),
    ensures
        ({
            let told = initialized_capabilities(
                raw,
                words_result(parts.capabilities_object),
                raw_result(parts.capabilities),
            );
            let after = initialized_at(manager, at, None, raw, parts, now);
            &&& told is Ok
            &&& after.sessions.len() == manager.sessions.len()
            &&& after.sessions[at].state == StateRecord::Ready { capabilities: told->Ok_0 }
            &&& after.sessions[at].ready_since == Some(now)
            &&& after.sessions[at].outbox is Some
            &&& after.sessions[at].outbox->0.frames.last().bytes == encoded(
                encode_utf8(initialized_text()),
            )
        }),
{
    reveal(initialized_at);
    reveal(said);
    let told = initialized_capabilities(
        raw,
        words_result(parts.capabilities_object),
        raw_result(parts.capabilities),
    );
    match told {
        Err(words) => law_failed_sessions_are_set_aside(manager, at, words),
        Ok(capabilities) => {
            let ready = ManagerRecord {
                sessions: manager.sessions.update(
                    at,
                    SessionRecord {
                        state: StateRecord::Ready { capabilities },
                        ready_since: Some(now),
                        ..manager.sessions[at]
                    },
                ),
                ..manager
            };
            if let Err(error) = said(talk_at(ready, at), initialized_text()) {
                law_failed_sessions_are_set_aside(
                    ready,
                    at,
                    "cannot finish language server initialization: "@ + error.text(),
                );
            }
        },
    }
}

/// A server that reads the disk is asked only after the file was compared: the request waits
/// for the comparison of its own source, or it is told that none can be made.
pub proof fn law_files_are_compared_before_the_disk_is_read(
    manager: ManagerRecord,
    at: int,
    pending: PendingUserRequest,
    now: u64,
)
    requires
        0 <= at < manager.sessions.len(),
        manager.sessions[at].ready() is Some,
        manager.sessions[at].ready()->0.text_document_sync.reads_disk(),
    ensures
        ({
            let after = revalidated_at(manager, at, pending, now);
            let free = manager.lane is Some && !manager.lane->0.wedged && manager.lane->0.queued
                is None;
            &&& free ==> {
                &&& after.lane is Some && after.lane->0.queued is Some
                &&& after.lane->0.queued->0.generation == pending.request.generation
                &&& after.lane->0.queued->0.source == *pending.document.source
                &&& after.lane->0.queued->0.root == pending.document.source.content_root@
                &&& after.waiting.len() > 0
                &&& after.waiting.last().key == manager.sessions[at].key
                &&& after.waiting.last().pending == pending
                &&& after.completions == manager.completions
            }
            &&& !free ==> {
                &&& after.completions.last().result is Failed
                &&& after.completions.last().generation == pending.request.generation
                &&& after.waiting == manager.waiting && after.lane == manager.lane
            }
        }),
{
    reveal(revalidated_at);
}

/// A session that was cleaned up has failed once more and is gone; one that could not be is
/// kept apart, and its server is not started again.
pub proof fn law_cleaned_sessions_are_gone(
    manager: ManagerRecord,
    at: int,
    outcome: CleanupOutcome,
    now: u64,
)
    requires
        0 <= at < manager.failed.len(),
    ensures
        ({
            let after = cleaned_up(manager, at, outcome, now);
            let key = manager.failed[at].session.key;
            &&& after.failed == manager.failed.remove(at)
            &&& after.sessions == manager.sessions
            &&& outcome is Complete ==> after.quarantined == manager.quarantined
                && after.book.backoffs.contains_key(key)
            &&& outcome is Quarantined ==> after.quarantined == manager.quarantined.push(
                manager.failed[at].session,
            ) && after.book.permanent.contains_key(key) && after.book.backoffs
                == manager.book.backoffs
        }),
{
}

/// A server that is ready is asked to shut down under the next number; another is not asked.
pub proof fn law_ready_servers_are_asked_to_shut_down(
    talk: Talk,
    progress: ProgressRecord,
    synthetic: bool,
)
    ensures
        ({
            let (after, noted) = cleanup_begun(talk, progress, synthetic);
            &&& noted.synthetic == synthetic
            &&& noted.orderly == (talk.session.ready() is Some)
            &&& talk.session.ready() is None ==> after == talk && noted.answered
            &&& noted.shutdown_id is Some && progress.shutdown_id is None ==> {
                &&& talk.session.next == noted.shutdown_id
                &&& after.session.outbox is Some
                &&& after.session.outbox->0.frames.last().bytes == encoded(
                    encode_utf8(shutdown_text(IdRecord::Signed(noted.shutdown_id->0))),
                )
            }
        }),
{
    reveal(said);
}

/// A request that cannot be sent is told why, and only a session that cannot speak any more
/// fails with it.
pub proof fn law_unsent_requests_are_told_why(
    manager: ManagerRecord,
    at: int,
    pending: PendingUserRequest,
    now: u64,
)
    requires
        0 <= at < manager.sessions.len(),
    ensures
        ({
            let verdict = dispatched(talk_at(manager, at), pending, now).1;
            let after = dispatched_at(manager, at, pending, now);
            &&& verdict is Sent ==> after.completions == manager.completions && after.failed
                == manager.failed
            &&& verdict matches DispatchVerdict::Unavailable(words) ==> {
                &&& after.completions.last().result == ResultRecord::Unavailable(words)
                &&& after.completions.last().generation == pending.request.generation
                &&& after.failed.len() == manager.failed.len()
            }
            &&& verdict matches DispatchVerdict::Failed(words) ==> {
                &&& after.completions.last().result == ResultRecord::Failed(words)
                &&& after.completions.last().generation == pending.request.generation
                &&& after.failed.len() == manager.failed.len()
            }
            &&& verdict matches DispatchVerdict::Broken(words, error) ==> {
                &&& after.failed.len() == manager.failed.len() + 1
                &&& after.failed.last().error == error
                &&& after.failed.last().session.key == manager.sessions[at].key
            }
        }),
{
    reveal(dispatched_at);
    let (talk, verdict) = dispatched(talk_at(manager, at), pending, now);
    if let DispatchVerdict::Broken(words, error) = verdict {
        let after = with_talk(manager, at, talk);
        assert(talk.session.key == manager.sessions[at].key) by {
            reveal(said);
        }
        let answered = told(after, pending.request, ResultRecord::Failed(words));
        assert(answered.sessions[at].key == manager.sessions[at].key);
        assert(answered.failed.len() == manager.failed.len());
        law_failed_sessions_are_set_aside(answered, at, error);
    }
}

/// A request to a session that is not ready yet waits there, and the one that waited before it
/// is cancelled.
pub proof fn law_the_last_request_waits_for_a_start(
    manager: ManagerRecord,
    at: int,
    request: NavigationRuntimeRequest,
    now: u64,
)
    requires
        0 <= at < manager.sessions.len(),
        manager.sessions[at].ready() is None,
        request.source.charge() <= 3145728,
        manager.sessions[at].budget.refusal(&manager.global, request.source.charge()) is None,
    ensures
        ({
            let after = served(manager, at, request, now);
            let before = manager.sessions[at].deferred;
            &&& after.sessions.len() == manager.sessions.len()
            &&& after.sessions[at].deferred is Some
            &&& after.sessions[at].deferred->0.request == request
            &&& before is None ==> after.completions == manager.completions
            &&& before matches Some(replaced) ==> {
                &&& after.completions.last().result == ResultRecord::Cancelled
                &&& after.completions.last().generation == replaced.request.generation
            }
        }),
{
    reveal(served);
}

/// A request whose document does not fit is told so, and nothing else changes.
pub proof fn law_large_documents_are_refused(
    manager: ManagerRecord,
    at: int,
    request: NavigationRuntimeRequest,
    now: u64,
)
    requires
        0 <= at < manager.sessions.len(),
        request.source.charge() > 3145728,
    ensures
        ({
            let after = served(manager, at, request, now);
            &&& after.completions.last().result is Failed
            &&& after.completions.last().generation == request.generation
            &&& after.sessions.len() == manager.sessions.len()
            &&& after.sessions[at].pending == manager.sessions[at].pending
            &&& after.sessions[at].deferred == manager.sessions[at].deferred
            &&& after.waiting == manager.waiting
        }),
{
    reveal(served);
}

/// A server that could not be started has failed, and if its process may be left over it is
/// not started again.
pub proof fn law_servers_that_do_not_start_have_failed(
    manager: ManagerRecord,
    key: KeyRecord,
    request: NavigationRuntimeRequest,
    message: Seq<char>,
    retained: bool,
    now: u64,
)
    ensures
        ({
            let after = not_spawned(manager, key, request, message, retained, now);
            &&& after.completions.last().result == ResultRecord::Failed(message)
            &&& after.completions.last().generation == request.generation
            &&& retained ==> after.book.permanent.contains_key(key) && after.spawns
                == manager.spawns.push(key)
            &&& !retained ==> after.book.backoffs.contains_key(key) && after.spawns
                == manager.spawns
        }),
{
}

/// A request that is retired is told why, under its own generation.
pub proof fn law_retired_requests_are_answered(
    manager: ManagerRecord,
    key: KeyRecord,
    id: i32,
    why: Retirement,
    at: int,
    place: int,
)
    requires
        place_of(manager.sessions, key, 0) == Some(at),
        0 <= at < manager.sessions.len(),
        pending_place(manager.sessions[at].pending, id, 0) == Some(place),
        0 <= place < manager.sessions[at].pending.len(),
        manager.sessions[at].pending[place].request is Navigation,
        retired_one(manager, key, id, why).failed.len() == manager.failed.len(),
    ensures
        ({
            let after = retired_one(manager, key, id, why);
            let request = manager.sessions[at].pending[place].request->Navigation_pending.request;
            &&& after.completions.last().result == (if why is TimedOut {
                ResultRecord::Failed("Language server request timed out."@)
            } else {
                ResultRecord::Cancelled
            })
            &&& after.completions.last().generation == request.generation
            &&& after.sessions.len() == manager.sessions.len()
            &&& after.sessions[at].pending == manager.sessions[at].pending.remove(place)
        }),
{
    reveal(retired_one);
    reveal(said);
    let session = manager.sessions[at];
    let taken = ManagerRecord {
        sessions: manager.sessions.update(at, without_entry(session, place)),
        ..manager
    };
    let pending = session.pending[place].request->Navigation_pending;
    let (talk, fault) = retired(talk_at(taken, at), id);
    if let Some(error) = fault {
        let answered = released(
            told(with_talk(taken, at, talk), pending.request, why.outcome()),
            Some(session.epoch),
            pending.document.permit.bytes as int,
        );
        law_failed_sessions_are_set_aside(answered, at, why.fault_text() + error.text());
    }
}

} // verus!
