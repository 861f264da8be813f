//! Requests that are given up, because they take too long or are not wanted any more.

use crate::completions::{NavigationProtocolResult, ResultRecord};
use crate::manager::{
    failed_at, given_up, key_records, law_failing_answers_every_request, lemma_failed_keys,
    lemma_place_of, lemma_released_keys, lemma_told_keys, place_of, released, session_keys, told,
    waiting_for, waiting_for_others, ManagerRecord, NavigationManager,
};
use crate::requests::{epoch_of, talk_at, waiting_place, with_talk};
use crate::rpc::SessionEpoch;
use crate::session::{
    distinct_ids, emptied, lemma_pending_place, owed, pending_place, retired, said, KeyRecord,
    NavigationRuntimeRequest, PendingEntry, PendingRequest, PendingUserRequest, SessionKey,
    SessionRecord, Talk,
};
use crate::text::copy_text;
use vstd::prelude::*;

verus! {

/// Why a request is given up.
#[derive(Clone, Copy, Debug, PartialEq, Eq, Structural)]
pub enum Retirement {
    TimedOut,
    Cancelled,
}

impl Retirement {
    pub open spec fn outcome(self) -> ResultRecord {
        match self {
            Retirement::TimedOut => ResultRecord::Failed("Language server request timed out."@),
            Retirement::Cancelled => ResultRecord::Cancelled,
        }
    }

    pub open spec fn fault_text(self) -> Seq<char> {
        match self {
            Retirement::TimedOut => "cannot retire timed-out language server request: "@,
            Retirement::Cancelled => "cannot retire cancelled language server request: "@,
        }
    }

    fn result(self) -> (result: NavigationProtocolResult)
        ensures
            result@ == self.outcome(),
    {
        match self {
            Retirement::TimedOut => NavigationProtocolResult::Failed(
                copy_text("Language server request timed out."),
            ),
            Retirement::Cancelled => NavigationProtocolResult::Cancelled,
        }
    }

    fn fault(self) -> (words: String)
        ensures
            words@ == self.fault_text(),
    {
        match self {
            Retirement::TimedOut => copy_text("cannot retire timed-out language server request: "),
            Retirement::Cancelled => copy_text(
                "cannot retire cancelled language server request: ",
            ),
        }
    }
}

/// A session without one of the entries that it waits for.
pub open spec fn without_entry(session: SessionRecord, place: int) -> SessionRecord {
    SessionRecord { pending: session.pending.remove(place), ..session }
}

/// A request that was sent is given up: the server is told, and the request has
/// its result. If the server cannot be told, its session fails.
#[verifier::opaque]
pub open spec fn retired_one(
    manager: ManagerRecord,
    key: KeyRecord,
    id: i32,
    why: Retirement,
) -> ManagerRecord {
    match place_of(manager.sessions, key, 0) {
        None => manager,
        Some(at) => match pending_place(manager.sessions[at].pending, id, 0) {
            None => manager,
            Some(place) => {
                let session = manager.sessions[at];
                let taken = ManagerRecord {
                    sessions: manager.sessions.update(at, without_entry(session, place)),
                    ..manager
                };
                match session.pending[place].request {
                    PendingRequest::Initialize { .. } => taken,
                    PendingRequest::Navigation { pending, .. } => {
                        let (talk, fault) = retired(talk_at(taken, at), id);
                        let answered = released(
                            told(with_talk(taken, at, talk), pending.request, why.outcome()),
                            Some(session.epoch),
                            pending.document.permit.bytes as int,
                        );
                        match fault {
                            None => answered,
                            Some(error) => failed_at(
                                answered,
                                at,
                                why.fault_text() + error.text(),
                            ),
                        }
                    },
                }
            },
        },
    }
}

pub open spec fn retired_all(
    manager: ManagerRecord,
    key: KeyRecord,
    ids: Seq<i32>,
    why: Retirement,
) -> ManagerRecord
    decreases ids.len(),
{
    if ids.len() == 0 {
        manager
    } else {
        retired_one(retired_all(manager, key, ids.drop_last(), why), key, ids.last(), why)
    }
}

/// The numbers of the requests that are due.
pub open spec fn due_ids(pending: Seq<PendingEntry>, now: u64) -> Seq<i32>
    decreases pending.len(),
{
    if pending.len() == 0 {
        Seq::empty()
    } else if now >= pending.last().request.due() {
        due_ids(pending.drop_last(), now).push(pending.last().id)
    } else {
        due_ids(pending.drop_last(), now)
    }
}

/// The server did not get ready in time.
pub open spec fn start_is_due(pending: Seq<PendingEntry>, now: u64) -> bool {
    exists|i: int|
        0 <= i < pending.len() && (#[trigger] pending[i]).request is Initialize && now
            >= pending[i].request.due()
}

/// The numbers of the requests of a generation.
pub open spec fn generation_ids(pending: Seq<PendingEntry>, generation: u64) -> Seq<i32>
    decreases pending.len(),
{
    if pending.len() == 0 {
        Seq::empty()
    } else {
        match pending.last().request {
            PendingRequest::Navigation { pending: request, .. } => if request.request.generation
                == generation {
                generation_ids(pending.drop_last(), generation).push(pending.last().id)
            } else {
                generation_ids(pending.drop_last(), generation)
            },
            PendingRequest::Initialize { .. } => generation_ids(pending.drop_last(), generation),
        }
    }
}

/// What is due in a session is given up. A server that did not get ready in time
/// fails with all that it owes.
pub open spec fn expired_one(manager: ManagerRecord, key: KeyRecord, now: u64) -> ManagerRecord {
    match place_of(manager.sessions, key, 0) {
        None => manager,
        Some(at) => if start_is_due(manager.sessions[at].pending, now) {
            failed_at(manager, at, "Language server initialization timed out."@)
        } else {
            retired_all(
                manager,
                key,
                due_ids(manager.sessions[at].pending, now),
                Retirement::TimedOut,
            )
        },
    }
}

pub open spec fn expired_all(manager: ManagerRecord, keys: Seq<KeyRecord>, now: u64) -> ManagerRecord
    decreases keys.len(),
{
    if keys.len() == 0 {
        manager
    } else {
        expired_one(expired_all(manager, keys.drop_last(), now), keys.last(), now)
    }
}

/// The request of a generation that a session keeps until its server is ready is cancelled.
pub open spec fn undeferred(manager: ManagerRecord, at: int, generation: u64) -> ManagerRecord {
    let session = manager.sessions[at];
    match session.deferred {
        Some(pending) => if pending.request.generation == generation {
            released(
                told(
                    ManagerRecord {
                        sessions: manager.sessions.update(
                            at,
                            SessionRecord { deferred: None, ..session },
                        ),
                        ..manager
                    },
                    pending.request,
                    ResultRecord::Cancelled,
                ),
                Some(session.epoch),
                pending.document.permit.bytes as int,
            )
        } else {
            manager
        },
        None => manager,
    }
}

/// What a session does for a generation is cancelled.
pub open spec fn cancelled_one(manager: ManagerRecord, key: KeyRecord, generation: u64) -> ManagerRecord {
    match place_of(manager.sessions, key, 0) {
        None => manager,
        Some(at) => {
            let kept = undeferred(manager, at, generation);
            retired_all(
                kept,
                key,
                generation_ids(kept.sessions[at].pending, generation),
                Retirement::Cancelled,
            )
        },
    }
}

pub open spec fn cancelled_all(manager: ManagerRecord, keys: Seq<KeyRecord>, generation: u64) -> ManagerRecord
    decreases keys.len(),
{
    if keys.len() == 0 {
        manager
    } else {
        cancelled_one(
            cancelled_all(manager, keys.drop_last(), generation),
            keys.last(),
            generation,
        )
    }
}

/// The request of a generation that waits for a comparison is cancelled.
pub open spec fn unwaited_generation(manager: ManagerRecord, generation: u64) -> ManagerRecord {
    match waiting_place(manager.waiting, generation, 0) {
        None => manager,
        Some(at) => released(
            told(
                ManagerRecord { waiting: manager.waiting.remove(at), ..manager },
                manager.waiting[at].pending.request,
                ResultRecord::Cancelled,
            ),
            epoch_of(manager.sessions, manager.waiting[at].key),
            manager.waiting[at].pending.document.permit.bytes as int,
        ),
    }
}

proof fn lemma_retired_key(talk: Talk, id: i32)
    ensures
        retired(talk, id).0.session.key == talk.session.key,
        retired(talk, id).0.session.epoch == talk.session.epoch,
{
    reveal(said);
}

/// The numbers of the entries that are due.
fn due_numbers(pending: &Vec<PendingEntry>, now: u64) -> (ids: Vec<i32>)
    ensures
        ids@ == due_ids(pending@, now),
{
    let mut ids: Vec<i32> = Vec::new();
    let mut index: usize = 0;
    assert(ids@ =~= due_ids(pending@.subrange(0, 0), now));
    while index < pending.len()
        invariant
            index <= pending@.len(),
            ids@ == due_ids(pending@.subrange(0, index as int), now),
        decreases pending@.len() - index,
    {
        assert(pending@.subrange(0, index + 1).drop_last() =~= pending@.subrange(0, index as int));
        if now >= pending[index].request.deadline() {
            ids.push(pending[index].id);
        }
        index = index + 1;
    }
    assert(pending@.subrange(0, pending@.len() as int) =~= pending@);
    ids
}

/// The numbers of the entries of a generation.
fn generation_numbers(pending: &Vec<PendingEntry>, generation: u64) -> (ids: Vec<i32>)
    ensures
        ids@ == generation_ids(pending@, generation),
{
    let mut ids: Vec<i32> = Vec::new();
    let mut index: usize = 0;
    assert(ids@ =~= generation_ids(pending@.subrange(0, 0), generation));
    while index < pending.len()
        invariant
            index <= pending@.len(),
            ids@ == generation_ids(pending@.subrange(0, index as int), generation),
        decreases pending@.len() - index,
    {
        assert(pending@.subrange(0, index + 1).drop_last() =~= pending@.subrange(0, index as int));
        let wanted = match &pending[index].request {
            PendingRequest::Navigation { pending: request, .. } => request.request.generation
                == generation,
            PendingRequest::Initialize { .. } => false,
        };
        if wanted {
            ids.push(pending[index].id);
        }
        index = index + 1;
    }
    assert(pending@.subrange(0, pending@.len() as int) =~= pending@);
    ids
}

fn late_start(pending: &Vec<PendingEntry>, now: u64) -> (late: bool)
    ensures
        late == start_is_due(pending@, now),
{
    let mut index: usize = 0;
    while index < pending.len()
        invariant
            index <= pending@.len(),
            forall|i: int|
                0 <= i < index ==> !((#[trigger] pending@[i]).request is Initialize && now
                    >= pending@[i].request.due()),
        decreases pending@.len() - index,
    {
        let start = match &pending[index].request {
            PendingRequest::Initialize { .. } => true,
            PendingRequest::Navigation { .. } => false,
        };
        if start && now >= pending[index].request.deadline() {
            assert(pending@[index as int].request is Initialize);
            return true;
        }
        index = index + 1;
    }
    false
}

impl NavigationManager {
    /// The keys of the sessions at work.
    fn keys(&self) -> (keys: Vec<SessionKey>)
        ensures
            key_records(keys@) == session_keys(self@.sessions),
    {
        let mut keys: Vec<SessionKey> = Vec::new();
        let mut index: usize = 0;
        while index < self.sessions.len()
            invariant
                index <= self.sessions@.len(),
                keys@.len() == index,
                forall|i: int| 0 <= i < index ==> (#[trigger] keys@[i])@ == self.sessions@[i].key@,
            decreases self.sessions@.len() - index,
        {
            keys.push(self.sessions[index].key.copy());
            index = index + 1;
        }
        assert(key_records(keys@) =~= session_keys(self@.sessions));
        keys
    }

    #[verifier::rlimit(60)]
    fn retire_one(&mut self, key: &SessionKey, id: i32, why: Retirement)
        requires
            old(self).well_formed(),
        ensures
            final(self).well_formed(),
            final(self)@ == retired_one(old(self)@, key@, id, why),
    {
        proof {
            reveal(retired_one);
        }
        let at = match self.find_session(key) {
            None => {
                return;
            },
            Some(at) => at,
        };
        let ghost before = self@;
        let ghost session = self@.sessions[at as int];
        let epoch = self.sessions[at].epoch;
        let ghost place = pending_place(session.pending, id, 0);
        proof {
            assert(session == self.sessions@[at as int]@);
            lemma_pending_place(session.pending, id, 0);
        }
        let entry = self.sessions[at].take_pending(id);
        match entry {
            None => {
                proof {
                    assert(self@.sessions =~= before.sessions);
                    assert(session_keys(self@.sessions) =~= session_keys(before.sessions));
                }
            },
            Some(request) => {
                let ghost taken = ManagerRecord {
                    sessions: before.sessions.update(
                        at as int,
                        without_entry(session, place->0),
                    ),
                    ..before
                };
                proof {
                    assert(self@.sessions =~= taken.sessions);
                    assert(self@ == taken);
                    assert(session_keys(self@.sessions) =~= session_keys(before.sessions));
                }
                if let PendingRequest::Navigation { pending, .. } = request {
                    let ghost (talk, fault) = retired(talk_at(taken, at as int), id);
                    proof {
                        lemma_retired_key(talk_at(taken, at as int), id);
                        assert(taken.sessions[at as int] == self.sessions@[at as int]@);
                    }
                    let retirement = self.sessions[at].retire(&mut self.global, id);
                    proof {
                        assert(self@.sessions =~= taken.sessions.update(at as int, talk.session));
                        assert(self@ == with_talk(taken, at as int, talk));
                        assert(session_keys(self@.sessions) =~= session_keys(before.sessions));
                    }
                    let ghost told_first = self@;
                    self.complete_request(&pending.request, why.result());
                    let ghost answered = self@;
                    let ghost held = pending.document.permit.bytes as int;
                    proof {
                        lemma_told_keys(told_first, pending.request, why.outcome(), None, None);
                        lemma_released_keys(answered, Some(epoch), held);
                    }
                    self.release(Some(epoch), pending.document.permit);
                    if let Err(error) = retirement {
                        let mut words = why.fault();
                        words.push_str(error.message());
                        self.fail_at(at, words);
                    }
                }
            },
        }
    }

    fn retire_all(&mut self, key: &SessionKey, ids: &Vec<i32>, why: Retirement)
        requires
            old(self).well_formed(),
        ensures
            final(self).well_formed(),
            final(self)@ == retired_all(old(self)@, key@, ids@, why),
    {
        let ghost before = self@;
        let mut index: usize = 0;
        assert(ids@.subrange(0, 0) =~= Seq::<i32>::empty());
        while index < ids.len()
            invariant
                index <= ids@.len(),
                self.well_formed(),
                self@ == retired_all(before, key@, ids@.subrange(0, index as int), why),
            decreases ids@.len() - index,
        {
            assert(ids@.subrange(0, index + 1).drop_last() =~= ids@.subrange(0, index as int));
            self.retire_one(key, ids[index], why);
            index = index + 1;
        }
        assert(ids@.subrange(0, ids@.len() as int) =~= ids@);
    }

    fn expire_one(&mut self, key: &SessionKey, now: u64)
        requires
            old(self).well_formed(),
        ensures
            final(self).well_formed(),
            final(self)@ == expired_one(old(self)@, key@, now),
    {
        let at = match self.find_session(key) {
            None => {
                return;
            },
            Some(at) => at,
        };
        assert(self@.sessions[at as int] == self.sessions@[at as int]@);
        if late_start(&self.sessions[at].pending, now) {
            self.fail_at(at, copy_text("Language server initialization timed out."));
            return;
        }
        let ids = due_numbers(&self.sessions[at].pending, now);
        self.retire_all(key, &ids, Retirement::TimedOut);
    }

    /// Gives up what is due by now.
    pub fn expire_requests_at(&mut self, now: u64)
        requires
            old(self).well_formed(),
        ensures
            final(self).well_formed(),
            final(self)@ == expired_all(old(self)@, session_keys(old(self)@.sessions), now),
    {
        let keys = self.keys();
        let ghost before = self@;
        let ghost all = key_records(keys@);
        let mut index: usize = 0;
        assert(all.subrange(0, 0) =~= Seq::<KeyRecord>::empty());
        while index < keys.len()
            invariant
                index <= keys@.len(),
                all == key_records(keys@),
                self.well_formed(),
                self@ == expired_all(before, all.subrange(0, index as int), now),
            decreases keys@.len() - index,
        {
            assert(all.subrange(0, index + 1).drop_last() =~= all.subrange(0, index as int));
            assert(all.subrange(0, index + 1).last() == keys@[index as int]@);
            self.expire_one(&keys[index], now);
            index = index + 1;
        }
        assert(all.subrange(0, all.len() as int) =~= all);
    }

    #[verifier::rlimit(60)]
    fn cancel_one(&mut self, key: &SessionKey, generation: u64)
        requires
            old(self).well_formed(),
        ensures
            final(self).well_formed(),
            final(self)@ == cancelled_one(old(self)@, key@, generation),
    {
        let at = match self.find_session(key) {
            None => {
                return;
            },
            Some(at) => at,
        };
        let ghost before = self@;
        let ghost session = self@.sessions[at as int];
        assert(session == self.sessions@[at as int]@);
        let epoch = self.sessions[at].epoch;
        let wanted = match &self.sessions[at].deferred {
            Some(pending) => pending.request.generation == generation,
            None => false,
        };
        if wanted {
            let deferred = self.sessions[at].deferred.take();
            proof {
                let emptied = SessionRecord { deferred: None, ..session };
                assert(self@.sessions =~= before.sessions.update(at as int, emptied));
                assert(session_keys(self@.sessions) =~= session_keys(before.sessions));
            }
            if let Some(pending) = deferred {
                let ghost first = self@;
                let ghost held = pending.document.permit.bytes as int;
                let ghost asked = pending.request;
                self.complete_request(&pending.request, NavigationProtocolResult::Cancelled);
                proof {
                    lemma_told_keys(first, asked, ResultRecord::Cancelled, None, None);
                    lemma_released_keys(self@, Some(epoch), held);
                }
                self.release(Some(epoch), pending.document.permit);
            }
        }
        assert(self@ == undeferred(before, at as int, generation));
        assert(self@.sessions[at as int] == self.sessions@[at as int]@);
        let ids = generation_numbers(&self.sessions[at].pending, generation);
        self.retire_all(key, &ids, Retirement::Cancelled);
    }

    /// Cancels whatever is done for a generation, wherever it is.
    #[verifier::rlimit(60)]
    pub fn cancel_generation(&mut self, generation: u64)
        requires
            old(self).well_formed(),
        ensures
            final(self).well_formed(),
            ({
                let first = unwaited_generation(old(self)@, generation);
                final(self)@ == cancelled_all(first, session_keys(first.sessions), generation)
            }),
    {
        if let Some(at) = self.find_waiting(generation) {
            let epoch = self.epoch_of(&self.disk_waiting[at].key);
            assert(self@.waiting[at as int] == self.disk_waiting@[at as int]@);
            let waiting = self.remove_waiting(at);
            self.complete_request(&waiting.pending.request, NavigationProtocolResult::Cancelled);
            self.release(epoch, waiting.pending.document.permit);
        }
        let keys = self.keys();
        let ghost before = self@;
        let ghost all = key_records(keys@);
        let mut index: usize = 0;
        assert(all.subrange(0, 0) =~= Seq::<KeyRecord>::empty());
        while index < keys.len()
            invariant
                index <= keys@.len(),
                all == key_records(keys@),
                self.well_formed(),
                self@ == cancelled_all(before, all.subrange(0, index as int), generation),
            decreases keys@.len() - index,
        {
            assert(all.subrange(0, index + 1).drop_last() =~= all.subrange(0, index as int));
            assert(all.subrange(0, index + 1).last() == keys@[index as int]@);
            self.cancel_one(&keys[index], generation);
            index = index + 1;
        }
        assert(all.subrange(0, all.len() as int) =~= all);
    }
}

// What stays ------------------------------------------------------------------------------

/// What the session of a key waits for, if there is one.
pub open spec fn pending_of(manager: ManagerRecord, key: KeyRecord) -> Option<Seq<PendingEntry>> {
    match place_of(manager.sessions, key, 0) {
        None => None,
        Some(at) => Some(manager.sessions[at].pending),
    }
}

/// Two managers have the same sessions that wait for the same.
pub open spec fn same_pending(left: Seq<SessionRecord>, right: Seq<SessionRecord>) -> bool {
    &&& left.len() == right.len()
    &&& forall|i: int|
        0 <= i < left.len() ==> (#[trigger] left[i]).key == right[i].key && left[i].pending
            == right[i].pending
}

proof fn lemma_same_pending(left: ManagerRecord, right: ManagerRecord, key: KeyRecord, from: int)
    requires
        same_pending(left.sessions, right.sessions),
        0 <= from <= left.sessions.len(),
    ensures
        place_of(left.sessions, key, from) == place_of(right.sessions, key, from),
        from == 0 ==> pending_of(left, key) == pending_of(right, key),
    decreases left.sessions.len() - from,
{
    if from < left.sessions.len() {
        lemma_same_pending(left, right, key, from + 1);
    }
    lemma_place_of(left.sessions, key, from);
}

proof fn lemma_told_pending(
    manager: ManagerRecord,
    request: NavigationRuntimeRequest,
    result: ResultRecord,
    epoch: SessionEpoch,
    bytes: int,
)
    ensures
        same_pending(
            released(told(manager, request, result), Some(epoch), bytes).sessions,
            manager.sessions,
        ),
{
}

proof fn lemma_given_up_pending(
    manager: ManagerRecord,
    epoch: SessionEpoch,
    requests: Seq<PendingUserRequest>,
    result: ResultRecord,
)
    ensures
        same_pending(given_up(manager, epoch, requests, result).sessions, manager.sessions),
    decreases requests.len(),
{
    if requests.len() > 0 {
        lemma_given_up_pending(manager, epoch, requests.drop_last(), result);
        lemma_told_pending(
            given_up(manager, epoch, requests.drop_last(), result),
            requests.last().request,
            result,
            epoch,
            requests.last().document.permit.bytes as int,
        );
    }
}

proof fn lemma_place_without(sessions: Seq<SessionRecord>, at: int, key: KeyRecord, from: int)
    requires
        0 <= at < sessions.len(),
        sessions[at].key != key,
        0 <= from <= sessions.len(),
    ensures
        match place_of(sessions, key, from) {
            None => place_of(sessions.remove(at), key, if from > at {
                from - 1
            } else {
                from
            }) is None,
            Some(i) => place_of(sessions.remove(at), key, if from > at {
                from - 1
            } else {
                from
            }) == Some(if i > at {
                i - 1
            } else {
                i
            }),
        },
    decreases sessions.len() - from,
{
    let rest = sessions.remove(at);
    if from < sessions.len() {
        lemma_place_without(sessions, at, key, from + 1);
        if from < at {
            assert(rest[from] == sessions[from]);
        } else if from > at {
            assert(rest[from - 1] == sessions[from]);
        }
    }
}

/// A session that fails is gone, and the others wait for what they waited for.
proof fn lemma_failed_pending(manager: ManagerRecord, at: int, error: Seq<char>, key: KeyRecord)
    requires
        manager.owned_once(),
        0 <= at < manager.sessions.len(),
    ensures
        pending_of(failed_at(manager, at, error), key) == (if key == manager.sessions[at].key {
            None
        } else {
            pending_of(manager, key)
        }),
        failed_at(manager, at, error).owned_once(),
{
    law_failing_answers_every_request(manager, at, error);
    lemma_failed_keys(manager, at, error);
    reveal(failed_at);
    let session = manager.sessions[at];
    let open = ManagerRecord {
        sessions: manager.sessions.update(at, emptied(session)),
        waiting: waiting_for_others(manager.waiting, session.key),
        ..manager
    };
    let requests = owed(session) + waiting_for(manager.waiting, session.key);
    let closed = given_up(open, session.epoch, requests, ResultRecord::Failed(error));
    lemma_given_up_pending(open, session.epoch, requests, ResultRecord::Failed(error));
    if key != session.key {
        lemma_place_without(closed.sessions, at, key, 0);
        lemma_place_without(manager.sessions, at, key, 0);
        lemma_place_of(manager.sessions, key, 0);
        assert forall|i: int| 0 <= i < manager.sessions.len() implies (
        #[trigger] closed.sessions[i]).key == manager.sessions[i].key && (i != at
            ==> closed.sessions[i].pending == manager.sessions[i].pending) by {
            assert(closed.sessions[i].key == open.sessions[i].key);
        }
        lemma_same_keys(closed.sessions, manager.sessions, key, 0);
        lemma_place_of(closed.sessions, key, 0);
    }
}

proof fn lemma_same_keys(
    left: Seq<SessionRecord>,
    right: Seq<SessionRecord>,
    key: KeyRecord,
    from: int,
)
    requires
        left.len() == right.len(),
        forall|i: int| 0 <= i < left.len() ==> (#[trigger] left[i]).key == right[i].key,
        0 <= from <= left.len(),
    ensures
        place_of(left, key, from) == place_of(right, key, from),
    decreases left.len() - from,
{
    if from < left.len() {
        lemma_same_keys(left, right, key, from + 1);
    }
}

/// What giving one request up does to what sessions wait for.
proof fn lemma_retired_one(
    manager: ManagerRecord,
    key: KeyRecord,
    id: i32,
    why: Retirement,
    other: KeyRecord,
)
    requires
        manager.owned_once(),
    ensures
        ({
            let after = retired_one(manager, key, id, why);
            &&& after.owned_once()
            &&& other != key ==> pending_of(after, other) == pending_of(manager, other)
            &&& match pending_of(manager, key) {
                None => pending_of(after, key) is None,
                Some(pending) => pending_of(after, key) is None || pending_of(after, key) == Some(
                    match pending_place(pending, id, 0) {
                        None => pending,
                        Some(place) => pending.remove(place),
                    },
                ),
            }
        }),
{
    reveal(retired_one);
    lemma_place_of(manager.sessions, key, 0);
    let after = retired_one(manager, key, id, why);
    if let Some(at) = place_of(manager.sessions, key, 0) {
        let session = manager.sessions[at];
        lemma_pending_place(session.pending, id, 0);
        if let Some(place) = pending_place(session.pending, id, 0) {
            let taken = ManagerRecord {
                sessions: manager.sessions.update(at, without_entry(session, place)),
                ..manager
            };
            assert(session_keys(taken.sessions) =~= session_keys(manager.sessions));
            lemma_same_keys(taken.sessions, manager.sessions, key, 0);
            lemma_same_keys(taken.sessions, manager.sessions, other, 0);
            lemma_place_of(manager.sessions, other, 0);
            match session.pending[place].request {
                PendingRequest::Initialize { .. } => {},
                PendingRequest::Navigation { pending, .. } => {
                    let (talk, fault) = retired(talk_at(taken, at), id);
                    lemma_retired_key(talk_at(taken, at), id);
                    lemma_retired_waits(talk_at(taken, at), id);
                    let spoken = with_talk(taken, at, talk);
                    assert(same_pending(spoken.sessions, taken.sessions));
                    assert(session_keys(spoken.sessions) =~= session_keys(taken.sessions));
                    let bytes = pending.document.permit.bytes as int;
                    let answered = released(
                        told(spoken, pending.request, why.outcome()),
                        Some(session.epoch),
                        bytes,
                    );
                    lemma_told_pending(
                        spoken,
                        pending.request,
                        why.outcome(),
                        session.epoch,
                        bytes,
                    );
                    lemma_told_keys(spoken, pending.request, why.outcome(), None, None);
                    lemma_released_keys(
                        told(spoken, pending.request, why.outcome()),
                        Some(session.epoch),
                        bytes,
                    );
                    lemma_same_pending(answered, spoken, key, 0);
                    lemma_same_pending(answered, spoken, other, 0);
                    lemma_same_pending(spoken, taken, key, 0);
                    lemma_same_pending(spoken, taken, other, 0);
                    if let Some(error) = fault {
                        let words = why.fault_text() + error.text();
                        lemma_failed_pending(answered, at, words, key);
                        lemma_failed_pending(answered, at, words, other);
                    }
                },
            }
        }
    }
}

proof fn lemma_retired_waits(talk: Talk, id: i32)
    ensures
        retired(talk, id).0.session.pending == talk.session.pending,
{
    reveal(said);
}

/// Entries without those whose numbers are listed.
pub open spec fn is_rest(rest: Seq<PendingEntry>, pending: Seq<PendingEntry>, ids: Seq<i32>) -> bool {
    forall|i: int|
        0 <= i < rest.len() ==> pending.contains(#[trigger] rest[i]) && !ids.contains(rest[i].id)
}

proof fn lemma_retired_all(
    manager: ManagerRecord,
    key: KeyRecord,
    ids: Seq<i32>,
    why: Retirement,
    other: KeyRecord,
)
    requires
        manager.owned_once(),
        pending_of(manager, key) matches Some(pending) ==> distinct_ids(pending),
    ensures
        ({
            let after = retired_all(manager, key, ids, why);
            &&& after.owned_once()
            &&& other != key ==> pending_of(after, other) == pending_of(manager, other)
            &&& pending_of(manager, key) is None ==> pending_of(after, key) is None
            &&& pending_of(after, key) matches Some(rest) ==> distinct_ids(rest) && is_rest(
                rest,
                pending_of(manager, key)->0,
                ids,
            )
        }),
    decreases ids.len(),
{
    if ids.len() == 0 {
        if let Some(pending) = pending_of(manager, key) {
            assert forall|i: int| 0 <= i < pending.len() implies pending.contains(
                #[trigger] pending[i],
            ) by {}
        }
    } else {
        let front = ids.drop_last();
        let id = ids.last();
        lemma_retired_all(manager, key, front, why, other);
        let before = retired_all(manager, key, front, why);
        lemma_retired_one(before, key, id, why, other);
        let after = retired_all(manager, key, ids, why);
        if let Some(rest) = pending_of(after, key) {
            let held = pending_of(before, key)->0;
            lemma_pending_place(held, id, 0);
            assert forall|i: int| 0 <= i < rest.len() implies pending_of(manager, key)->0.contains(
                #[trigger] rest[i],
            ) && !ids.contains(rest[i].id) by {
                let j = match pending_place(held, id, 0) {
                    None => i,
                    Some(place) => if i < place {
                        i
                    } else {
                        i + 1
                    },
                };
                assert(rest[i] == held[j]);
                assert(held[j].id != id);
                assert(!front.contains(held[j].id));
                if ids.contains(rest[i].id) {
                    let k = choose|k: int| 0 <= k < ids.len() && ids[k] == rest[i].id;
                    if k < front.len() {
                        assert(front[k] == rest[i].id);
                    }
                }
            }
            assert forall|i: int, j: int| 0 <= i < j < rest.len() implies (#[trigger] rest[i]).id
                != (#[trigger] rest[j]).id by {
                match pending_place(held, id, 0) {
                    None => {},
                    Some(place) => {
                        let a = if i < place {
                            i
                        } else {
                            i + 1
                        };
                        let b = if j < place {
                            j
                        } else {
                            j + 1
                        };
                        assert(rest[i] == held[a]);
                        assert(rest[j] == held[b]);
                    },
                }
            }
        }
    }
}

proof fn lemma_due_ids(pending: Seq<PendingEntry>, now: u64, at: int)
    requires
        0 <= at < pending.len(),
        now >= pending[at].request.due(),
    ensures
        due_ids(pending, now).contains(pending[at].id),
    decreases pending.len(),
{
    let ids = due_ids(pending, now);
    if at == pending.len() - 1 {
        assert(ids[ids.len() - 1] == pending[at].id);
    } else {
        lemma_due_ids(pending.drop_last(), now, at);
        let front = due_ids(pending.drop_last(), now);
        let i = choose|i: int| 0 <= i < front.len() && front[i] == pending[at].id;
        assert(ids[i] == pending[at].id);
    }
}

proof fn lemma_generation_ids(pending: Seq<PendingEntry>, generation: u64, at: int)
    requires
        0 <= at < pending.len(),
        is_for(pending[at].request, generation),
    ensures
        generation_ids(pending, generation).contains(pending[at].id),
    decreases pending.len(),
{
    let ids = generation_ids(pending, generation);
    if at == pending.len() - 1 {
        assert(ids[ids.len() - 1] == pending[at].id);
    } else {
        lemma_generation_ids(pending.drop_last(), generation, at);
        let front = generation_ids(pending.drop_last(), generation);
        let i = choose|i: int| 0 <= i < front.len() && front[i] == pending[at].id;
        assert(ids[i] == pending[at].id);
    }
}

/// Nothing that is waited for is due.
pub open spec fn none_due(pending: Seq<PendingEntry>, now: u64) -> bool {
    forall|i: int| 0 <= i < pending.len() ==> now < (#[trigger] pending[i]).request.due()
}

/// A request is one of a generation.
pub open spec fn is_for(request: PendingRequest, generation: u64) -> bool {
    request matches PendingRequest::Navigation { pending, .. } && pending.request.generation
        == generation
}

/// Nothing of a generation is waited for.
pub open spec fn none_for(pending: Seq<PendingEntry>, generation: u64) -> bool {
    forall|i: int| 0 <= i < pending.len() ==> !is_for((#[trigger] pending[i]).request, generation)
}

/// No session waits for a number twice.
pub open spec fn all_distinct_ids(manager: ManagerRecord) -> bool {
    forall|key: KeyRecord|
        (#[trigger] pending_of(manager, key)) matches Some(pending) ==> distinct_ids(pending)
}

proof fn lemma_expired_one(manager: ManagerRecord, key: KeyRecord, now: u64, other: KeyRecord)
    requires
        manager.owned_once(),
        all_distinct_ids(manager),
    ensures
        ({
            let after = expired_one(manager, key, now);
            &&& after.owned_once()
            &&& all_distinct_ids(after)
            &&& other != key ==> pending_of(after, other) == pending_of(manager, other)
            &&& pending_of(after, key) matches Some(pending) ==> none_due(pending, now)
        }),
{
    let after = expired_one(manager, key, now);
    lemma_place_of(manager.sessions, key, 0);
    if let Some(at) = place_of(manager.sessions, key, 0) {
        let pending = manager.sessions[at].pending;
        assert(pending_of(manager, key) == Some(pending));
        if start_is_due(pending, now) {
            let words = "Language server initialization timed out."@;
            lemma_failed_pending(manager, at, words, key);
            lemma_failed_pending(manager, at, words, other);
            assert forall|third: KeyRecord|
                (#[trigger] pending_of(after, third)) matches Some(rest) ==> distinct_ids(rest) by {
                lemma_failed_pending(manager, at, words, third);
                assert(pending_of(manager, third) matches Some(rest) ==> distinct_ids(rest));
            }
        } else {
            let ids = due_ids(pending, now);
            lemma_retired_all(manager, key, ids, Retirement::TimedOut, other);
            assert forall|third: KeyRecord|
                (#[trigger] pending_of(after, third)) matches Some(rest) ==> distinct_ids(rest) by {
                lemma_retired_all(manager, key, ids, Retirement::TimedOut, third);
                assert(pending_of(manager, third) matches Some(rest) ==> distinct_ids(rest));
            }
            if let Some(rest) = pending_of(after, key) {
                assert forall|i: int| 0 <= i < rest.len() implies now < (
                #[trigger] rest[i]).request.due() by {
                    assert(pending.contains(rest[i]));
                    let j = choose|j: int| 0 <= j < pending.len() && pending[j] == rest[i];
                    if now >= rest[i].request.due() {
                        lemma_due_ids(pending, now, j);
                    }
                }
            }
        }
    }
}

proof fn lemma_expired_all(manager: ManagerRecord, keys: Seq<KeyRecord>, now: u64, key: KeyRecord)
    requires
        manager.owned_once(),
        all_distinct_ids(manager),
    ensures
        ({
            let after = expired_all(manager, keys, now);
            &&& after.owned_once()
            &&& all_distinct_ids(after)
            &&& !keys.contains(key) ==> pending_of(after, key) == pending_of(manager, key)
            &&& keys.contains(key) ==> (pending_of(after, key) matches Some(pending) ==> none_due(
                pending,
                now,
            ))
        }),
    decreases keys.len(),
{
    if keys.len() > 0 {
        let front = keys.drop_last();
        lemma_expired_all(manager, front, now, key);
        lemma_expired_one(expired_all(manager, front, now), keys.last(), now, key);
        if keys.contains(key) && key != keys.last() {
            let i = choose|i: int| 0 <= i < keys.len() && keys[i] == key;
            assert(front[i] == key);
        }
        if !keys.contains(key) {
            if front.contains(key) {
                let i = choose|i: int| 0 <= i < front.len() && front[i] == key;
                assert(keys[i] == key);
            }
            assert(keys[keys.len() - 1] != key);
        }
    }
}

/// After what is due was given up, no session waits for anything that is due.
pub proof fn law_nothing_due_stays(manager: ManagerRecord, now: u64, key: KeyRecord)
    requires
        manager.owned_once(),
        all_distinct_ids(manager),
    ensures
        pending_of(
            expired_all(manager, session_keys(manager.sessions), now),
            key,
        ) matches Some(pending) ==> none_due(pending, now),
{
    let keys = session_keys(manager.sessions);
    lemma_expired_all(manager, keys, now, key);
    lemma_place_of(manager.sessions, key, 0);
    if let Some(at) = place_of(manager.sessions, key, 0) {
        assert(keys[at] == key);
    }
}

proof fn lemma_cancelled_one(
    manager: ManagerRecord,
    key: KeyRecord,
    generation: u64,
    other: KeyRecord,
)
    requires
        manager.owned_once(),
        all_distinct_ids(manager),
    ensures
        ({
            let after = cancelled_one(manager, key, generation);
            &&& after.owned_once()
            &&& all_distinct_ids(after)
            &&& other != key ==> pending_of(after, other) == pending_of(manager, other)
            &&& pending_of(after, key) matches Some(pending) ==> none_for(pending, generation)
        }),
{
    let after = cancelled_one(manager, key, generation);
    lemma_place_of(manager.sessions, key, 0);
    if let Some(at) = place_of(manager.sessions, key, 0) {
        let kept = undeferred(manager, at, generation);
        let session = manager.sessions[at];
        assert(same_pending(kept.sessions, manager.sessions) && kept.owned_once()) by {
            if let Some(pending) = session.deferred {
                if pending.request.generation == generation {
                    let freed = ManagerRecord {
                        sessions: manager.sessions.update(
                            at,
                            SessionRecord { deferred: None, ..session },
                        ),
                        ..manager
                    };
                    let bytes = pending.document.permit.bytes as int;
                    assert(session_keys(freed.sessions) =~= session_keys(manager.sessions));
                    lemma_told_pending(
                        freed,
                        pending.request,
                        ResultRecord::Cancelled,
                        session.epoch,
                        bytes,
                    );
                    lemma_told_keys(freed, pending.request, ResultRecord::Cancelled, None, None);
                    lemma_released_keys(
                        told(freed, pending.request, ResultRecord::Cancelled),
                        Some(session.epoch),
                        bytes,
                    );
                }
            }
        }
        let pending = session.pending;
        assert(pending_of(manager, key) == Some(pending));
        let ids = generation_ids(kept.sessions[at].pending, generation);
        assert(kept.sessions[at].pending == pending);
        lemma_same_pending(kept, manager, key, 0);
        lemma_same_pending(kept, manager, other, 0);
        lemma_retired_all(kept, key, ids, Retirement::Cancelled, other);
        assert forall|third: KeyRecord|
            (#[trigger] pending_of(after, third)) matches Some(rest) ==> distinct_ids(rest) by {
            lemma_same_pending(kept, manager, third, 0);
            lemma_retired_all(kept, key, ids, Retirement::Cancelled, third);
            assert(pending_of(manager, third) matches Some(rest) ==> distinct_ids(rest));
        }
        if let Some(rest) = pending_of(after, key) {
            assert forall|i: int| 0 <= i < rest.len() implies !is_for(
                (#[trigger] rest[i]).request,
                generation,
            ) by {
                assert(pending.contains(rest[i]));
                let j = choose|j: int| 0 <= j < pending.len() && pending[j] == rest[i];
                if is_for(rest[i].request, generation) {
                    lemma_generation_ids(pending, generation, j);
                }
            }
        }
    }
}

proof fn lemma_cancelled_all(
    manager: ManagerRecord,
    keys: Seq<KeyRecord>,
    generation: u64,
    key: KeyRecord,
)
    requires
        manager.owned_once(),
        all_distinct_ids(manager),
    ensures
        ({
            let after = cancelled_all(manager, keys, generation);
            &&& after.owned_once()
            &&& all_distinct_ids(after)
            &&& !keys.contains(key) ==> pending_of(after, key) == pending_of(manager, key)
            &&& keys.contains(key) ==> (pending_of(after, key) matches Some(pending) ==> none_for(
                pending,
                generation,
            ))
        }),
    decreases keys.len(),
{
    if keys.len() > 0 {
        let front = keys.drop_last();
        lemma_cancelled_all(manager, front, generation, key);
        lemma_cancelled_one(
            cancelled_all(manager, front, generation),
            keys.last(),
            generation,
            key,
        );
        if keys.contains(key) && key != keys.last() {
            let i = choose|i: int| 0 <= i < keys.len() && keys[i] == key;
            assert(front[i] == key);
        }
        if !keys.contains(key) {
            if front.contains(key) {
                let i = choose|i: int| 0 <= i < front.len() && front[i] == key;
                assert(keys[i] == key);
            }
            assert(keys[keys.len() - 1] != key);
        }
    }
}

/// After a generation was cancelled, no session waits for an answer to it.
pub proof fn law_nothing_cancelled_stays(manager: ManagerRecord, generation: u64, key: KeyRecord)
    requires
        manager.owned_once(),
        all_distinct_ids(manager),
    ensures
        pending_of(
            cancelled_all(manager, session_keys(manager.sessions), generation),
            key,
        ) matches Some(pending) ==> none_for(pending, generation),
{
    let keys = session_keys(manager.sessions);
    lemma_cancelled_all(manager, keys, generation, key);
    lemma_place_of(manager.sessions, key, 0);
    if let Some(at) = place_of(manager.sessions, key, 0) {
        assert(keys[at] == key);
    }
}

// Who is retired --------------------------------------------------------------------------

/// The requests that are timed out are those whose time has come, and those that are
/// cancelled belong to the generation that is; in the order in which they were sent.
pub proof fn law_only_what_is_due_is_retired(
    pending: Seq<PendingEntry>,
    last: PendingEntry,
    now: u64,
    generation: u64,
)
    ensures
        due_ids(Seq::empty(), now).len() == 0,
        due_ids(pending.push(last), now) == (if last.request.due() <= now {
            due_ids(pending, now).push(last.id)
        } else {
            due_ids(pending, now)
        }),
        generation_ids(Seq::empty(), generation).len() == 0,
        generation_ids(pending.push(last), generation) == (if is_for(last.request, generation) {
            generation_ids(pending, generation).push(last.id)
        } else {
            generation_ids(pending, generation)
        }),
{
    assert(pending.push(last).drop_last() =~= pending);
}

} // verus!
