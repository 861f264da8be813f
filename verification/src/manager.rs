//! All sessions together: which requests they serve and what becomes of them.

use crate::bytes::to_vec;
use crate::completions::{
    completion_records, permits_in, pushed, pushed_all, symbol_completion_records,
    CompletionQueue, CompletionRecord, LeasedPermit, NavigationDocumentSymbolCompletion,
    NavigationProtocolResult, NavigationRuntimeCompletion, QueuedCompletion, ResultRecord,
    SymbolCompletionRecord, NAVIGATION_COMPLETION_CAPACITY,
};
use crate::disk::{DiskRevalidationLane, LaneRecord};
use crate::document::ContentIdentity;
use crate::failures::{forgiven, is_stable, BookRecord, FailureBook};
use crate::locations::{location_entries, total_charge, ProtocolLocation};
use crate::outline::{document_symbols, symbols_charge, ProtocolDocumentSymbol};
use crate::paths::PathStyle;
use crate::payload::{GlobalPayloadBudget, PayloadPermit};
use crate::rpc::SessionEpoch;
use crate::session::{
    emptied, owed, KeyRecord, LspSession, NavigationRuntimeRequest, PendingUserRequest,
    ServerState, SessionKey, SessionRecord,
};
use crate::settings::NavigationSettings;
use crate::text::copy_text;
use vstd::prelude::*;

verus! {

/// A session that failed and is not cleaned up yet.
#[derive(Debug)]
pub struct FailedSession {
    pub session: LspSession,
    pub error: String,
}

pub struct FailedRecord {
    pub session: SessionRecord,
    pub error: Seq<char>,
}

impl View for FailedSession {
    type V = FailedRecord;

    open spec fn view(&self) -> FailedRecord {
        FailedRecord { session: self.session@, error: self.error@ }
    }
}

/// A request whose source is compared with the disk first.
#[derive(Debug)]
pub struct WaitingRequest {
    pub key: SessionKey,
    pub pending: PendingUserRequest,
}

pub struct WaitingRecord {
    pub key: KeyRecord,
    pub pending: PendingUserRequest,
}

impl View for WaitingRequest {
    type V = WaitingRecord;

    open spec fn view(&self) -> WaitingRecord {
        WaitingRecord { key: self.key@, pending: self.pending }
    }
}

/// How cleanups ended.
#[derive(Clone, Copy, Debug, PartialEq, Eq, Structural)]
pub struct NavigationCleanupSnapshot {
    pub sessions_cleaned: usize,
    pub clean_exits: usize,
    pub forced_tree_cleanups: usize,
    pub direct_children_reaped: usize,
    pub io_threads_joined: usize,
    pub process_owners_dropped: usize,
    pub quarantined_process_owners: usize,
}

impl Default for NavigationCleanupSnapshot {
    fn default() -> (snapshot: Self)
        ensures
            snapshot == (NavigationCleanupSnapshot {
                sessions_cleaned: 0,
                clean_exits: 0,
                forced_tree_cleanups: 0,
                direct_children_reaped: 0,
                io_threads_joined: 0,
                process_owners_dropped: 0,
                quarantined_process_owners: 0,
            }),
    {
        NavigationCleanupSnapshot {
            sessions_cleaned: 0,
            clean_exits: 0,
            forced_tree_cleanups: 0,
            direct_children_reaped: 0,
            io_threads_joined: 0,
            process_owners_dropped: 0,
            quarantined_process_owners: 0,
        }
    }
}

/// The sessions and everything that they share.
#[derive(Debug)]
pub struct NavigationManager {
    /// How paths are written.
    pub style: PathStyle,
    pub workspace_root: Vec<u8>,
    pub settings: NavigationSettings,
    pub global: GlobalPayloadBudget,
    pub sessions: Vec<LspSession>,
    pub failed: Vec<FailedSession>,
    /// Sessions whose processes could not be brought to an end.
    pub quarantined: Vec<LspSession>,
    /// The same of processes that never became a session.
    pub quarantined_spawns: Vec<SessionKey>,
    pub book: FailureBook,
    pub completions: CompletionQueue,
    pub next_epoch: u64,
    pub disk_lane: Option<DiskRevalidationLane>,
    pub disk_waiting: Vec<WaitingRequest>,
    pub stats: NavigationCleanupSnapshot,
}

/// What a manager holds.
pub struct ManagerRecord {
    pub style: PathStyle,
    pub root: Seq<u8>,
    pub settings: NavigationSettings,
    pub global: GlobalPayloadBudget,
    pub sessions: Seq<SessionRecord>,
    pub failed: Seq<FailedRecord>,
    pub quarantined: Seq<SessionRecord>,
    pub spawns: Seq<KeyRecord>,
    pub book: BookRecord,
    pub completions: Seq<CompletionRecord>,
    pub symbols: Seq<SymbolCompletionRecord>,
    pub leased: Seq<LeasedPermit>,
    pub next_epoch: u64,
    pub lane: Option<LaneRecord>,
    pub waiting: Seq<WaitingRecord>,
    pub stats: NavigationCleanupSnapshot,
}

pub open spec fn session_records(sessions: Seq<LspSession>) -> Seq<SessionRecord> {
    Seq::new(sessions.len(), |i: int| sessions[i]@)
}

pub open spec fn failed_records(failed: Seq<FailedSession>) -> Seq<FailedRecord> {
    Seq::new(failed.len(), |i: int| failed[i]@)
}

pub open spec fn key_records(keys: Seq<SessionKey>) -> Seq<KeyRecord> {
    Seq::new(keys.len(), |i: int| keys[i]@)
}

pub open spec fn waiting_records(waiting: Seq<WaitingRequest>) -> Seq<WaitingRecord> {
    Seq::new(waiting.len(), |i: int| waiting[i]@)
}

impl View for NavigationManager {
    type V = ManagerRecord;

    open spec fn view(&self) -> ManagerRecord {
        ManagerRecord {
            style: self.style,
            root: self.workspace_root@,
            settings: self.settings,
            global: self.global,
            sessions: session_records(self.sessions@),
            failed: failed_records(self.failed@),
            quarantined: session_records(self.quarantined@),
            spawns: key_records(self.quarantined_spawns@),
            book: self.book@,
            completions: completion_records(self.completions.queued@),
            symbols: symbol_completion_records(self.completions.symbols@),
            leased: self.completions.leased@,
            next_epoch: self.next_epoch,
            lane: match self.disk_lane {
                Some(lane) => Some(lane@),
                None => None,
            },
            waiting: waiting_records(self.disk_waiting@),
            stats: self.stats,
        }
    }
}

// Keys ------------------------------------------------------------------------------------

pub open spec fn session_keys(sessions: Seq<SessionRecord>) -> Seq<KeyRecord> {
    Seq::new(sessions.len(), |i: int| sessions[i].key)
}

pub open spec fn failed_keys(failed: Seq<FailedRecord>) -> Seq<KeyRecord> {
    Seq::new(failed.len(), |i: int| failed[i].session.key)
}

pub open spec fn distinct(keys: Seq<KeyRecord>) -> bool {
    forall|i: int, j: int| 0 <= i < j < keys.len() ==> #[trigger] keys[i] != #[trigger] keys[j]
}

pub open spec fn apart(left: Seq<KeyRecord>, right: Seq<KeyRecord>) -> bool {
    forall|i: int, j: int|
        0 <= i < left.len() && 0 <= j < right.len() ==> #[trigger] left[i] != #[trigger] right[j]
}

/// No key has two owners, be they at work, failed or quarantined.
pub open spec fn owned_once(
    sessions: Seq<KeyRecord>,
    failed: Seq<KeyRecord>,
    quarantined: Seq<KeyRecord>,
    spawns: Seq<KeyRecord>,
) -> bool {
    &&& distinct(sessions)
    &&& distinct(failed)
    &&& distinct(quarantined)
    &&& distinct(spawns)
    &&& apart(sessions, failed)
    &&& apart(sessions, quarantined)
    &&& apart(sessions, spawns)
    &&& apart(failed, quarantined)
    &&& apart(failed, spawns)
    &&& apart(quarantined, spawns)
}

impl ManagerRecord {
    pub open spec fn owned_once(self) -> bool {
        owned_once(
            session_keys(self.sessions),
            failed_keys(self.failed),
            session_keys(self.quarantined),
            self.spawns,
        )
    }

    /// A request waits only for a session that is at work.
    pub open spec fn waits_for_sessions(self) -> bool {
        forall|i: int|
            0 <= i < self.waiting.len() ==> session_keys(self.sessions).contains(
                (#[trigger] self.waiting[i]).key,
            )
    }
}

pub open spec fn all_sound(sessions: Seq<LspSession>) -> bool {
    forall|i: int| 0 <= i < sessions.len() ==> (#[trigger] sessions[i]).well_formed()
}

pub open spec fn all_failed_sound(failed: Seq<FailedSession>) -> bool {
    forall|i: int| 0 <= i < failed.len() ==> (#[trigger] failed[i]).session.well_formed()
}

pub open spec fn all_waiting_sound(waiting: Seq<WaitingRequest>) -> bool {
    forall|i: int| 0 <= i < waiting.len() ==> (#[trigger] waiting[i]).pending.well_formed()
}

impl NavigationManager {
    pub open spec fn well_formed(&self) -> bool {
        &&& self.global.well_formed()
        &&& all_sound(self.sessions@)
        &&& all_failed_sound(self.failed@)
        &&& all_sound(self.quarantined@)
        &&& all_waiting_sound(self.disk_waiting@)
        &&& self.completions.well_formed()
        &&& self@.owned_once()
        &&& self@.waits_for_sessions()
    }

    pub fn new(
        style: PathStyle,
        workspace_root: Vec<u8>,
        settings: NavigationSettings,
        lane: bool,
    ) -> (manager: Self)
        ensures
            manager@.style == style,
            manager.well_formed(),
            manager@.root == workspace_root@,
            manager@.settings == settings,
            manager@.global.pool.used == 0,
            manager@.sessions.len() == 0,
            manager@.failed.len() == 0,
            manager@.quarantined.len() == 0,
            manager@.spawns.len() == 0,
            manager@.book.backoffs == Map::<KeyRecord, crate::failures::BackoffRecord>::empty(),
            manager@.book.permanent == Map::<KeyRecord, Seq<char>>::empty(),
            manager@.completions.len() == 0,
            manager@.symbols.len() == 0,
            manager@.leased.len() == 0,
            manager@.next_epoch == 1,
            manager@.lane == (if lane {
                Some(LaneRecord { queued: None, active_deadline: None, wedged: false })
            } else {
                None
            }),
            manager@.waiting.len() == 0,
            manager@.stats == (NavigationCleanupSnapshot {
                sessions_cleaned: 0,
                clean_exits: 0,
                forced_tree_cleanups: 0,
                direct_children_reaped: 0,
                io_threads_joined: 0,
                process_owners_dropped: 0,
                quarantined_process_owners: 0,
            }),
    {
        NavigationManager {
            style,
            workspace_root,
            settings,
            global: GlobalPayloadBudget::default(),
            sessions: Vec::new(),
            failed: Vec::new(),
            quarantined: Vec::new(),
            quarantined_spawns: Vec::new(),
            book: FailureBook::new(),
            completions: CompletionQueue::new(),
            next_epoch: 1,
            disk_lane: if lane {
                Some(DiskRevalidationLane::start())
            } else {
                None
            },
            disk_waiting: Vec::new(),
            stats: NavigationCleanupSnapshot::default(),
        }
    }
}

// Permits ---------------------------------------------------------------------------------

/// A session after bytes were handed back to the session of an epoch.
pub open spec fn less_charged(session: SessionRecord, epoch: Option<SessionEpoch>, bytes: int) -> SessionRecord {
    if Some(session.epoch) == epoch {
        SessionRecord { budget: session.budget.without(bytes), ..session }
    } else {
        session
    }
}

pub open spec fn all_less_charged(
    sessions: Seq<SessionRecord>,
    epoch: Option<SessionEpoch>,
    bytes: int,
) -> Seq<SessionRecord> {
    Seq::new(sessions.len(), |i: int| less_charged(sessions[i], epoch, bytes))
}

pub open spec fn all_failed_less_charged(
    failed: Seq<FailedRecord>,
    epoch: Option<SessionEpoch>,
    bytes: int,
) -> Seq<FailedRecord> {
    Seq::new(
        failed.len(),
        |i: int|
            FailedRecord {
                session: less_charged(failed[i].session, epoch, bytes),
                error: failed[i].error,
            },
    )
}

/// Bytes are handed back to what all sessions share, and to the session of the
/// epoch wherever it is now.
pub open spec fn released(manager: ManagerRecord, epoch: Option<SessionEpoch>, bytes: int) -> ManagerRecord {
    ManagerRecord {
        global: manager.global.without(bytes),
        sessions: all_less_charged(manager.sessions, epoch, bytes),
        failed: all_failed_less_charged(manager.failed, epoch, bytes),
        quarantined: all_less_charged(manager.quarantined, epoch, bytes),
        ..manager
    }
}

proof fn lemma_less_charged(session: SessionRecord, epoch: Option<SessionEpoch>, first: int, second: int)
    requires
        0 <= first,
        0 <= second,
    ensures
        less_charged(less_charged(session, epoch, first), epoch, second) == less_charged(
            session,
            epoch,
            first + second,
        ),
{
}

/// Handing back in two parts is handing back at once.
pub proof fn law_permits_add_up(
    manager: ManagerRecord,
    epoch: Option<SessionEpoch>,
    first: int,
    second: int,
)
    requires
        0 <= first,
        0 <= second,
    ensures
        released(released(manager, epoch, first), epoch, second) == released(
            manager,
            epoch,
            first + second,
        ),
{
    let twice = released(released(manager, epoch, first), epoch, second);
    let once = released(manager, epoch, first + second);
    assert forall|i: int| 0 <= i < manager.sessions.len() implies twice.sessions[i]
        == once.sessions[i] by {
        lemma_less_charged(manager.sessions[i], epoch, first, second);
    }
    assert(twice.sessions =~= once.sessions);
    assert forall|i: int| 0 <= i < manager.failed.len() implies twice.failed[i]
        == once.failed[i] by {
        lemma_less_charged(manager.failed[i].session, epoch, first, second);
    }
    assert(twice.failed =~= once.failed);
    assert forall|i: int| 0 <= i < manager.quarantined.len() implies twice.quarantined[i]
        == once.quarantined[i] by {
        lemma_less_charged(manager.quarantined[i], epoch, first, second);
    }
    assert(twice.quarantined =~= once.quarantined);
}

pub proof fn lemma_released_keys(manager: ManagerRecord, epoch: Option<SessionEpoch>, bytes: int)
    ensures
        session_keys(released(manager, epoch, bytes).sessions) == session_keys(manager.sessions),
        failed_keys(released(manager, epoch, bytes).failed) == failed_keys(manager.failed),
        session_keys(released(manager, epoch, bytes).quarantined) == session_keys(
            manager.quarantined,
        ),
{
    let after = released(manager, epoch, bytes);
    assert(session_keys(after.sessions) =~= session_keys(manager.sessions));
    assert(failed_keys(after.failed) =~= failed_keys(manager.failed));
    assert(session_keys(after.quarantined) =~= session_keys(manager.quarantined));
}

fn release_in(sessions: &mut Vec<LspSession>, epoch: SessionEpoch, bytes: usize)
    requires
        all_sound(old(sessions)@),
    ensures
        all_sound(final(sessions)@),
        session_records(final(sessions)@) == all_less_charged(
            session_records(old(sessions)@),
            Some(epoch),
            bytes as int,
        ),
{
    let mut index: usize = 0;
    let ghost before = sessions@;
    while index < sessions.len()
        invariant
            index <= sessions@.len(),
            sessions@.len() == before.len(),
            all_sound(sessions@),
            forall|i: int|
                0 <= i < index ==> (#[trigger] sessions@[i])@ == less_charged(
                    before[i]@,
                    Some(epoch),
                    bytes as int,
                ),
            forall|i: int| index <= i < sessions@.len() ==> sessions@[i] == before[i],
        decreases sessions@.len() - index,
    {
        if sessions[index].epoch == epoch {
            sessions[index].budget.session.release(bytes);
        }
        index = index + 1;
    }
    assert(session_records(sessions@) =~= all_less_charged(
        session_records(before),
        Some(epoch),
        bytes as int,
    ));
}

fn release_in_failed(failed: &mut Vec<FailedSession>, epoch: SessionEpoch, bytes: usize)
    requires
        all_failed_sound(old(failed)@),
    ensures
        all_failed_sound(final(failed)@),
        failed_records(final(failed)@) == all_failed_less_charged(
            failed_records(old(failed)@),
            Some(epoch),
            bytes as int,
        ),
{
    let mut index: usize = 0;
    let ghost before = failed@;
    while index < failed.len()
        invariant
            index <= failed@.len(),
            failed@.len() == before.len(),
            all_failed_sound(failed@),
            forall|i: int|
                0 <= i < index ==> (#[trigger] failed@[i])@ == (FailedRecord {
                    session: less_charged(before[i].session@, Some(epoch), bytes as int),
                    error: before[i].error@,
                }),
            forall|i: int| index <= i < failed@.len() ==> failed@[i] == before[i],
        decreases failed@.len() - index,
    {
        if failed[index].session.epoch == epoch {
            failed[index].session.budget.session.release(bytes);
        }
        index = index + 1;
    }
    assert(failed_records(failed@) =~= all_failed_less_charged(
        failed_records(before),
        Some(epoch),
        bytes as int,
    ));
}

impl NavigationManager {
    /// Hands a permit back to the session that it counts in.
    pub fn release(&mut self, epoch: Option<SessionEpoch>, permit: PayloadPermit)
        requires
            old(self).well_formed(),
        ensures
            final(self).well_formed(),
            final(self)@ == released(old(self)@, epoch, permit.bytes as int),
    {
        let ghost before = self@;
        self.global.pool.release(permit.bytes);
        if let Some(epoch) = epoch {
            release_in(&mut self.sessions, epoch, permit.bytes);
            release_in_failed(&mut self.failed, epoch, permit.bytes);
            release_in(&mut self.quarantined, epoch, permit.bytes);
        }
        proof {
            let bytes = permit.bytes as int;
            let after = released(before, epoch, bytes);
            assert(self@.sessions =~= after.sessions);
            assert(self@.failed =~= after.failed);
            assert(self@.quarantined =~= after.quarantined);
            assert(self@ == after);
            lemma_released_keys(before, epoch, bytes);
        }
    }
}

// Results ---------------------------------------------------------------------------------

/// The result of a request.
pub open spec fn completion_of(
    request: NavigationRuntimeRequest,
    result: ResultRecord,
    epoch: Option<SessionEpoch>,
    permit: Option<int>,
) -> CompletionRecord {
    CompletionRecord {
        generation: request.generation,
        operation: request.operation,
        identity: request.source.identity.bytes@,
        version: request.version,
        result,
        epoch,
        permit,
    }
}

/// What a result holds charged.
pub open spec fn completion_charge(completion: CompletionRecord) -> int {
    (match completion.permit {
        Some(bytes) => bytes,
        None => 0,
    }) + (match completion.result {
        ResultRecord::Locations(entries) => total_charge(entries),
        _ => 0,
    })
}

/// A request has its result. If too many results wait, the oldest goes.
pub open spec fn completed(
    manager: ManagerRecord,
    request: NavigationRuntimeRequest,
    result: ResultRecord,
    epoch: Option<SessionEpoch>,
    permit: Option<int>,
) -> ManagerRecord {
    let freed = if manager.completions.len() >= NAVIGATION_COMPLETION_CAPACITY {
        released(
            manager,
            manager.completions[0].epoch,
            completion_charge(manager.completions[0]),
        )
    } else {
        manager
    };
    ManagerRecord {
        completions: pushed(
            manager.completions,
            completion_of(request, result, epoch, permit),
        ),
        ..freed
    }
}

/// A request has its result, and the result holds nothing charged.
pub open spec fn told(
    manager: ManagerRecord,
    request: NavigationRuntimeRequest,
    result: ResultRecord,
) -> ManagerRecord {
    completed(manager, request, result, None, None)
}

/// The symbols of a document were found.
pub open spec fn outlined(
    manager: ManagerRecord,
    request: NavigationRuntimeRequest,
    symbols: Seq<crate::outline::DocumentSymbolRecord>,
    epoch: SessionEpoch,
) -> ManagerRecord {
    let freed = if manager.symbols.len() >= NAVIGATION_COMPLETION_CAPACITY {
        released(
            manager,
            Some(manager.symbols[0].epoch),
            symbols_charge(manager.symbols[0].symbols),
        )
    } else {
        manager
    };
    ManagerRecord {
        symbols: pushed(
            manager.symbols,
            SymbolCompletionRecord {
                generation: request.generation,
                identity: request.source.identity.bytes@,
                version: request.version,
                symbols,
                epoch,
            },
        ),
        ..freed
    }
}

proof fn lemma_release_nothing(manager: ManagerRecord, epoch: Option<SessionEpoch>)
    ensures
        released(manager, epoch, 0) == manager,
{
    let after = released(manager, epoch, 0);
    assert(after.sessions =~= manager.sessions);
    assert(after.failed =~= manager.failed);
    assert(after.quarantined =~= manager.quarantined);
    assert(after.global == manager.global);
}

proof fn lemma_charges_are_not_negative(locations: Seq<ProtocolLocation>)
    ensures
        total_charge(location_entries(locations)) >= 0,
    decreases locations.len(),
{
    if locations.len() > 0 {
        lemma_charges_are_not_negative(locations.drop_last());
        assert(location_entries(locations).drop_last() =~= location_entries(locations.drop_last()));
    }
}

proof fn lemma_symbol_charges_are_not_negative(symbols: Seq<ProtocolDocumentSymbol>)
    ensures
        symbols_charge(document_symbols(symbols)) >= 0,
    decreases symbols.len(),
{
    if symbols.len() > 0 {
        lemma_symbol_charges_are_not_negative(symbols.drop_last());
        assert(document_symbols(symbols).drop_last() =~= document_symbols(symbols.drop_last()));
    }
}

impl NavigationManager {
    /// Hands the permits of locations back.
    pub fn release_locations(
        &mut self,
        epoch: Option<SessionEpoch>,
        locations: Vec<ProtocolLocation>,
    )
        requires
            old(self).well_formed(),
        ensures
            final(self).well_formed(),
            final(self)@ == released(
                old(self)@,
                epoch,
                total_charge(location_entries(locations@)),
            ),
    {
        let mut locations = locations;
        let ghost whole = released(self@, epoch, total_charge(location_entries(locations@)));
        while locations.len() > 0
            invariant
                self.well_formed(),
                whole == released(self@, epoch, total_charge(location_entries(locations@))),
            decreases locations@.len(),
        {
            let ghost before = locations@;
            let ghost held = self@;
            match locations.pop() {
                None => {},
                Some(location) => {
                    let ghost rest = total_charge(location_entries(locations@));
                    proof {
                        lemma_charges_are_not_negative(locations@);
                        assert(location_entries(before).drop_last() =~= location_entries(
                            locations@,
                        ));
                        assert(location_entries(before).last() == location@);
                        law_permits_add_up(held, epoch, location.permit.bytes as int, rest);
                    }
                    self.release(epoch, location.permit);
                },
            }
        }
        proof {
            lemma_release_nothing(self@, epoch);
        }
    }

    /// Hands the permits of symbols back.
    pub fn release_symbols(
        &mut self,
        epoch: Option<SessionEpoch>,
        symbols: Vec<ProtocolDocumentSymbol>,
    )
        requires
            old(self).well_formed(),
        ensures
            final(self).well_formed(),
            final(self)@ == released(
                old(self)@,
                epoch,
                symbols_charge(document_symbols(symbols@)),
            ),
    {
        let mut symbols = symbols;
        let ghost whole = released(self@, epoch, symbols_charge(document_symbols(symbols@)));
        while symbols.len() > 0
            invariant
                self.well_formed(),
                whole == released(self@, epoch, symbols_charge(document_symbols(symbols@))),
            decreases symbols@.len(),
        {
            let ghost before = symbols@;
            let ghost held = self@;
            match symbols.pop() {
                None => {},
                Some(symbol) => {
                    let ghost rest = symbols_charge(document_symbols(symbols@));
                    let ghost own = symbol.permit.bytes as int;
                    let ghost other = symbol@.uri_charge;
                    proof {
                        lemma_symbol_charges_are_not_negative(symbols@);
                        assert(document_symbols(before).drop_last() =~= document_symbols(symbols@));
                        assert(document_symbols(before).last() == symbol@);
                        law_permits_add_up(held, epoch, own, other + rest);
                        law_permits_add_up(released(held, epoch, own), epoch, other, rest);
                        lemma_release_nothing(released(held, epoch, own), epoch);
                    }
                    self.release(epoch, symbol.permit);
                    if let Some(permit) = symbol.uri_permit {
                        self.release(epoch, permit);
                    }
                },
            }
        }
        proof {
            lemma_release_nothing(self@, epoch);
        }
    }

    /// Hands back what a result holds charged.
    pub fn release_completion(&mut self, entry: QueuedCompletion)
        requires
            old(self).well_formed(),
        ensures
            final(self).well_formed(),
            final(self)@ == released(old(self)@, entry.completion.epoch, completion_charge(entry@)),
    {
        let epoch = entry.completion.epoch;
        let ghost before = self@;
        proof {
            let shown = entry@;
            let first = match shown.permit {
                Some(bytes) => bytes,
                None => 0,
            };
            let second = completion_charge(shown) - first;
            lemma_release_nothing(before, epoch);
            lemma_release_nothing(released(before, epoch, first), epoch);
            if entry.completion.result is Locations {
                lemma_charges_are_not_negative(entry.completion.result->Locations_0@);
            }
            law_permits_add_up(before, epoch, first, second);
        }
        if let Some(permit) = entry.permit {
            self.release(epoch, permit);
        }
        if let NavigationProtocolResult::Locations(locations) = entry.completion.result {
            self.release_locations(epoch, locations);
        }
    }

    /// Keeps the result of a request until it is taken.
    pub fn complete_request_with_permit(
        &mut self,
        request: &NavigationRuntimeRequest,
        result: NavigationProtocolResult,
        epoch: Option<SessionEpoch>,
        permit: Option<PayloadPermit>,
    )
        requires
            old(self).well_formed(),
        ensures
            final(self).well_formed(),
            final(self)@ == completed(
                old(self)@,
                *request,
                result@,
                epoch,
                match permit {
                    Some(permit) => Some(permit.bytes as int),
                    None => None,
                },
            ),
    {
        let ghost before = self@;
        let entry = QueuedCompletion {
            completion: NavigationRuntimeCompletion {
                generation: request.generation,
                operation: request.operation,
                source_identity: ContentIdentity {
                    bytes: to_vec(request.source.identity.bytes.as_slice()),
                },
                source_version: request.version,
                result,
                epoch,
            },
            permit,
        };
        let evicted = self.completions.push(entry);
        if let Some(oldest) = evicted {
            assert(oldest@ == before.completions[0]);
            self.release_completion(oldest);
        }
    }

    /// Keeps the result of a request that holds nothing charged.
    pub fn complete_request(
        &mut self,
        request: &NavigationRuntimeRequest,
        result: NavigationProtocolResult,
    )
        requires
            old(self).well_formed(),
        ensures
            final(self).well_formed(),
            final(self)@ == told(old(self)@, *request, result@),
    {
        self.complete_request_with_permit(request, result, None, None);
    }

    /// Keeps the symbols of a document until they are taken.
    pub fn complete_document_symbols(
        &mut self,
        request: &NavigationRuntimeRequest,
        symbols: Vec<ProtocolDocumentSymbol>,
        epoch: SessionEpoch,
    )
        requires
            old(self).well_formed(),
        ensures
            final(self).well_formed(),
            final(self)@ == outlined(old(self)@, *request, document_symbols(symbols@), epoch),
    {
        let ghost before = self@;
        let entry = NavigationDocumentSymbolCompletion {
            generation: request.generation,
            source_identity: ContentIdentity {
                bytes: to_vec(request.source.identity.bytes.as_slice()),
            },
            source_version: request.version,
            symbols,
            epoch,
        };
        let evicted = self.completions.push_symbols(entry);
        if let Some(oldest) = evicted {
            assert(oldest@ == before.symbols[0]);
            self.release_symbols(Some(oldest.epoch), oldest.symbols);
        }
    }
}

// Failures --------------------------------------------------------------------------------

/// Requests are given up: each has its result, and its document is handed back.
pub open spec fn given_up(
    manager: ManagerRecord,
    epoch: SessionEpoch,
    requests: Seq<PendingUserRequest>,
    result: ResultRecord,
) -> ManagerRecord
    decreases requests.len(),
{
    if requests.len() == 0 {
        manager
    } else {
        let before = given_up(manager, epoch, requests.drop_last(), result);
        released(
            told(before, requests.last().request, result),
            Some(epoch),
            requests.last().document.permit.bytes as int,
        )
    }
}

/// The requests that wait for a session.
pub open spec fn waiting_for(waiting: Seq<WaitingRecord>, key: KeyRecord) -> Seq<PendingUserRequest>
    decreases waiting.len(),
{
    if waiting.len() == 0 {
        Seq::empty()
    } else if waiting.last().key == key {
        waiting_for(waiting.drop_last(), key).push(waiting.last().pending)
    } else {
        waiting_for(waiting.drop_last(), key)
    }
}

/// The requests that wait for other sessions.
pub open spec fn waiting_for_others(waiting: Seq<WaitingRecord>, key: KeyRecord) -> Seq<WaitingRecord>
    decreases waiting.len(),
{
    if waiting.len() == 0 {
        Seq::empty()
    } else if waiting.last().key == key {
        waiting_for_others(waiting.drop_last(), key)
    } else {
        waiting_for_others(waiting.drop_last(), key).push(waiting.last())
    }
}

/// The session at a place fails: every request that it owes an answer is told the
/// error, and it is set aside to be cleaned up.
#[verifier::opaque]
pub open spec fn failed_at(manager: ManagerRecord, at: int, error: Seq<char>) -> ManagerRecord {
    let session = manager.sessions[at];
    let open = ManagerRecord {
        sessions: manager.sessions.update(at, emptied(session)),
        waiting: waiting_for_others(manager.waiting, session.key),
        ..manager
    };
    let closed = given_up(
        open,
        session.epoch,
        owed(session) + waiting_for(manager.waiting, session.key),
        ResultRecord::Failed(error),
    );
    ManagerRecord {
        sessions: closed.sessions.remove(at),
        failed: closed.failed.push(FailedRecord { session: closed.sessions[at], error }),
        ..closed
    }
}

/// Where the session of a key is.
pub open spec fn place_of(sessions: Seq<SessionRecord>, key: KeyRecord, from: int) -> Option<int>
    decreases sessions.len() - from,
{
    if from < 0 || from >= sessions.len() {
        None
    } else if sessions[from].key == key {
        Some(from)
    } else {
        place_of(sessions, key, from + 1)
    }
}

pub proof fn lemma_place_of(sessions: Seq<SessionRecord>, key: KeyRecord, from: int)
    requires
        0 <= from <= sessions.len(),
    ensures
        match place_of(sessions, key, from) {
            Some(at) => from <= at < sessions.len() && sessions[at].key == key,
            None => forall|i: int|
                from <= i < sessions.len() ==> (#[trigger] sessions[i]).key != key,
        },
    decreases sessions.len() - from,
{
    if from < sessions.len() && sessions[from].key != key {
        lemma_place_of(sessions, key, from + 1);
        if place_of(sessions, key, from + 1) is None {
            assert forall|i: int| from <= i < sessions.len() implies (
            #[trigger] sessions[i]).key != key by {
                if i > from {
                    assert(from + 1 <= i);
                }
            }
        }
    }
}

/// The session of a key fails, if there is one.
pub open spec fn failed_key(manager: ManagerRecord, key: KeyRecord, error: Seq<char>) -> ManagerRecord {
    match place_of(manager.sessions, key, 0) {
        None => manager,
        Some(at) => failed_at(manager, at, error),
    }
}

/// What giving requests up leaves alone.
proof fn lemma_given_up(
    manager: ManagerRecord,
    epoch: SessionEpoch,
    requests: Seq<PendingUserRequest>,
    result: ResultRecord,
)
    ensures
        ({
            let after = given_up(manager, epoch, requests, result);
            &&& after.sessions.len() == manager.sessions.len()
            &&& session_keys(after.sessions) == session_keys(manager.sessions)
            &&& failed_keys(after.failed) == failed_keys(manager.failed)
            &&& session_keys(after.quarantined) == session_keys(manager.quarantined)
            &&& after.spawns == manager.spawns
            &&& after.waiting == manager.waiting
        }),
    decreases requests.len(),
{
    if requests.len() > 0 {
        let before = given_up(manager, epoch, requests.drop_last(), result);
        lemma_given_up(manager, epoch, requests.drop_last(), result);
        let request = requests.last().request;
        lemma_told_keys(before, request, result, None, None);
        lemma_released_keys(
            told(before, request, result),
            Some(epoch),
            requests.last().document.permit.bytes as int,
        );
    }
}

pub proof fn lemma_told_keys(
    manager: ManagerRecord,
    request: NavigationRuntimeRequest,
    result: ResultRecord,
    epoch: Option<SessionEpoch>,
    permit: Option<int>,
)
    ensures
        ({
            let after = completed(manager, request, result, epoch, permit);
            &&& after.sessions.len() == manager.sessions.len()
            &&& session_keys(after.sessions) == session_keys(manager.sessions)
            &&& failed_keys(after.failed) == failed_keys(manager.failed)
            &&& session_keys(after.quarantined) == session_keys(manager.quarantined)
            &&& after.spawns == manager.spawns
            &&& after.waiting == manager.waiting
        }),
{
    if manager.completions.len() >= NAVIGATION_COMPLETION_CAPACITY {
        lemma_released_keys(
            manager,
            manager.completions[0].epoch,
            completion_charge(manager.completions[0]),
        );
    }
}

pub proof fn lemma_others_wait_for_others(waiting: Seq<WaitingRecord>, key: KeyRecord)
    ensures
        forall|i: int|
            0 <= i < waiting_for_others(waiting, key).len() ==> (
            #[trigger] waiting_for_others(waiting, key)[i]).key != key && waiting.contains(
                waiting_for_others(waiting, key)[i],
            ),
    decreases waiting.len(),
{
    if waiting.len() > 0 {
        let front = waiting.drop_last();
        lemma_others_wait_for_others(front, key);
        let rest = waiting_for_others(front, key);
        let all = waiting_for_others(waiting, key);
        assert forall|i: int| 0 <= i < all.len() implies (#[trigger] all[i]).key != key
            && waiting.contains(all[i]) by {
            if i < rest.len() {
                assert(all[i] == rest[i]);
                let j = choose|j: int| 0 <= j < front.len() && front[j] == rest[i];
                assert(waiting[j] == rest[i]);
            } else {
                assert(waiting[waiting.len() - 1] == all[i]);
            }
        }
    }
}

proof fn lemma_moved_key(
    sessions: Seq<KeyRecord>,
    failed: Seq<KeyRecord>,
    quarantined: Seq<KeyRecord>,
    spawns: Seq<KeyRecord>,
    at: int,
)
    requires
        owned_once(sessions, failed, quarantined, spawns),
        0 <= at < sessions.len(),
    ensures
        owned_once(sessions.remove(at), failed.push(sessions[at]), quarantined, spawns),
        forall|i: int|
            0 <= i < sessions.remove(at).len() ==> #[trigger] sessions.remove(at)[i]
                != sessions[at],
{
    let rest = sessions.remove(at);
    assert forall|i: int| 0 <= i < rest.len() implies #[trigger] rest[i] == sessions[if i < at {
        i
    } else {
        i + 1
    }] by {}
    let more = failed.push(sessions[at]);
    assert forall|i: int, j: int| 0 <= i < j < rest.len() implies #[trigger] rest[i]
        != #[trigger] rest[j] by {}
    assert forall|i: int, j: int| 0 <= i < j < more.len() implies #[trigger] more[i]
        != #[trigger] more[j] by {
        assert(more[i] == failed[i]);
        if j < failed.len() {
            assert(more[j] == failed[j]);
        } else {
            assert(sessions[at] != failed[i]);
        }
    }
    assert forall|i: int, j: int| 0 <= i < rest.len() && 0 <= j < more.len() implies #[trigger] rest[i]
        != #[trigger] more[j] by {
        if j < failed.len() {
            assert(more[j] == failed[j]);
        }
    }
    assert forall|i: int, j: int|
        0 <= i < more.len() && 0 <= j < quarantined.len() implies #[trigger] more[i]
        != #[trigger] quarantined[j] by {
        if i < failed.len() {
            assert(more[i] == failed[i]);
        }
    }
    assert forall|i: int, j: int| 0 <= i < more.len() && 0 <= j < spawns.len() implies #[trigger] more[i]
        != #[trigger] spawns[j] by {
        if i < failed.len() {
            assert(more[i] == failed[i]);
        }
    }
}

impl NavigationManager {
    /// Where the session of a key is.
    pub fn find_session(&self, key: &SessionKey) -> (found: Option<usize>)
        ensures
            match place_of(self@.sessions, key@, 0) {
                None => found is None,
                Some(at) => found matches Some(index) && index == at && index
                    < self.sessions@.len() && self.sessions@[at].key@ == key@,
            },
    {
        let mut index: usize = 0;
        while index < self.sessions.len()
            invariant
                index <= self.sessions@.len(),
                place_of(self@.sessions, key@, 0) == place_of(
                    self@.sessions,
                    key@,
                    index as int,
                ),
            decreases self.sessions@.len() - index,
        {
            assert(self@.sessions[index as int].key == self.sessions@[index as int].key@);
            if self.sessions[index].key.same(key) {
                return Some(index);
            }
            index = index + 1;
        }
        None
    }

    /// Gives requests up, the first first.
    fn give_up(
        &mut self,
        epoch: SessionEpoch,
        requests: Vec<PendingUserRequest>,
        outcome: &Outcome,
    )
        requires
            old(self).well_formed(),
        ensures
            final(self).well_formed(),
            final(self)@ == given_up(old(self)@, epoch, requests@, outcome@),
    {
        let mut requests = requests;
        let ghost all = requests@;
        let ghost before = self@;
        let ghost mut done: int = 0;
        while requests.len() > 0
            invariant
                0 <= done <= all.len(),
                requests@ == all.subrange(done, all.len() as int),
                self.well_formed(),
                self@ == given_up(before, epoch, all.subrange(0, done), outcome@),
            decreases requests@.len(),
        {
            let pending = requests.remove(0);
            proof {
                assert(pending == all[done]);
                assert(all.subrange(0, done + 1).drop_last() =~= all.subrange(0, done));
                assert(all.subrange(0, done + 1).last() == pending);
                assert(requests@ =~= all.subrange(done + 1, all.len() as int));
            }
            self.complete_request(&pending.request, outcome.result());
            self.release(Some(epoch), pending.document.permit);
            proof {
                done = done + 1;
            }
        }
        assert(all.subrange(0, all.len() as int) =~= all);
    }

    /// Takes out the requests that wait for a session.
    pub(crate) fn take_waiting(&mut self, key: &SessionKey) -> (taken: Vec<PendingUserRequest>)
        requires
            old(self).well_formed(),
        ensures
            final(self).well_formed(),
            taken@ == waiting_for(old(self)@.waiting, key@),
            final(self)@ == (ManagerRecord {
                waiting: waiting_for_others(old(self)@.waiting, key@),
                ..old(self)@
            }),
    {
        let mut before: Vec<WaitingRequest> = Vec::new();
        std::mem::swap(&mut before, &mut self.disk_waiting);
        let ghost all = before@;
        let ghost shown = waiting_records(all);
        let mut taken: Vec<PendingUserRequest> = Vec::new();
        let mut kept: Vec<WaitingRequest> = Vec::new();
        let ghost mut done: int = 0;
        assert(waiting_records(kept@) =~= waiting_for_others(shown.subrange(0, 0), key@));
        assert(taken@ =~= waiting_for(shown.subrange(0, 0), key@));
        while before.len() > 0
            invariant
                0 <= done <= all.len(),
                before@ == all.subrange(done, all.len() as int),
                shown == waiting_records(all),
                all_waiting_sound(all),
                all_waiting_sound(kept@),
                taken@ == waiting_for(shown.subrange(0, done), key@),
                waiting_records(kept@) == waiting_for_others(shown.subrange(0, done), key@),
            decreases before@.len(),
        {
            let waiting = before.remove(0);
            let ghost had = kept@;
            proof {
                assert(waiting == all[done]);
                assert(shown.subrange(0, done + 1).drop_last() =~= shown.subrange(0, done));
                assert(shown.subrange(0, done + 1).last() == waiting@);
                assert(before@ =~= all.subrange(done + 1, all.len() as int));
                assert(all[done].pending.well_formed());
            }
            if waiting.key.same(key) {
                taken.push(waiting.pending);
            } else {
                kept.push(waiting);
                assert(waiting_records(kept@) =~= waiting_records(had).push(waiting@));
            }
            proof {
                done = done + 1;
            }
        }
        proof {
            assert(shown.subrange(0, shown.len() as int) =~= shown);
            lemma_others_wait_for_others(shown, key@);
        }
        self.disk_waiting = kept;
        proof {
            assert forall|i: int| 0 <= i < self@.waiting.len() implies session_keys(
                self@.sessions,
            ).contains((#[trigger] self@.waiting[i]).key) by {
                let record = self@.waiting[i];
                assert(shown.contains(record));
                let j = choose|j: int| 0 <= j < shown.len() && shown[j] == record;
                assert(old(self)@.waiting[j] == record);
            }
        }
        taken
    }

    /// The session at a place fails.
    #[verifier::rlimit(60)]
    pub(crate) fn fail_at(&mut self, at: usize, error: String)
        requires
            old(self).well_formed(),
            at < old(self).sessions@.len(),
        ensures
            final(self).well_formed(),
            final(self)@ == failed_at(old(self)@, at as int, error@),
    {
        let ghost before = self@;
        let ghost session = self.sessions@[at as int]@;
        let epoch = self.sessions[at].epoch;
        let key = self.sessions[at].key.copy();
        let mut open = self.sessions[at].drain();
        proof {
            assert(self@.sessions =~= before.sessions.update(at as int, emptied(session)));
            assert(session_keys(self@.sessions) =~= session_keys(before.sessions));
        }
        let mut waiting = self.take_waiting(&key);
        open.append(&mut waiting);
        let ghost opened = self@;
        let outcome = Outcome::Failed(copy_text(error.as_str()));
        self.give_up(epoch, open, &outcome);
        let ghost closed = self@;
        proof {
            reveal(failed_at);
            lemma_given_up(
                opened,
                epoch,
                owed(session) + waiting_for(before.waiting, session.key),
                outcome@,
            );
            lemma_moved_key(
                session_keys(closed.sessions),
                failed_keys(closed.failed),
                session_keys(closed.quarantined),
                closed.spawns,
                at as int,
            );
            lemma_others_wait_for_others(before.waiting, session.key);
        }
        let session_left = self.sessions.remove(at);
        let failure = FailedSession { session: session_left, error };
        self.failed.push(failure);
        proof {
            assert(self@.sessions =~= closed.sessions.remove(at as int));
            assert(self@.failed =~= closed.failed.push(failure@));
            assert(session_keys(self@.sessions) =~= session_keys(closed.sessions).remove(
                at as int,
            ));
            assert(failed_keys(self@.failed) =~= failed_keys(closed.failed).push(
                session_keys(closed.sessions)[at as int],
            ));
            assert(session_keys(closed.sessions)[at as int] == session.key);
            let rest = session_keys(closed.sessions).remove(at as int);
            assert forall|i: int| 0 <= i < self@.waiting.len() implies rest.contains(
                (#[trigger] self@.waiting[i]).key,
            ) by {
                let wanted = self@.waiting[i].key;
                assert(wanted != session.key);
                assert(session_keys(closed.sessions).contains(wanted));
                let j = choose|j: int|
                    0 <= j < closed.sessions.len() && session_keys(closed.sessions)[j] == wanted;
                assert(j != at);
                if j < at {
                    assert(rest[j] == wanted);
                } else {
                    assert(rest[j - 1] == wanted);
                }
            }
        }
    }

    /// The session of a key fails. Every request that it owes an answer is told so.
    pub fn fail_session(&mut self, key: &SessionKey, error: &str)
        requires
            old(self).well_formed(),
        ensures
            final(self).well_formed(),
            final(self)@ == failed_key(old(self)@, key@, error@),
    {
        if let Some(at) = self.find_session(key) {
            self.fail_at(at, copy_text(error));
        }
    }
}

/// How requests are given up.
#[derive(Debug)]
pub enum Outcome {
    Failed(String),
    Cancelled,
}

impl View for Outcome {
    type V = ResultRecord;

    open spec fn view(&self) -> ResultRecord {
        match self {
            Outcome::Failed(words) => ResultRecord::Failed(words@),
            Outcome::Cancelled => ResultRecord::Cancelled,
        }
    }
}

impl Outcome {
    fn result(&self) -> (result: NavigationProtocolResult)
        ensures
            result@ == self@,
    {
        match self {
            Outcome::Failed(words) => NavigationProtocolResult::Failed(copy_text(words.as_str())),
            Outcome::Cancelled => NavigationProtocolResult::Cancelled,
        }
    }
}

// Failures that are forgotten -------------------------------------------------------------

/// The failures of the servers that were ready long enough are forgotten.
pub open spec fn stable_forgiven(book: BookRecord, sessions: Seq<SessionRecord>, now: u64) -> BookRecord
    decreases sessions.len(),
{
    if sessions.len() == 0 {
        book
    } else {
        let before = stable_forgiven(book, sessions.drop_last(), now);
        let session = sessions.last();
        if session.ready() is Some && is_stable(session.ready_since, now) {
            forgiven(before, session.key)
        } else {
            before
        }
    }
}

impl NavigationManager {
    /// Forgets the failures of the servers that were ready long enough.
    pub fn reset_stable_backoffs_at(&mut self, now: u64)
        requires
            old(self).well_formed(),
        ensures
            final(self).well_formed(),
            final(self)@ == (ManagerRecord {
                book: stable_forgiven(old(self)@.book, old(self)@.sessions, now),
                ..old(self)@
            }),
    {
        let ghost before = self@;
        let mut index: usize = 0;
        assert(before.sessions.subrange(0, 0) =~= Seq::<SessionRecord>::empty());
        while index < self.sessions.len()
            invariant
                index <= self.sessions@.len(),
                self.well_formed(),
                self@ == (ManagerRecord {
                    book: stable_forgiven(
                        before.book,
                        before.sessions.subrange(0, index as int),
                        now,
                    ),
                    ..before
                }),
            decreases self.sessions@.len() - index,
        {
            proof {
                let longer = before.sessions.subrange(0, index + 1);
                assert(longer.drop_last() =~= before.sessions.subrange(0, index as int));
                assert(self@.sessions[index as int] == self.sessions@[index as int]@);
                assert(longer.last() == self.sessions@[index as int]@);
            }
            let ready = match &self.sessions[index].state {
                ServerState::Ready { .. } => true,
                _ => false,
            };
            if ready {
                let key = self.sessions[index].key.copy();
                let ready_since = self.sessions[index].ready_since;
                self.book.reset_backoff_if_stable_at(&key, ready_since, now);
            }
            index = index + 1;
        }
        assert(before.sessions.subrange(0, before.sessions.len() as int) =~= before.sessions);
    }

    /// Takes all results, the oldest first. The permits of the messages that were
    /// taken before are handed back.
    pub fn take_completions(&mut self) -> (taken: Vec<NavigationRuntimeCompletion>)
        requires
            old(self).well_formed(),
        ensures
            final(self).well_formed(),
            taken@ == Seq::new(
                old(self).completions.queued@.len(),
                |i: int| old(self).completions.queued@[i].completion,
            ),
            final(self)@ == leases_ended(
                ManagerRecord {
                    completions: Seq::empty(),
                    leased: permits_in(old(self).completions.queued@),
                    ..old(self)@
                },
                old(self)@.leased,
            ),
    {
        let (taken, freed) = self.completions.take_completions();
        proof {
            assert(self@.completions =~= Seq::<CompletionRecord>::empty());
        }
        let mut freed = freed;
        let ghost all = freed@;
        let ghost opened = self@;
        let ghost mut done: int = 0;
        while freed.len() > 0
            invariant
                0 <= done <= all.len(),
                freed@ == all.subrange(done, all.len() as int),
                self.well_formed(),
                self@ == leases_ended(opened, all.subrange(0, done)),
            decreases freed@.len(),
        {
            let lease = freed.remove(0);
            proof {
                assert(lease == all[done]);
                assert(all.subrange(0, done + 1).drop_last() =~= all.subrange(0, done));
                assert(all.subrange(0, done + 1).last() == lease);
                assert(freed@ =~= all.subrange(done + 1, all.len() as int));
            }
            self.release(lease.epoch, lease.permit);
            proof {
                done = done + 1;
            }
        }
        assert(all.subrange(0, all.len() as int) =~= all);
        taken
    }

    /// Takes all symbols, the oldest first.
    pub fn take_symbol_completions(&mut self) -> (taken: Vec<NavigationDocumentSymbolCompletion>)
        requires
            old(self).well_formed(),
        ensures
            final(self).well_formed(),
            taken == old(self).completions.symbols,
            final(self)@ == (ManagerRecord { symbols: Seq::empty(), ..old(self)@ }),
    {
        let taken = self.completions.take_symbol_completions();
        assert(self@.symbols =~= Seq::<SymbolCompletionRecord>::empty());
        taken
    }
}

/// The permits of messages that were taken before are handed back.
pub open spec fn leases_ended(manager: ManagerRecord, leases: Seq<LeasedPermit>) -> ManagerRecord
    decreases leases.len(),
{
    if leases.len() == 0 {
        manager
    } else {
        released(
            leases_ended(manager, leases.drop_last()),
            leases.last().epoch,
            leases.last().permit.bytes as int,
        )
    }
}

/// The results of requests that all end the same way.
pub open spec fn results_of(requests: Seq<PendingUserRequest>, result: ResultRecord) -> Seq<CompletionRecord> {
    Seq::new(requests.len(), |i: int| completion_of(requests[i].request, result, None, None))
}

proof fn lemma_given_up_results(
    manager: ManagerRecord,
    epoch: SessionEpoch,
    requests: Seq<PendingUserRequest>,
    result: ResultRecord,
)
    ensures
        given_up(manager, epoch, requests, result).completions == pushed_all(
            manager.completions,
            results_of(requests, result),
        ),
    decreases requests.len(),
{
    let results = results_of(requests, result);
    if requests.len() > 0 {
        lemma_given_up_results(manager, epoch, requests.drop_last(), result);
        assert(results.drop_last() =~= results_of(requests.drop_last(), result));
        assert(results.last() == completion_of(requests.last().request, result, None, None));
    } else {
        assert(results =~= Seq::<CompletionRecord>::empty());
    }
}

/// When a session fails, each request that it owes an answer, sent, kept or waiting,
/// is told the error, once and in order; nobody waits for the session any more, and
/// nothing else has its key.
pub proof fn law_failing_answers_every_request(manager: ManagerRecord, at: int, error: Seq<char>)
    requires
        manager.owned_once(),
        0 <= at < manager.sessions.len(),
    ensures
        ({
            let session = manager.sessions[at];
            let after = failed_at(manager, at, error);
            &&& after.completions == pushed_all(
                manager.completions,
                results_of(
                    owed(session) + waiting_for(manager.waiting, session.key),
                    ResultRecord::Failed(error),
                ),
            )
            &&& waiting_for(after.waiting, session.key).len() == 0
            &&& place_of(after.sessions, session.key, 0) is None
            &&& owed(after.failed.last().session).len() == 0
            &&& after.failed.last().session.key == session.key
        }),
{
    reveal(failed_at);
    let session = manager.sessions[at];
    let requests = owed(session) + waiting_for(manager.waiting, session.key);
    let open = ManagerRecord {
        sessions: manager.sessions.update(at, emptied(session)),
        waiting: waiting_for_others(manager.waiting, session.key),
        ..manager
    };
    let result = ResultRecord::Failed(error);
    lemma_given_up_results(open, session.epoch, requests, result);
    lemma_given_up(open, session.epoch, requests, result);
    lemma_given_up_owes(open, session.epoch, requests, result, at);
    let closed = given_up(open, session.epoch, requests, result);
    assert(session_keys(open.sessions) =~= session_keys(manager.sessions));
    lemma_nobody_waits(manager.waiting, session.key);
    let after = failed_at(manager, at, error);
    lemma_moved_key(
        session_keys(manager.sessions),
        failed_keys(manager.failed),
        session_keys(manager.quarantined),
        manager.spawns,
        at,
    );
    assert(session_keys(closed.sessions)[at] == session.key);
    assert(session_keys(after.sessions) =~= session_keys(manager.sessions).remove(at));
    lemma_place_of(after.sessions, session.key, 0);
    if place_of(after.sessions, session.key, 0) is Some {
        let i = place_of(after.sessions, session.key, 0)->0;
        assert(session_keys(after.sessions)[i] == session.key);
    }
}

proof fn lemma_given_up_owes(
    manager: ManagerRecord,
    epoch: SessionEpoch,
    requests: Seq<PendingUserRequest>,
    result: ResultRecord,
    at: int,
)
    requires
        0 <= at < manager.sessions.len(),
    ensures
        given_up(manager, epoch, requests, result).sessions.len() == manager.sessions.len(),
        given_up(manager, epoch, requests, result).sessions[at].pending
            == manager.sessions[at].pending,
        given_up(manager, epoch, requests, result).sessions[at].deferred
            == manager.sessions[at].deferred,
    decreases requests.len(),
{
    if requests.len() > 0 {
        lemma_given_up_owes(manager, epoch, requests.drop_last(), result, at);
    }
}

proof fn lemma_nobody_waits(waiting: Seq<WaitingRecord>, key: KeyRecord)
    ensures
        waiting_for(waiting_for_others(waiting, key), key).len() == 0,
    decreases waiting.len(),
{
    if waiting.len() > 0 {
        let front = waiting.drop_last();
        lemma_nobody_waits(front, key);
        if waiting.last().key != key {
            let others = waiting_for_others(front, key);
            assert(others.push(waiting.last()).drop_last() =~= others);
        }
    }
}

/// A session that fails moves its key, and no key has two owners because of it.
pub proof fn lemma_failed_keys(manager: ManagerRecord, at: int, error: Seq<char>)
    requires
        manager.owned_once(),
        0 <= at < manager.sessions.len(),
    ensures
        failed_at(manager, at, error).owned_once(),
{
    reveal(failed_at);
    let session = manager.sessions[at];
    let requests = owed(session) + waiting_for(manager.waiting, session.key);
    let open = ManagerRecord {
        sessions: manager.sessions.update(at, emptied(session)),
        waiting: waiting_for_others(manager.waiting, session.key),
        ..manager
    };
    let result = ResultRecord::Failed(error);
    lemma_given_up(open, session.epoch, requests, result);
    assert(session_keys(open.sessions) =~= session_keys(manager.sessions));
    let closed = given_up(open, session.epoch, requests, result);
    let after = failed_at(manager, at, error);
    lemma_moved_key(
        session_keys(manager.sessions),
        failed_keys(manager.failed),
        session_keys(manager.quarantined),
        manager.spawns,
        at,
    );
    assert(session_keys(closed.sessions)[at] == session.key);
    assert(session_keys(after.sessions) =~= session_keys(manager.sessions).remove(at));
    assert(failed_keys(after.failed) =~= failed_keys(manager.failed).push(session.key));
}

} // verus!
