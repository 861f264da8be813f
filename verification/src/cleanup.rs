//! How sessions are brought to an end.

use crate::failures::{with_failure, BookRecord};
use crate::frames::lifecycle;
use crate::framing::ChargedPayload;
use crate::manager::{
    apart, distinct, failed_keys, lemma_others_wait_for_others, lemma_released_keys, released,
    session_keys, waiting_for, waiting_for_others, ManagerRecord, NavigationCleanupSnapshot,
    NavigationManager,
};
use crate::messages::{exit_body, exit_text, shutdown_body, shutdown_text};
use crate::payload::GlobalPayloadBudget;
use crate::process::{IoThreadDone, IoThreadKind};
use crate::protocol::{is_admissible, is_shutdown_response, Envelope};
use crate::requests::capped;
use crate::rpc::{
    following, IdRecord, IoThreads, RpcId, SessionEpoch, IO_THREAD_COUNT,
};
use crate::session::{
    frame_record, frame_records, later, owed, said, FrameRecord, KeyRecord, LspSession,
    PendingUserRequest, ServerState, SessionRecord, StateRecord, Talk,
};
use crate::text::copy_text;
use vstd::prelude::*;

verus! {

#[derive(Clone, Copy, Debug, PartialEq, Eq, Structural)]
pub enum CleanupOutcome {
    Complete,
    Quarantined,
}

/// How far the cleanup of a session is.
#[derive(Debug)]
pub struct CleanupProgress {
    pub shutdown_id: Option<i32>,
    pub shutdown_response_finished: bool,
    /// The session has neither a process nor threads.
    pub synthetic_session: bool,
    pub orderly: bool,
    pub clean_exit: bool,
    pub forced_cleanup: bool,
    pub tree_finished: bool,
    pub direct_child_reaped: bool,
    pub cleanup_error: Option<String>,
}

pub struct ProgressRecord {
    pub shutdown_id: Option<i32>,
    pub answered: bool,
    pub synthetic: bool,
    pub orderly: bool,
    pub clean_exit: bool,
    pub forced: bool,
    pub tree_finished: bool,
    pub reaped: bool,
    pub error: Option<Seq<char>>,
}

impl View for CleanupProgress {
    type V = ProgressRecord;

    open spec fn view(&self) -> ProgressRecord {
        ProgressRecord {
            shutdown_id: self.shutdown_id,
            answered: self.shutdown_response_finished,
            synthetic: self.synthetic_session,
            orderly: self.orderly,
            clean_exit: self.clean_exit,
            forced: self.forced_cleanup,
            tree_finished: self.tree_finished,
            reaped: self.direct_child_reaped,
            error: match self.cleanup_error {
                Some(words) => Some(words@),
                None => None,
            },
        }
    }
}

impl Default for CleanupProgress {
    fn default() -> (progress: Self)
        ensures
            progress@ == (ProgressRecord {
                shutdown_id: None,
                answered: false,
                synthetic: false,
                orderly: false,
                clean_exit: false,
                forced: false,
                tree_finished: false,
                reaped: false,
                error: None,
            }),
    {
        CleanupProgress {
            shutdown_id: None,
            shutdown_response_finished: false,
            synthetic_session: false,
            orderly: false,
            clean_exit: false,
            forced_cleanup: false,
            tree_finished: false,
            direct_child_reaped: false,
            cleanup_error: None,
        }
    }
}

impl ProgressRecord {
    /// The first error stays.
    pub open spec fn with_error(self, words: Seq<char>) -> ProgressRecord {
        if self.error is Some {
            self
        } else {
            ProgressRecord { error: Some(words), ..self }
        }
    }
}

pub open spec fn lifecycle_text() -> Seq<char> {
    "invalid language server I/O lifecycle event during cleanup"@
}

/// A cleanup begins: a server that is ready is asked to shut down.
pub open spec fn cleanup_begun(talk: Talk, progress: ProgressRecord, synthetic: bool) -> (
    Talk,
    ProgressRecord,
) {
    let orderly = talk.session.ready() is Some;
    let noted = ProgressRecord { synthetic, orderly, ..progress };
    let alone = ProgressRecord { answered: true, ..noted };
    if !orderly {
        (talk, alone)
    } else {
        match talk.session.next {
            None => (talk, alone),
            Some(id) => {
                let numbered = talk.with_next(following(id));
                match said(numbered, shutdown_text(IdRecord::Signed(id))) {
                    Ok(after) => (after, ProgressRecord { shutdown_id: Some(id), ..noted }),
                    Err(_) => (numbered, alone),
                }
            },
        }
    }
}

/// A frame came while a server shuts down. The answer that was waited for is
/// followed by the last message.
pub open spec fn shutdown_frame(
    talk: Talk,
    progress: ProgressRecord,
    frame: FrameRecord,
    envelope: Option<Envelope>,
) -> (Talk, ProgressRecord) {
    let answers = progress.shutdown_id matches Some(id) && is_admissible(
        frame.bytes,
        &talk.session.budget,
        &talk.global,
    ) && (envelope matches Some(message) && message.ends_shutdown(RpcId::Signed(id)));
    if !answers {
        (talk.after_release(frame.charge), progress)
    } else {
        (
            match said(talk, exit_text()) {
                Ok(after) => after.after_release(frame.charge),
                Err(_) => talk.after_release(frame.charge),
            },
            ProgressRecord { answered: true, ..progress },
        )
    }
}

impl CleanupProgress {
    fn note_error(&mut self, words: String)
        ensures
            final(self)@ == old(self)@.with_error(words@),
    {
        if self.cleanup_error.is_none() {
            self.cleanup_error = Some(words);
        }
    }

    /// The threads of a session said something that cannot be.
    pub fn lifecycle_failed(&mut self, waits_for_answer: bool)
        ensures
            final(self)@ == (ProgressRecord {
                answered: old(self)@.answered || waits_for_answer,
                ..old(self)@.with_error(lifecycle_text())
            }),
    {
        self.note_error(copy_text("invalid language server I/O lifecycle event during cleanup"));
        if waits_for_answer {
            self.shutdown_response_finished = true;
        }
    }

    /// No answer will come.
    pub fn stop_waiting(&mut self)
        ensures
            final(self)@ == (ProgressRecord { answered: true, ..old(self)@ }),
    {
        self.shutdown_response_finished = true;
    }
}

impl LspSession {
    /// Begins the cleanup of a session.
    pub fn begin_cleanup(
        &mut self,
        global: &mut GlobalPayloadBudget,
        progress: &mut CleanupProgress,
        synthetic: bool,
    )
        requires
            old(self).well_formed(),
            old(global).well_formed(),
        ensures
            final(self).well_formed(),
            final(global).well_formed(),
            ({
                let (talk, after) = cleanup_begun(
                    old(self).talk(old(global)),
                    old(progress)@,
                    synthetic,
                );
                &&& final(self).talk(final(global)) == talk
                &&& final(progress)@ == after
            }),
    {
        progress.synthetic_session = synthetic;
        progress.orderly = match &self.state {
            ServerState::Ready { .. } => true,
            _ => false,
        };
        if !progress.orderly {
            progress.shutdown_response_finished = true;
            return;
        }
        let id = match self.allocator.allocate() {
            None => {
                progress.shutdown_response_finished = true;
                return;
            },
            Some(id) => id,
        };
        let body = shutdown_body(&RpcId::Signed(id));
        if self.send_body(global, body.as_str()).is_ok() {
            progress.shutdown_id = Some(id);
        } else {
            progress.shutdown_response_finished = true;
        }
    }

    /// Looks at the oldest frame while a server shuts down. False if there is none,
    /// or nothing is waited for.
    pub fn poll_shutdown_response(
        &mut self,
        global: &mut GlobalPayloadBudget,
        progress: &mut CleanupProgress,
        envelope: Option<&Envelope>,
    ) -> (looked: bool)
        requires
            old(self).well_formed(),
            old(global).well_formed(),
        ensures
            final(self).well_formed(),
            final(global).well_formed(),
            looked == (!old(progress)@.answered && old(self)@.inbox.len() > 0),
            ({
                let message = match envelope {
                    Some(message) => Some(*message),
                    None => None,
                };
                let (talk, after) = if looked {
                    shutdown_frame(
                        Talk {
                            session: SessionRecord {
                                inbox: old(self)@.inbox.remove(0),
                                ..old(self)@
                            },
                            global: *old(global),
                        },
                        old(progress)@,
                        old(self)@.inbox[0],
                        message,
                    )
                } else {
                    (old(self).talk(old(global)), old(progress)@)
                };
                &&& final(self).talk(final(global)) == talk
                &&& final(progress)@ == after
            }),
    {
        if progress.shutdown_response_finished || self.inbox.len() == 0 {
            return false;
        }
        let ghost shown = self@;
        let frame = self.inbox.remove(0);
        assert(frame_records(self.inbox@) =~= shown.inbox.remove(0));
        assert(shown.inbox[0] == frame_record(frame));
        let answers = match progress.shutdown_id {
            None => false,
            Some(id) => is_shutdown_response(
                frame.as_slice(),
                envelope,
                &mut self.budget,
                global,
                &RpcId::Signed(id),
            ),
        };
        if answers {
            let body = exit_body();
            let _ = self.send_body(global, body.as_str());
            progress.shutdown_response_finished = true;
        }
        self.budget.release(global, frame.permit);
        true
    }

    /// The writer is not needed any more. The frames that wait are handed out, to
    /// be written before it stops.
    pub fn close_writer(&mut self) -> (frames: Vec<ChargedPayload>)
        requires
            old(self).well_formed(),
        ensures
            final(self).well_formed(),
            frame_records(frames@) == (match old(self)@.outbox {
                Some(outbox) => outbox.frames,
                None => Seq::empty(),
            }),
            final(self)@ == (SessionRecord { outbox: None, ..old(self)@ }),
    {
        match self.writer.take() {
            None => {
                let frames: Vec<ChargedPayload> = Vec::new();
                assert(frame_records(frames@) =~= Seq::<FrameRecord>::empty());
                frames
            },
            Some(outbox) => outbox.frames,
        }
    }
}

// Processes -------------------------------------------------------------------------------

/// What is found when a process tree is looked at.
#[derive(Debug)]
pub enum TreePoll {
    /// There is none.
    Absent,
    Gone,
    Running,
    Fault(String),
}

/// A process tree was looked at.
pub open spec fn tree_seen(progress: ProgressRecord, poll: TreePoll, clean_phase: bool) -> ProgressRecord {
    if progress.tree_finished {
        progress
    } else {
        match poll {
            TreePoll::Absent => ProgressRecord { tree_finished: true, ..progress },
            TreePoll::Gone => ProgressRecord {
                tree_finished: true,
                reaped: true,
                clean_exit: clean_phase && progress.orderly,
                ..progress
            },
            TreePoll::Running => progress,
            TreePoll::Fault(words) => progress.with_error(words@),
        }
    }
}

/// A process tree was looked at after it was told to go.
pub open spec fn forced_tree_seen(progress: ProgressRecord, poll: TreePoll) -> ProgressRecord {
    if progress.tree_finished {
        progress
    } else {
        match poll {
            TreePoll::Absent => progress,
            TreePoll::Gone => ProgressRecord { tree_finished: true, reaped: true, ..progress },
            TreePoll::Running => progress,
            TreePoll::Fault(words) => progress.with_error(words@),
        }
    }
}

impl CleanupProgress {
    /// Takes note of what a look at the process tree showed.
    pub fn poll_tree_exit(&mut self, poll: TreePoll, clean_phase: bool)
        ensures
            final(self)@ == tree_seen(old(self)@, poll, clean_phase),
    {
        if self.tree_finished {
            return;
        }
        match poll {
            TreePoll::Absent => {
                self.tree_finished = true;
            },
            TreePoll::Gone => {
                self.tree_finished = true;
                self.direct_child_reaped = true;
                self.clean_exit = clean_phase && self.orderly;
            },
            TreePoll::Running => {},
            TreePoll::Fault(words) => {
                self.note_error(words);
            },
        }
    }

    /// Whether a process tree has to be forced to go.
    pub fn begin_force_cleanup(&mut self, present: bool) -> (force: bool)
        ensures
            force == (!old(self)@.tree_finished && present),
            final(self)@ == (ProgressRecord {
                forced: old(self)@.forced || force,
                ..old(self)@
            }),
    {
        if self.tree_finished || !present {
            return false;
        }
        self.forced_cleanup = true;
        true
    }

    /// Whether force has to be used once more.
    pub fn escalate_force_cleanup(&self, present: bool) -> (force: bool)
        ensures
            force == (!self@.tree_finished && present),
    {
        !self.tree_finished && present
    }

    /// Force could not be used.
    pub fn force_failed(&mut self, words: String)
        ensures
            final(self)@ == old(self)@.with_error(words@),
    {
        self.note_error(words);
    }

    /// Takes note of what a look at a process tree that was told to go showed.
    pub fn poll_forced_tree(&mut self, poll: TreePoll)
        ensures
            final(self)@ == forced_tree_seen(old(self)@, poll),
    {
        if self.tree_finished {
            return;
        }
        match poll {
            TreePoll::Absent => {},
            TreePoll::Gone => {
                self.tree_finished = true;
                self.direct_child_reaped = true;
            },
            TreePoll::Running => {},
            TreePoll::Fault(words) => {
                self.note_error(words);
            },
        }
    }
}

// Threads ---------------------------------------------------------------------------------

impl LspSession {
    /// Takes note of the threads that are done. False if an event cannot be, or if
    /// no more can come and one is missing.
    pub fn collect_lifecycle(&mut self, events: &Vec<IoThreadDone>, stopped: bool) -> (valid: bool)
        requires
            old(self).well_formed(),
        ensures
            final(self).well_formed(),
            ({
                let (done, fault) = lifecycle(old(self).epoch, old(self).io_done, events@);
                &&& final(self)@ == (SessionRecord { io_done: done, ..old(self)@ })
                &&& valid == (fault is None && (stopped ==> done.count() == IO_THREAD_COUNT))
            }),
    {
        let fault = self.note_done(events);
        fault.is_none() && (!stopped || self.io_done.len() == IO_THREAD_COUNT)
    }

    /// Whether a thread that came to its end may be joined.
    pub fn may_join(&self, kind: IoThreadKind, finished: bool) -> (may: bool)
        ensures
            may == (self.io_done.holds(kind) && finished),
    {
        self.io_done.contains(kind) && finished
    }

    /// A thread was joined.
    pub fn joined(&mut self, progress: &mut CleanupProgress, kind: IoThreadKind, well: bool)
        requires
            old(self).well_formed(),
        ensures
            final(self).well_formed(),
            final(self)@ == (if well {
                SessionRecord { io_joined: old(self)@.io_joined.with(kind), ..old(self)@ }
            } else {
                old(self)@
            }),
            final(progress)@ == (if well {
                old(progress)@
            } else {
                old(progress)@.with_error("language server I/O thread panicked"@)
            }),
    {
        if well {
            let _ = self.io_joined.insert(kind);
        } else {
            progress.note_error(copy_text("language server I/O thread panicked"));
        }
    }

    /// Whether nothing is left of a session but its record: its process is gone, and
    /// its threads were joined. Only then it counts as cleaned up.
    pub fn finalize_cleanup(
        &mut self,
        progress: CleanupProgress,
        threads_left: usize,
        stats: &mut NavigationCleanupSnapshot,
    ) -> (outcome: CleanupOutcome)
        requires
            old(self).well_formed(),
        ensures
            final(self).well_formed(),
            (outcome is Complete) == is_clean(
                progress@,
                threads_left as int,
                old(self)@.io_joined.count(),
            ),
            match outcome {
                CleanupOutcome::Complete => {
                    &&& final(self)@ == old(self)@
                    &&& *final(stats) == counted(
                        *old(stats),
                        progress@,
                        old(self)@.io_joined.count(),
                    )
                },
                CleanupOutcome::Quarantined => {
                    &&& *final(stats) == *old(stats)
                    &&& final(self)@ == (SessionRecord {
                        state: StateRecord::Failed {
                            error: match progress@.error {
                                Some(words) => words,
                                None => quarantine_text(),
                            },
                        },
                        ..old(self)@
                    })
                },
            },
    {
        let expected: usize = if progress.synthetic_session {
            0
        } else {
            IO_THREAD_COUNT
        };
        let joined: usize = self.io_joined.len();
        if !progress.tree_finished || progress.cleanup_error.is_some() || threads_left != 0
            || joined != expected {
            let error = match progress.cleanup_error {
                Some(words) => words,
                None => copy_text(
                    "language server cleanup quarantined an unfinished process owner",
                ),
            };
            self.state = ServerState::Failed { error };
            return CleanupOutcome::Quarantined;
        }
        stats.sessions_cleaned = stats.sessions_cleaned.saturating_add(1);
        if progress.clean_exit {
            stats.clean_exits = stats.clean_exits.saturating_add(1);
        }
        if progress.forced_cleanup {
            stats.forced_tree_cleanups = stats.forced_tree_cleanups.saturating_add(1);
        }
        if progress.direct_child_reaped {
            stats.direct_children_reaped = stats.direct_children_reaped.saturating_add(1);
        }
        stats.io_threads_joined = stats.io_threads_joined.saturating_add(joined);
        stats.process_owners_dropped = stats.process_owners_dropped.saturating_add(1);
        CleanupOutcome::Complete
    }
}

pub open spec fn quarantine_text() -> Seq<char> {
    "language server cleanup quarantined an unfinished process owner"@
}

/// Nothing is left to be cleaned up.
pub open spec fn is_clean(progress: ProgressRecord, threads_left: int, joined: int) -> bool {
    &&& progress.tree_finished
    &&& progress.error is None
    &&& threads_left == 0
    &&& joined == (if progress.synthetic {
        0int
    } else {
        IO_THREAD_COUNT as int
    })
}

pub open spec fn one_if(yes: bool) -> int {
    if yes {
        1
    } else {
        0
    }
}

pub open spec fn counted(
    stats: NavigationCleanupSnapshot,
    progress: ProgressRecord,
    joined: int,
) -> NavigationCleanupSnapshot {
    NavigationCleanupSnapshot {
        sessions_cleaned: capped((stats.sessions_cleaned + 1) as nat),
        clean_exits: capped((stats.clean_exits + one_if(progress.clean_exit)) as nat),
        forced_tree_cleanups: capped(
            (stats.forced_tree_cleanups + one_if(progress.forced)) as nat,
        ),
        direct_children_reaped: capped(
            (stats.direct_children_reaped + one_if(progress.reaped)) as nat,
        ),
        io_threads_joined: capped((stats.io_threads_joined + joined) as nat),
        process_owners_dropped: capped((stats.process_owners_dropped + 1) as nat),
        quarantined_process_owners: stats.quarantined_process_owners,
    }
}

// Phases ----------------------------------------------------------------------------------

/// The steps of a cleanup, one after the other.
#[derive(Clone, Copy, Debug, PartialEq, Eq, Structural)]
pub enum CleanupPhase {
    Response,
    TreeExit,
    Terminate,
    Kill,
    Threads,
    Joins,
    Done,
}

impl CleanupPhase {
    /// How long a step may take, in milliseconds.
    pub open spec fn span(self) -> u64 {
        match self {
            CleanupPhase::Response => 750,
            CleanupPhase::TreeExit => 750,
            CleanupPhase::Terminate => 250,
            CleanupPhase::Kill => 1_000,
            CleanupPhase::Threads => 750,
            CleanupPhase::Joins => 250,
            CleanupPhase::Done => 0,
        }
    }

    pub open spec fn following(self) -> CleanupPhase {
        match self {
            CleanupPhase::Response => CleanupPhase::TreeExit,
            CleanupPhase::TreeExit => CleanupPhase::Terminate,
            CleanupPhase::Terminate => CleanupPhase::Kill,
            CleanupPhase::Kill => CleanupPhase::Threads,
            CleanupPhase::Threads => CleanupPhase::Joins,
            CleanupPhase::Joins => CleanupPhase::Done,
            CleanupPhase::Done => CleanupPhase::Done,
        }
    }

    pub fn window(self) -> (window: u64)
        ensures
            window == self.span(),
    {
        match self {
            CleanupPhase::Response => 750,
            CleanupPhase::TreeExit => 750,
            CleanupPhase::Terminate => 250,
            CleanupPhase::Kill => 1_000,
            CleanupPhase::Threads => 750,
            CleanupPhase::Joins => 250,
            CleanupPhase::Done => 0,
        }
    }

    pub fn next(self) -> (next: CleanupPhase)
        ensures
            next == self.following(),
    {
        match self {
            CleanupPhase::Response => CleanupPhase::TreeExit,
            CleanupPhase::TreeExit => CleanupPhase::Terminate,
            CleanupPhase::Terminate => CleanupPhase::Kill,
            CleanupPhase::Kill => CleanupPhase::Threads,
            CleanupPhase::Threads => CleanupPhase::Joins,
            CleanupPhase::Joins => CleanupPhase::Done,
            CleanupPhase::Done => CleanupPhase::Done,
        }
    }
}

/// Which step a cleanup is at, and until when.
#[derive(Clone, Copy, Debug, PartialEq, Eq, Structural)]
pub struct CleanupClock {
    pub phase: CleanupPhase,
    pub deadline: u64,
}

/// The step after a look: the next one as soon as nothing is left to do, or in time.
pub open spec fn ticked(clock: CleanupClock, settled: bool, now: u64) -> CleanupClock {
    if settled || now >= clock.deadline {
        CleanupClock {
            phase: clock.phase.following(),
            deadline: later(now, clock.phase.following().span()),
        }
    } else {
        clock
    }
}

impl CleanupClock {
    pub fn start(now: u64) -> (clock: Self)
        ensures
            clock.phase is Response,
            clock.deadline == later(now, 750),
    {
        CleanupClock { phase: CleanupPhase::Response, deadline: now.saturating_add(750) }
    }

    /// Goes on to the next step, if it is time. Says whether it did.
    pub fn tick(&mut self, settled: bool, now: u64) -> (moved: bool)
        ensures
            *final(self) == ticked(*old(self), settled, now),
            moved == (settled || now >= old(self).deadline),
    {
        if !settled && now < self.deadline {
            return false;
        }
        let phase = self.phase.next();
        *self = CleanupClock { phase, deadline: now.saturating_add(phase.window()) };
        true
    }
}

/// Looks at times that are each at or behind the deadline of the one before.
pub open spec fn ticked_late(clock: CleanupClock, looks: Seq<u64>) -> CleanupClock
    decreases looks.len(),
{
    if looks.len() == 0 {
        clock
    } else {
        ticked(ticked_late(clock, looks.drop_last()), false, looks.last())
    }
}

/// A cleanup comes to its end whatever its servers do: after six steps that ran
/// out of time it is done.
pub proof fn law_cleanups_end(start: u64, looks: Seq<u64>)
    requires
        looks.len() == 6,
        forall|i: int|
            0 <= i < 6 ==> #[trigger] looks[i] >= ticked_late(
                CleanupClock { phase: CleanupPhase::Response, deadline: later(start, 750) },
                looks.subrange(0, i),
            ).deadline,
    ensures
        ticked_late(
            CleanupClock { phase: CleanupPhase::Response, deadline: later(start, 750) },
            looks,
        ).phase is Done,
{
    let clock = CleanupClock { phase: CleanupPhase::Response, deadline: later(start, 750) };
    reveal_with_fuel(ticked_late, 2);
    assert(looks.subrange(0, 0) =~= Seq::<u64>::empty());
    let one = looks.subrange(0, 1);
    assert(one.drop_last() =~= looks.subrange(0, 0));
    assert(one.last() == looks[0]);
    let two = looks.subrange(0, 2);
    assert(two.drop_last() =~= one);
    assert(two.last() == looks[1]);
    let three = looks.subrange(0, 3);
    assert(three.drop_last() =~= two);
    assert(three.last() == looks[2]);
    let four = looks.subrange(0, 4);
    assert(four.drop_last() =~= three);
    assert(four.last() == looks[3]);
    let five = looks.subrange(0, 5);
    assert(five.drop_last() =~= four);
    assert(five.last() == looks[4]);
    assert(looks.drop_last() =~= five);
    assert(looks.last() == looks[5]);
    assert(ticked_late(clock, one).phase is TreeExit);
    assert(ticked_late(clock, two).phase is Terminate);
    assert(ticked_late(clock, three).phase is Kill);
    assert(ticked_late(clock, four).phase is Threads);
    assert(ticked_late(clock, five).phase is Joins);
}

// What is left of sessions ----------------------------------------------------------------

/// What frames are charged together.
pub open spec fn frames_charge(frames: Seq<FrameRecord>) -> int
    decreases frames.len(),
{
    if frames.len() == 0 {
        0
    } else {
        frames_charge(frames.drop_last()) + frames.last().charge
    }
}

/// What the frames that a session keeps are charged.
pub open spec fn held_by(session: SessionRecord) -> int {
    frames_charge(session.inbox) + (match session.outbox {
        Some(outbox) => frames_charge(outbox.frames),
        None => 0,
    })
}

proof fn lemma_frames_charge(frames: Seq<ChargedPayload>)
    ensures
        frames_charge(frame_records(frames)) >= 0,
    decreases frames.len(),
{
    if frames.len() > 0 {
        lemma_frames_charge(frames.drop_last());
        assert(frame_records(frames).drop_last() =~= frame_records(frames.drop_last()));
    }
}

/// Hands back what frames are charged where all sessions share.
fn drop_frames(frames: Vec<ChargedPayload>, global: &mut GlobalPayloadBudget)
    requires
        old(global).well_formed(),
    ensures
        final(global).well_formed(),
        *final(global) == old(global).without(frames_charge(frame_records(frames@))),
{
    let mut frames = frames;
    let ghost whole = global.without(frames_charge(frame_records(frames@)));
    while frames.len() > 0
        invariant
            global.well_formed(),
            whole == global.without(frames_charge(frame_records(frames@))),
        decreases frames@.len(),
    {
        let ghost before = frame_records(frames@);
        match frames.pop() {
            None => {},
            Some(frame) => {
                proof {
                    lemma_frames_charge(frames@);
                    assert(frame_records(frames@) =~= before.drop_last());
                    assert(before.last() == frame_record(frame));
                }
                global.pool.release(frame.permit.bytes);
            },
        }
    }
}

/// A session that failed was cleaned up, or could not be.
pub open spec fn cleaned_up(manager: ManagerRecord, at: int, outcome: CleanupOutcome, now: u64) -> ManagerRecord {
    let failure = manager.failed[at];
    let key = failure.session.key;
    match outcome {
        CleanupOutcome::Complete => ManagerRecord {
            failed: manager.failed.remove(at),
            book: with_failure(manager.book, key, failure.error, now),
            global: manager.global.without(held_by(failure.session)),
            ..manager
        },
        CleanupOutcome::Quarantined => ManagerRecord {
            failed: manager.failed.remove(at),
            quarantined: manager.quarantined.push(failure.session),
            book: BookRecord {
                permanent: manager.book.permanent.insert(key, quarantine_text()),
                ..manager.book
            },
            stats: NavigationCleanupSnapshot {
                quarantined_process_owners: capped(
                    manager.quarantined.len() + 1 + manager.spawns.len(),
                ),
                ..manager.stats
            },
            ..manager
        },
    }
}

/// Keys without the one at a place.
proof fn lemma_removed_key(keys: Seq<KeyRecord>, at: int)
    requires
        distinct(keys),
        0 <= at < keys.len(),
    ensures
        distinct(keys.remove(at)),
        forall|i: int|
            0 <= i < keys.remove(at).len() ==> #[trigger] keys.remove(at)[i] != keys[at],
        forall|i: int|
            0 <= i < keys.remove(at).len() ==> keys.contains(#[trigger] keys.remove(at)[i]),
{
    let rest = keys.remove(at);
    assert forall|i: int| 0 <= i < rest.len() implies #[trigger] rest[i] == keys[if i < at {
        i
    } else {
        i + 1
    }] by {}
    assert forall|i: int, j: int| 0 <= i < j < rest.len() implies #[trigger] rest[i]
        != #[trigger] rest[j] by {}
}

proof fn lemma_apart_part(
    part: Seq<KeyRecord>,
    keys: Seq<KeyRecord>,
    others: Seq<KeyRecord>,
)
    requires
        forall|i: int| 0 <= i < part.len() ==> keys.contains(#[trigger] part[i]),
    ensures
        apart(keys, others) ==> apart(part, others),
        apart(others, keys) ==> apart(others, part),
{
    if apart(keys, others) {
        assert forall|i: int, j: int|
            0 <= i < part.len() && 0 <= j < others.len() implies #[trigger] part[i]
            != #[trigger] others[j] by {
            assert(keys.contains(part[i]));
            let k = choose|k: int| 0 <= k < keys.len() && keys[k] == part[i];
            assert(keys[k] != others[j]);
        }
    }
    if apart(others, keys) {
        assert forall|i: int, j: int|
            0 <= i < others.len() && 0 <= j < part.len() implies #[trigger] others[i]
            != #[trigger] part[j] by {
            assert(keys.contains(part[j]));
            let k = choose|k: int| 0 <= k < keys.len() && keys[k] == part[j];
            assert(others[i] != keys[k]);
        }
    }
}

proof fn lemma_pushed_key(
    keys: Seq<KeyRecord>,
    key: KeyRecord,
    others: Seq<KeyRecord>,
)
    requires
        distinct(keys),
        forall|i: int| 0 <= i < keys.len() ==> #[trigger] keys[i] != key,
    ensures
        distinct(keys.push(key)),
        apart(keys, others) && (forall|i: int| 0 <= i < others.len() ==> #[trigger] others[i] != key)
            ==> apart(keys.push(key), others),
        apart(others, keys) && (forall|i: int| 0 <= i < others.len() ==> #[trigger] others[i] != key)
            ==> apart(others, keys.push(key)),
{
    let more = keys.push(key);
    assert forall|i: int| 0 <= i < more.len() implies #[trigger] more[i] == (if i < keys.len() {
        keys[i]
    } else {
        key
    }) by {}
}

impl NavigationManager {
    /// A session that failed was cleaned up, or could not be.
    #[verifier::rlimit(60)]
    pub fn finish_failed_session_cleanup(&mut self, at: usize, outcome: CleanupOutcome, now: u64)
        requires
            old(self).well_formed(),
            at < old(self).failed@.len(),
        ensures
            final(self).well_formed(),
            final(self)@ == cleaned_up(old(self)@, at as int, outcome, now),
    {
        let ghost before = self@;
        let ghost had = self.failed@;
        proof {
            assert(had[at as int].session.well_formed());
            assert(before.failed[at as int] == had[at as int]@);
        }
        let failure = self.failed.remove(at);
        let ghost key = failure.session.key@;
        let ghost all = failed_keys(before.failed);
        let ghost rest = all.remove(at as int);
        let ghost sessions = session_keys(before.sessions);
        let ghost quarantined = session_keys(before.quarantined);
        proof {
            let after = self.failed@;
            assert forall|i: int| 0 <= i < after.len() implies #[trigger] after[i] == had[if i
                < at {
                i
            } else {
                i + 1
            }] by {}
            assert(self@.failed =~= before.failed.remove(at as int));
            assert(failed_keys(self@.failed) =~= rest);
            assert(all[at as int] == key);
            lemma_removed_key(all, at as int);
            lemma_apart_part(rest, all, sessions);
            lemma_apart_part(rest, all, quarantined);
            lemma_apart_part(rest, all, before.spawns);
        }
        match outcome {
            CleanupOutcome::Complete => {
                self.book.record_failure_at(&failure.session.key, failure.error.as_str(), now);
                let ghost left = failure.session@;
                proof {
                    lemma_frames_charge(failure.session.inbox@);
                    if failure.session.writer is Some {
                        lemma_frames_charge(failure.session.writer->0.frames@);
                    }
                }
                drop_frames(failure.session.inbox, &mut self.global);
                if let Some(outbox) = failure.session.writer {
                    drop_frames(outbox.frames, &mut self.global);
                }
                assert(self@.global == before.global.without(held_by(left)));
            },
            CleanupOutcome::Quarantined => {
                self.book.give_up(
                    failure.session.key.copy(),
                    copy_text("language server cleanup quarantined an unfinished process owner"),
                );
                let count: usize = self.quarantined.len().saturating_add(1).saturating_add(
                    self.quarantined_spawns.len(),
                );
                self.stats.quarantined_process_owners = count;
                let session = failure.session;
                let ghost left = session@;
                self.quarantined.push(session);
                proof {
                    assert(self@.quarantined =~= before.quarantined.push(left));
                    assert(session_keys(self@.quarantined) =~= quarantined.push(key));
                    assert forall|i: int| 0 <= i < quarantined.len() implies #[trigger] quarantined[i]
                        != key by {
                        assert(all[at as int] != quarantined[i]);
                    }
                    assert forall|i: int| 0 <= i < sessions.len() implies #[trigger] sessions[i]
                        != key by {
                        assert(sessions[i] != all[at as int]);
                    }
                    assert forall|i: int| 0 <= i < before.spawns.len() implies #[trigger] before.spawns[i]
                        != key by {
                        assert(all[at as int] != before.spawns[i]);
                    }
                    lemma_pushed_key(quarantined, key, sessions);
                    lemma_pushed_key(quarantined, key, rest);
                    lemma_pushed_key(quarantined, key, before.spawns);
                }
            },
        }
    }
}

/// Requests are dropped without an answer, and their documents handed back.
pub open spec fn dropped(
    manager: ManagerRecord,
    epoch: SessionEpoch,
    requests: Seq<PendingUserRequest>,
) -> ManagerRecord
    decreases requests.len(),
{
    if requests.len() == 0 {
        manager
    } else {
        released(
            dropped(manager, epoch, requests.drop_last()),
            Some(epoch),
            requests.last().document.permit.bytes as int,
        )
    }
}

/// What the documents of requests are charged.
pub open spec fn documents_charge(requests: Seq<PendingUserRequest>) -> int
    decreases requests.len(),
{
    if requests.len() == 0 {
        0
    } else {
        documents_charge(requests.drop_last()) + requests.last().document.permit.bytes
    }
}

/// A session at work was cleaned up because everything ends, or could not be. What
/// waits for it is dropped.
pub open spec fn shut_down(manager: ManagerRecord, at: int, outcome: CleanupOutcome) -> ManagerRecord {
    let key = manager.sessions[at].key;
    let alone = dropped(
        ManagerRecord { waiting: waiting_for_others(manager.waiting, key), ..manager },
        manager.sessions[at].epoch,
        waiting_for(manager.waiting, key),
    );
    let session = alone.sessions[at];
    let gone = ManagerRecord { sessions: alone.sessions.remove(at), ..alone };
    match outcome {
        CleanupOutcome::Complete => ManagerRecord {
            global: gone.global.without(documents_charge(owed(session)) + held_by(session)),
            ..gone
        },
        CleanupOutcome::Quarantined => ManagerRecord {
            quarantined: gone.quarantined.push(session),
            stats: NavigationCleanupSnapshot {
                quarantined_process_owners: capped(
                    gone.quarantined.len() + 1 + gone.spawns.len(),
                ),
                ..gone.stats
            },
            ..gone
        },
    }
}

proof fn lemma_dropped(manager: ManagerRecord, epoch: SessionEpoch, requests: Seq<PendingUserRequest>)
    ensures
        ({
            let after = dropped(manager, epoch, requests);
            &&& after.sessions.len() == manager.sessions.len()
            &&& session_keys(after.sessions) == session_keys(manager.sessions)
            &&& failed_keys(after.failed) == failed_keys(manager.failed)
            &&& session_keys(after.quarantined) == session_keys(manager.quarantined)
            &&& after.spawns == manager.spawns
            &&& after.waiting == manager.waiting
        }),
    decreases requests.len(),
{
    if requests.len() > 0 {
        lemma_dropped(manager, epoch, requests.drop_last());
        lemma_released_keys(
            dropped(manager, epoch, requests.drop_last()),
            Some(epoch),
            requests.last().document.permit.bytes as int,
        );
    }
}

proof fn lemma_documents_charge(requests: Seq<PendingUserRequest>)
    ensures
        documents_charge(requests) >= 0,
    decreases requests.len(),
{
    if requests.len() > 0 {
        lemma_documents_charge(requests.drop_last());
    }
}

/// Hands back what the documents of requests are charged where all sessions share.
fn drop_documents(requests: Vec<PendingUserRequest>, global: &mut GlobalPayloadBudget)
    requires
        old(global).well_formed(),
    ensures
        final(global).well_formed(),
        *final(global) == old(global).without(documents_charge(requests@)),
{
    let mut requests = requests;
    let ghost whole = global.without(documents_charge(requests@));
    while requests.len() > 0
        invariant
            global.well_formed(),
            whole == global.without(documents_charge(requests@)),
        decreases requests@.len(),
    {
        let ghost before = requests@;
        match requests.pop() {
            None => {},
            Some(pending) => {
                proof {
                    lemma_documents_charge(requests@);
                    assert(requests@ =~= before.drop_last());
                    assert(before.last() == pending);
                }
                global.pool.release(pending.document.permit.bytes);
            },
        }
    }
}

impl NavigationManager {
    /// Drops requests without an answer.
    fn drop_requests(&mut self, epoch: SessionEpoch, requests: Vec<PendingUserRequest>)
        requires
            old(self).well_formed(),
        ensures
            final(self).well_formed(),
            final(self)@ == dropped(old(self)@, epoch, requests@),
    {
        let mut requests = requests;
        let ghost all = requests@;
        let ghost before = self@;
        let ghost mut done: int = 0;
        while requests.len() > 0
            invariant
                0 <= done <= all.len(),
                requests@ == all.subrange(done, all.len() as int),
                self.well_formed(),
                self@ == dropped(before, epoch, all.subrange(0, done)),
            decreases requests@.len(),
        {
            let pending = requests.remove(0);
            proof {
                assert(pending == all[done]);
                assert(all.subrange(0, done + 1).drop_last() =~= all.subrange(0, done));
                assert(all.subrange(0, done + 1).last() == pending);
                assert(requests@ =~= all.subrange(done + 1, all.len() as int));
            }
            self.release(Some(epoch), pending.document.permit);
            proof {
                done = done + 1;
            }
        }
        assert(all.subrange(0, all.len() as int) =~= all);
    }

    /// A session at work was cleaned up because everything ends, or could not be.
    #[verifier::rlimit(80)]
    pub fn finish_shutdown_cleanup(&mut self, at: usize, outcome: CleanupOutcome)
        requires
            old(self).well_formed(),
            at < old(self).sessions@.len(),
        ensures
            final(self).well_formed(),
            final(self)@ == shut_down(old(self)@, at as int, outcome),
    {
        let ghost before = self@;
        assert(before.sessions[at as int] == self.sessions@[at as int]@);
        let epoch = self.sessions[at].epoch;
        let key = self.sessions[at].key.copy();
        let waiting = self.take_waiting(&key);
        let ghost taken = self@;
        self.drop_requests(epoch, waiting);
        let ghost alone = self@;
        let ghost all = session_keys(alone.sessions);
        let ghost rest = all.remove(at as int);
        let ghost failed = failed_keys(alone.failed);
        let ghost quarantined = session_keys(alone.quarantined);
        let ghost wanted = key@;
        let ghost had = self.sessions@;
        proof {
            lemma_dropped(taken, epoch, waiting_for(before.waiting, wanted));
            lemma_others_wait_for_others(before.waiting, wanted);
            assert(all[at as int] == wanted);
            assert(had[at as int].well_formed());
            assert(alone.sessions[at as int] == had[at as int]@);
            lemma_removed_key(all, at as int);
            lemma_apart_part(rest, all, failed);
            lemma_apart_part(rest, all, quarantined);
            lemma_apart_part(rest, all, alone.spawns);
        }
        let session = self.sessions.remove(at);
        proof {
            let after = self.sessions@;
            assert forall|i: int| 0 <= i < after.len() implies #[trigger] after[i] == had[if i
                < at {
                i
            } else {
                i + 1
            }] by {}
            assert(self@.sessions =~= alone.sessions.remove(at as int));
            assert(session_keys(self@.sessions) =~= rest);
            assert forall|i: int| 0 <= i < self@.waiting.len() implies rest.contains(
                (#[trigger] self@.waiting[i]).key,
            ) by {
                let other = self@.waiting[i].key;
                assert(other != wanted);
                assert(all.contains(other));
                let j = choose|j: int| 0 <= j < all.len() && all[j] == other;
                assert(j != at);
                if j < at {
                    assert(rest[j] == other);
                } else {
                    assert(rest[j - 1] == other);
                }
            }
        }
        match outcome {
            CleanupOutcome::Complete => {
                let ghost left = session@;
                let mut session = session;
                proof {
                    lemma_frames_charge(session.inbox@);
                    if session.writer is Some {
                        lemma_frames_charge(session.writer->0.frames@);
                    }
                    lemma_documents_charge(owed(left));
                }
                let requests = session.drain();
                drop_documents(requests, &mut self.global);
                drop_frames(session.inbox, &mut self.global);
                if let Some(outbox) = session.writer {
                    drop_frames(outbox.frames, &mut self.global);
                }
                assert(self@.global == alone.global.without(
                    documents_charge(owed(left)) + held_by(left),
                ));
            },
            CleanupOutcome::Quarantined => {
                let count: usize = self.quarantined.len().saturating_add(1).saturating_add(
                    self.quarantined_spawns.len(),
                );
                self.stats.quarantined_process_owners = count;
                let ghost left = session@;
                self.quarantined.push(session);
                proof {
                    assert(self@.quarantined =~= alone.quarantined.push(left));
                    assert(session_keys(self@.quarantined) =~= quarantined.push(wanted));
                    assert forall|i: int| 0 <= i < quarantined.len() implies #[trigger] quarantined[i]
                        != wanted by {
                        assert(all[at as int] != quarantined[i]);
                    }
                    assert forall|i: int| 0 <= i < failed.len() implies #[trigger] failed[i]
                        != wanted by {
                        assert(all[at as int] != failed[i]);
                    }
                    assert forall|i: int| 0 <= i < alone.spawns.len() implies #[trigger] alone.spawns[i]
                        != wanted by {
                        assert(all[at as int] != alone.spawns[i]);
                    }
                    lemma_pushed_key(quarantined, wanted, rest);
                    lemma_pushed_key(quarantined, wanted, failed);
                    lemma_pushed_key(quarantined, wanted, alone.spawns);
                }
            },
        }
    }
}

/// Nothing is left to do in a step of the cleanup of a session.
pub open spec fn is_settled(
    phase: CleanupPhase,
    progress: ProgressRecord,
    done: IoThreads,
    threads_left: int,
) -> bool {
    match phase {
        CleanupPhase::Response => progress.answered,
        CleanupPhase::TreeExit => progress.tree_finished,
        CleanupPhase::Terminate => progress.tree_finished,
        CleanupPhase::Kill => progress.tree_finished,
        CleanupPhase::Threads => progress.synthetic || (done.count() == IO_THREAD_COUNT
            && threads_left == 0),
        CleanupPhase::Joins => threads_left == 0,
        CleanupPhase::Done => true,
    }
}

impl CleanupProgress {
    pub fn settled(&self, phase: CleanupPhase, done: &IoThreads, threads_left: usize) -> (settled:
        bool)
        ensures
            settled == is_settled(phase, self@, *done, threads_left as int),
    {
        match phase {
            CleanupPhase::Response => self.shutdown_response_finished,
            CleanupPhase::TreeExit => self.tree_finished,
            CleanupPhase::Terminate => self.tree_finished,
            CleanupPhase::Kill => self.tree_finished,
            CleanupPhase::Threads => self.synthetic_session || (done.len() == IO_THREAD_COUNT
                && threads_left == 0),
            CleanupPhase::Joins => threads_left == 0,
            CleanupPhase::Done => true,
        }
    }
}

/// A server is first waited for, then ended and at last killed, and then its threads are; each
/// step has its time, and the next begins when one is settled or its time is over.
pub proof fn law_cleanups_go_step_by_step(clock: CleanupClock, settled: bool, now: u64)
    ensures
        !settled && now < clock.deadline ==> ticked(clock, settled, now) == clock,
        settled || now >= clock.deadline ==> {
            let after = ticked(clock, settled, now);
            &&& clock.phase is Response ==> after.phase is TreeExit
            &&& clock.phase is TreeExit ==> after.phase is Terminate
            &&& clock.phase is Terminate ==> after.phase is Kill
            &&& clock.phase is Kill ==> after.phase is Threads
            &&& clock.phase is Threads ==> after.phase is Joins
            &&& clock.phase is Joins ==> after.phase is Done
            &&& now + 1000 <= u64::MAX ==> after.deadline == now + (match after.phase {
                CleanupPhase::Response => 750int,
                CleanupPhase::TreeExit => 750,
                CleanupPhase::Terminate => 250,
                CleanupPhase::Kill => 1000,
                CleanupPhase::Threads => 750,
                CleanupPhase::Joins => 250,
                CleanupPhase::Done => 0,
            })
        },
{
}

/// A cleanup is complete if the processes are gone, nothing went wrong, no thread is left,
/// and the three threads of a session that had them were joined.
pub proof fn law_clean_means_nothing_is_left(
    progress: ProgressRecord,
    threads_left: int,
    joined: int,
)
    ensures
        is_clean(progress, threads_left, joined) <==> progress.tree_finished && progress.error
            is None && threads_left == 0 && (if progress.synthetic {
            joined == 0
        } else {
            joined == 3
        }),
{
}

/// What a cleanup did is counted once.
pub proof fn law_cleanups_are_counted(
    stats: NavigationCleanupSnapshot,
    progress: ProgressRecord,
    joined: int,
)
    requires
        stats.sessions_cleaned < 1000000,
        stats.clean_exits < 1000000,
        stats.forced_tree_cleanups < 1000000,
        stats.direct_children_reaped < 1000000,
        stats.process_owners_dropped < 1000000,
        stats.io_threads_joined < 1000000,
        0 <= joined <= 3,
    ensures
        ({
            let after = counted(stats, progress, joined);
            &&& after.sessions_cleaned == stats.sessions_cleaned + 1
            &&& after.clean_exits == stats.clean_exits + (if progress.clean_exit {
                1int
            } else {
                0
            })
            &&& after.forced_tree_cleanups == stats.forced_tree_cleanups + (if progress.forced {
                1int
            } else {
                0
            })
            &&& after.direct_children_reaped == stats.direct_children_reaped + (if progress.reaped {
                1int
            } else {
                0
            })
            &&& after.io_threads_joined == stats.io_threads_joined + joined
            &&& after.process_owners_dropped == stats.process_owners_dropped + 1
            &&& after.quarantined_process_owners == stats.quarantined_process_owners
        }),
{
}

/// A process tree that is gone is done with and its child was reaped; it ended cleanly only
/// before it was ended, in an orderly session. The first fault is the one that is told.
pub proof fn law_trees_are_done_with_once(
    progress: ProgressRecord,
    poll: TreePoll,
    clean_phase: bool,
)
    ensures
        progress.tree_finished ==> tree_seen(progress, poll, clean_phase) == progress
            && forced_tree_seen(progress, poll) == progress,
        !progress.tree_finished && poll is Gone ==> {
            let after = tree_seen(progress, poll, clean_phase);
            let forced = forced_tree_seen(progress, poll);
            &&& after.tree_finished && after.reaped && after.clean_exit == (clean_phase
                && progress.orderly)
            &&& forced.tree_finished && forced.reaped && forced.clean_exit == progress.clean_exit
        },
        poll is Running ==> tree_seen(progress, poll, clean_phase) == progress && forced_tree_seen(
            progress,
            poll,
        ) == progress,
        !progress.tree_finished && poll is Fault ==> tree_seen(
            progress,
            poll,
            clean_phase,
        ).error is Some && !tree_seen(progress, poll, clean_phase).tree_finished,
        progress.error is Some ==> tree_seen(progress, poll, clean_phase).error == progress.error,
{
}

} // verus!
