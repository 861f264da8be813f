//! Whether the disk still holds the source that is shown.

use crate::document::NavigationSource;
use crate::git::holds_zero;
use crate::positions::{fed, MAX_NAVIGATION_LINES, MAX_NAVIGATION_TEXT_BYTES};
use crate::preview::{marked_lines, without_mark};
use crate::source::{join_lines, joined};
use crate::text::{
    ended, law_ended_lines_are_read_back, string_views, text_equal, text_lines, utf8_text,
};
use std::sync::Arc;
use vstd::prelude::*;

verus! {

/// How long a comparison may take, in milliseconds.
pub const DISK_WINDOW: u64 = 500;

/// A comparison to be made.
#[derive(Debug)]
pub struct DiskSnapshotJob {
    pub generation: u64,
    pub content_root: Vec<u8>,
    pub source: Arc<NavigationSource>,
    pub deadline: u64,
}

/// What a comparison is about.
pub struct JobRecord {
    pub generation: u64,
    pub root: Seq<u8>,
    pub source: NavigationSource,
    pub deadline: u64,
}

impl View for DiskSnapshotJob {
    type V = JobRecord;

    open spec fn view(&self) -> JobRecord {
        JobRecord {
            generation: self.generation,
            root: self.content_root@,
            source: *self.source,
            deadline: self.deadline,
        }
    }
}

/// The time at which a comparison is given up.
pub open spec fn disk_deadline(now: u64, request_deadline: u64) -> int {
    if now + DISK_WINDOW < request_deadline {
        now + DISK_WINDOW
    } else {
        request_deadline as int
    }
}

impl DiskSnapshotJob {
    pub fn bounded(
        generation: u64,
        content_root: Vec<u8>,
        source: Arc<NavigationSource>,
        now: u64,
        request_deadline: u64,
    ) -> (job: Self)
        ensures
            job.generation == generation,
            job.content_root == content_root,
            job.source == source,
            job.deadline == disk_deadline(now, request_deadline),
    {
        let own: u64 = now.saturating_add(DISK_WINDOW);
        let deadline: u64 = if own < request_deadline {
            own
        } else {
            request_deadline
        };
        DiskSnapshotJob { generation, content_root, source, deadline }
    }
}

#[derive(Debug, PartialEq, Eq)]
pub enum DiskSnapshotResult {
    Current { generation: u64 },
    Stale { generation: u64 },
    Failed { generation: u64, message: String },
}

impl DiskSnapshotResult {
    pub open spec fn generation(self) -> u64 {
        match self {
            DiskSnapshotResult::Current { generation } => generation,
            DiskSnapshotResult::Stale { generation } => generation,
            DiskSnapshotResult::Failed { generation, message: _ } => generation,
        }
    }
}

/// Lines with line feeds between them.
pub open spec fn glued(lines: Seq<Seq<char>>) -> Seq<char>
    decreases lines.len(),
{
    if lines.len() == 0 {
        Seq::empty()
    } else if lines.len() == 1 {
        lines[0]
    } else {
        glued(lines.drop_last()) + seq!['\n'] + lines.last()
    }
}

proof fn lemma_glued(lines: Seq<String>)
    ensures
        joined(lines) == glued(string_views(lines)),
    decreases lines.len(),
{
    if lines.len() > 1 {
        lemma_glued(lines.drop_last());
        assert(string_views(lines).drop_last() =~= string_views(lines.drop_last()));
        assert(string_views(lines).last() == lines.last()@);
    } else if lines.len() == 1 {
        assert(string_views(lines)[0] == lines[0]@);
    }
}

/// Whether bytes from the disk are the source that was expected: nothing can be
/// said of bytes that are not text.
pub open spec fn snapshot_verdict(bytes: Seq<u8>, length: u64, expected: Seq<char>) -> Option<
    bool,
> {
    if bytes.len() != length || bytes.len() > MAX_NAVIGATION_TEXT_BYTES || bytes.contains(0) {
        Some(false)
    } else if !vstd::utf8::valid_utf8(bytes) {
        None
    } else {
        let lines = text_lines(without_mark(vstd::utf8::decode_utf8(bytes)));
        Some(lines.len() <= MAX_NAVIGATION_LINES && glued(lines) == expected)
    }
}

/// How many bytes are read for a comparison: one more than are expected, so that
/// a longer file can be told from the same.
pub fn snapshot_read_limit(length: u64) -> (limit: usize)
    ensures
        limit == (if length < MAX_NAVIGATION_TEXT_BYTES {
            length + 1
        } else {
            MAX_NAVIGATION_TEXT_BYTES + 1
        }),
{
    if length < MAX_NAVIGATION_TEXT_BYTES as u64 {
        length as usize + 1
    } else {
        MAX_NAVIGATION_TEXT_BYTES + 1
    }
}

/// Compares bytes from the disk with the source that is shown.
pub fn read_and_compare_snapshot(bytes: &[u8], length: u64, expected: &str) -> (verdict: Option<
    bool,
>)
    ensures
        verdict == snapshot_verdict(bytes@, length, expected@),
{
    if bytes.len() as u64 != length || bytes.len() > MAX_NAVIGATION_TEXT_BYTES || holds_zero(
        bytes,
    ) {
        return Some(false);
    }
    match utf8_text(bytes) {
        None => None,
        Some(words) => {
            proof {
                vstd::utf8::encode_utf8_decode_utf8(words@);
            }
            let lines = marked_lines(words);
            if lines.len() > MAX_NAVIGATION_LINES {
                return Some(false);
            }
            let whole = join_lines(&lines);
            proof {
                lemma_glued(lines@);
            }
            Some(text_equal(whole.as_str(), expected))
        },
    }
}

#[derive(Clone, Copy, Debug, PartialEq, Eq, Structural)]
pub enum LaneError {
    Unavailable,
    Full,
}

impl LaneError {
    pub open spec fn text(self) -> Seq<char> {
        match self {
            LaneError::Unavailable => "File revalidation worker is unavailable."@,
            LaneError::Full => "File revalidation queue is full."@,
        }
    }

    pub fn message(&self) -> (text: &'static str)
        ensures
            text@ == self.text(),
    {
        match self {
            LaneError::Unavailable => "File revalidation worker is unavailable.",
            LaneError::Full => "File revalidation queue is full.",
        }
    }
}

/// One worker that makes comparisons: one at a time, with one more waiting. A
/// worker that does not come back in time is given up and not replaced.
#[derive(Debug)]
pub struct DiskRevalidationLane {
    pub queued: Option<DiskSnapshotJob>,
    pub active_deadline: Option<u64>,
    pub wedged: bool,
}

/// What a worker is at.
pub struct LaneRecord {
    pub queued: Option<JobRecord>,
    pub active_deadline: Option<u64>,
    pub wedged: bool,
}

impl View for DiskRevalidationLane {
    type V = LaneRecord;

    open spec fn view(&self) -> LaneRecord {
        LaneRecord {
            queued: match self.queued {
                Some(job) => Some(job@),
                None => None,
            },
            active_deadline: self.active_deadline,
            wedged: self.wedged,
        }
    }
}

impl DiskRevalidationLane {
    pub fn start() -> (lane: Self)
        ensures
            lane.queued is None,
            lane.active_deadline is None,
            !lane.wedged,
    {
        DiskRevalidationLane { queued: None, active_deadline: None, wedged: false }
    }

    pub fn try_submit(&mut self, job: DiskSnapshotJob) -> (result: Result<(), LaneError>)
        ensures
            final(self).active_deadline == old(self).active_deadline,
            final(self).wedged == old(self).wedged,
            if old(self).wedged {
                result == Err::<(), _>(LaneError::Unavailable) && final(self).queued == old(
                    self,
                ).queued
            } else if old(self).queued is Some {
                result == Err::<(), _>(LaneError::Full) && final(self).queued == old(self).queued
            } else {
                result is Ok && final(self).queued == Some(job)
            },
    {
        if self.wedged {
            return Err(LaneError::Unavailable);
        }
        if self.queued.is_some() {
            return Err(LaneError::Full);
        }
        self.queued = Some(job);
        Ok(())
    }

    /// Hands the waiting comparison to the worker, if the worker is free.
    pub fn next_job(&mut self) -> (job: Option<DiskSnapshotJob>)
        ensures
            final(self).wedged == old(self).wedged,
            if old(self).wedged || old(self).active_deadline is Some {
                job is None && *final(self) == *old(self)
            } else {
                &&& job == old(self).queued
                &&& final(self).queued is None
                &&& final(self).active_deadline == (match old(self).queued {
                    Some(next) => Some(next.deadline),
                    None => None,
                })
            },
    {
        if self.wedged || self.active_deadline.is_some() {
            return None;
        }
        let job = self.queued.take();
        self.active_deadline = match &job {
            Some(next) => Some(next.deadline),
            None => None,
        };
        job
    }

    /// The worker came back.
    pub fn finish(&mut self)
        ensures
            final(self).active_deadline is None,
            final(self).queued == old(self).queued,
            final(self).wedged == old(self).wedged,
    {
        self.active_deadline = None;
    }

    /// Gives the worker up if it is overdue, and says whether it is.
    pub fn mark_wedged_if_overdue(&mut self, now: u64) -> (overdue: bool)
        ensures
            overdue == (old(self).active_deadline matches Some(deadline) && now >= deadline),
            final(self).wedged == (old(self).wedged || overdue),
            final(self).queued == old(self).queued,
            final(self).active_deadline == old(self).active_deadline,
    {
        let overdue = match self.active_deadline {
            Some(deadline) => now >= deadline,
            None => false,
        };
        if overdue {
            self.wedged = true;
        }
        overdue
    }
}

proof fn lemma_glued_in_front(first: Seq<char>, rest: Seq<Seq<char>>)
    requires
        rest.len() > 0,
    ensures
        glued(seq![first] + rest) == first + seq!['\n'] + glued(rest),
    decreases rest.len(),
{
    let all = seq![first] + rest;
    assert(all.last() == rest.last());
    if rest.len() == 1 {
        assert(all.drop_last() =~= seq![first]);
        assert(glued(seq![first]) == first);
        assert(glued(rest) == rest[0]);
    } else {
        lemma_glued_in_front(first, rest.drop_last());
        assert(all.drop_last() =~= seq![first] + rest.drop_last());
        assert(glued(all) =~= first + seq!['\n'] + glued(rest));
    }
}

proof fn lemma_glued_as_fed(lines: Seq<Seq<char>>)
    ensures
        glued(lines) == fed(lines),
    decreases lines.len(),
{
    if lines.len() > 1 {
        let rest = lines.drop_first();
        lemma_glued_as_fed(rest);
        lemma_glued_in_front(lines[0], rest);
        assert(seq![lines[0]] + rest =~= lines);
    }
}

/// A file that holds the lines that are shown, with a line feed behind each, is current.
pub proof fn law_unchanged_files_are_current(lines: Seq<Seq<char>>)
    requires
        forall|i: int|
            0 <= i < lines.len() ==> !(#[trigger] lines[i]).contains('\n') && (lines[i].len() > 0
                ==> lines[i].last() != '\r'),
        lines.len() <= 2000,
        vstd::utf8::encode_utf8(ended(lines, seq!['\n'])).len() <= 524288,
        !vstd::utf8::encode_utf8(ended(lines, seq!['\n'])).contains(0),
        ended(lines, seq!['\n']).len() > 0 ==> ended(lines, seq!['\n'])[0] != '\u{feff}',
    ensures
        ({
            let bytes = vstd::utf8::encode_utf8(ended(lines, seq!['\n']));
            snapshot_verdict(bytes, bytes.len() as u64, fed(lines)) == Some(true)
        }),
{
    let words = ended(lines, seq!['\n']);
    law_ended_lines_are_read_back(lines, false);
    vstd::utf8::encode_utf8_decode_utf8(words);
    vstd::utf8::encode_utf8_valid_utf8(words);
    lemma_glued_as_fed(lines);
}

/// A file is current for one text at most; it is not if its length is not the one that was
/// read, if it is too long, or if it holds a zero byte.
pub proof fn law_a_file_is_current_for_one_text(
    bytes: Seq<u8>,
    length: u64,
    first: Seq<char>,
    second: Seq<char>,
)
    ensures
        snapshot_verdict(bytes, length, first) == Some(true) && snapshot_verdict(
            bytes,
            length,
            second,
        ) == Some(true) ==> first == second,
        snapshot_verdict(bytes, length, first) == Some(true) ==> bytes.len() == length
            && bytes.len() <= 524288 && !bytes.contains(0) && vstd::utf8::valid_utf8(bytes),
        bytes.len() != length || bytes.contains(0) ==> snapshot_verdict(bytes, length, first)
            == Some(false),
{
}

/// A comparison has half a second, but no more than the request has left.
pub proof fn law_comparisons_end_with_their_request(now: u64, request_deadline: u64)
    ensures
        disk_deadline(now, request_deadline) <= request_deadline,
        disk_deadline(now, request_deadline) <= now + 500,
        disk_deadline(now, request_deadline) == request_deadline || disk_deadline(
            now,
            request_deadline,
        ) == now + 500,
{
}

} // verus!
