//! Identifiers of requests, and what servers say that they can do.

use crate::process::{IoThreadDone, IoThreadKind};
use crate::text::{copy_text, text_equal};
use vstd::prelude::*;

verus! {

/// How many identifiers are remembered after their requests were given up.
pub const MAX_RETIRED_IDS: usize = 64;

pub const MAX_RPC_STRING_ID_BYTES: usize = 4 * 1024;

/// How many threads carry the output and input of a server.
pub const IO_THREAD_COUNT: usize = 3;

/// An identifier of a request.
#[derive(Debug, PartialEq, Eq, Hash)]
pub enum RpcId {
    Signed(i32),
    String(String),
}

/// What an identifier says.
pub enum IdRecord {
    Signed(i32),
    Words(Seq<char>),
}

impl View for RpcId {
    type V = IdRecord;

    open spec fn view(&self) -> IdRecord {
        match self {
            RpcId::Signed(value) => IdRecord::Signed(*value),
            RpcId::String(value) => IdRecord::Words(value@),
        }
    }
}

#[derive(Clone, Copy, Debug, PartialEq, Eq, Structural)]
pub enum RpcIdError {
    OutOfRange,
    TooLong,
}

impl RpcIdError {
    pub fn message(&self) -> (text: &'static str)
        ensures
            text@ == (match self {
                RpcIdError::OutOfRange => "JSON-RPC id is outside signed i32"@,
                RpcIdError::TooLong => "JSON-RPC string id exceeds 4 KiB"@,
            }),
    {
        match self {
            RpcIdError::OutOfRange => "JSON-RPC id is outside signed i32",
            RpcIdError::TooLong => "JSON-RPC string id exceeds 4 KiB",
        }
    }
}

impl RpcId {
    /// An identifier that was written as a number.
    pub fn from_number(value: i128) -> (result: Result<RpcId, RpcIdError>)
        ensures
            match result {
                Ok(id) => id == RpcId::Signed(value as i32) && i32::MIN <= value <= i32::MAX,
                Err(error) => error == RpcIdError::OutOfRange && !(i32::MIN <= value <= i32::MAX),
            },
    {
        if -2_147_483_648 <= value && value <= 2_147_483_647 {
            Ok(RpcId::Signed(value as i32))
        } else {
            Err(RpcIdError::OutOfRange)
        }
    }

    /// An identifier that was written as a text.
    pub fn from_text(value: String) -> (result: Result<RpcId, RpcIdError>)
        ensures
            match result {
                Ok(id) => id == RpcId::String(value) && vstd::utf8::encode_utf8(value@).len()
                    <= MAX_RPC_STRING_ID_BYTES,
                Err(error) => error == RpcIdError::TooLong && vstd::utf8::encode_utf8(value@).len()
                    > MAX_RPC_STRING_ID_BYTES,
            },
    {
        if value.as_str().as_bytes().len() > MAX_RPC_STRING_ID_BYTES {
            Err(RpcIdError::TooLong)
        } else {
            Ok(RpcId::String(value))
        }
    }

    pub fn same(&self, other: &RpcId) -> (same: bool)
        ensures
            same == (self@ == other@),
    {
        match (self, other) {
            (RpcId::Signed(left), RpcId::Signed(right)) => *left == *right,
            (RpcId::String(left), RpcId::String(right)) => text_equal(
                left.as_str(),
                right.as_str(),
            ),
            _ => false,
        }
    }

    pub fn copy(&self) -> (id: RpcId)
        ensures
            id@ == self@,
    {
        match self {
            RpcId::Signed(value) => RpcId::Signed(*value),
            RpcId::String(value) => RpcId::String(copy_text(value.as_str())),
        }
    }
}

/// Numbers the sessions.
#[derive(Clone, Copy, Debug, PartialEq, Eq, Hash, Structural)]
pub struct SessionEpoch(pub u64);

/// Hands out the numbers from zero up.
#[derive(Clone, Copy, Debug, PartialEq, Eq, Structural)]
pub struct RequestIdAllocator {
    pub next: Option<i32>,
}

impl Default for RequestIdAllocator {
    fn default() -> (allocator: Self)
        ensures
            allocator.next == Some(0i32),
    {
        RequestIdAllocator { next: Some(0) }
    }
}

/// The number behind a number, if there is one.
pub open spec fn following(value: i32) -> Option<i32> {
    if value < i32::MAX {
        Some((value + 1) as i32)
    } else {
        None
    }
}

impl RequestIdAllocator {
    /// The next number; nothing when the last was handed out.
    pub fn allocate(&mut self) -> (id: Option<i32>)
        ensures
            id == old(self).next,
            final(self).next == (match old(self).next {
                None => None,
                Some(value) => following(value),
            }),
    {
        match self.next {
            None => None,
            Some(value) => {
                self.next = if value < i32::MAX {
                    Some(value + 1)
                } else {
                    None
                };
                Some(value)
            },
        }
    }
}

/// The numbers that an allocator hands out in its next `count` calls.
pub open spec fn allocations(next: Option<i32>, count: nat) -> Seq<i32>
    decreases count,
{
    match next {
        None => Seq::empty(),
        Some(value) => if count == 0 {
            Seq::empty()
        } else {
            seq![value] + allocations(following(value), (count - 1) as nat)
        },
    }
}

/// No number is handed out twice.
pub proof fn law_numbers_are_not_repeated(next: Option<i32>, count: nat)
    ensures
        forall|i: int, j: int|
            0 <= i < j < allocations(next, count).len() ==> allocations(next, count)[i]
                < allocations(next, count)[j],
    decreases count,
{
    lemma_allocations_ascend(next, count);
}

proof fn lemma_allocations_ascend(next: Option<i32>, count: nat)
    ensures
        forall|i: int|
            0 <= i < allocations(next, count).len() ==> #[trigger] allocations(next, count)[i]
                == next->0 + i,
        allocations(next, count).len() > 0 ==> next is Some,
    decreases count,
{
    if let Some(value) = next {
        if count > 0 {
            lemma_allocations_ascend(following(value), (count - 1) as nat);
            let rest = allocations(following(value), (count - 1) as nat);
            let all = allocations(next, count);
            assert(all == seq![value] + rest);
            assert forall|i: int| 0 <= i < all.len() implies #[trigger] all[i] == value + i by {
                if i > 0 {
                    assert(all[i] == rest[i - 1]);
                }
            }
        }
    }
}

/// The identifiers of requests that were given up and not answered yet.
#[derive(Debug)]
pub struct RetiredIds {
    pub order: Vec<RpcId>,
}

pub open spec fn id_records(ids: Seq<RpcId>) -> Seq<IdRecord> {
    Seq::new(ids.len(), |i: int| ids[i]@)
}

impl View for RetiredIds {
    type V = Seq<IdRecord>;

    open spec fn view(&self) -> Seq<IdRecord> {
        id_records(self.order@)
    }
}

impl Default for RetiredIds {
    fn default() -> (retired: Self)
        ensures
            retired@ == Seq::<IdRecord>::empty(),
            retired.well_formed(),
    {
        let retired = RetiredIds { order: Vec::new() };
        assert(retired@ =~= Seq::<IdRecord>::empty());
        retired
    }
}

/// What is left of identifiers without one of them.
pub open spec fn without(ids: Seq<IdRecord>, id: IdRecord) -> Seq<IdRecord>
    decreases ids.len(),
{
    if ids.len() == 0 {
        Seq::empty()
    } else if ids.last() == id {
        without(ids.drop_last(), id)
    } else {
        without(ids.drop_last(), id).push(ids.last())
    }
}

impl RetiredIds {
    /// Nothing occurs twice, and there are not too many.
    pub open spec fn well_formed(&self) -> bool {
        self@.no_duplicates() && self@.len() <= MAX_RETIRED_IDS
    }

    fn contains(&self, id: &RpcId) -> (found: bool)
        ensures
            found == self@.contains(id@),
    {
        let mut index: usize = 0;
        while index < self.order.len()
            invariant
                index <= self.order@.len(),
                forall|i: int| 0 <= i < index ==> #[trigger] self@[i] != id@,
            decreases self.order@.len() - index,
        {
            if self.order[index].same(id) {
                assert(self@[index as int] == id@);
                return true;
            }
            assert(self@[index as int] == self.order@[index as int]@);
            index = index + 1;
        }
        false
    }

    /// Remembers an identifier. A full memory means that the session must start anew.
    pub fn insert(&mut self, id: RpcId) -> (accepted: bool)
        requires
            old(self).well_formed(),
        ensures
            final(self).well_formed(),
            accepted == (old(self)@.contains(id@) || old(self)@.len() < MAX_RETIRED_IDS),
            final(self)@ == (if accepted && !old(self)@.contains(id@) {
                old(self)@.push(id@)
            } else {
                old(self)@
            }),
    {
        if self.contains(&id) {
            return true;
        }
        if self.order.len() >= MAX_RETIRED_IDS {
            return false;
        }
        let ghost before = self@;
        let ghost said = id@;
        self.order.push(id);
        assert(self@ =~= before.push(said));
        true
    }

    /// Forgets an identifier, and says whether it was remembered.
    pub fn take(&mut self, id: &RpcId) -> (taken: bool)
        requires
            old(self).well_formed(),
        ensures
            final(self).well_formed(),
            taken == old(self)@.contains(id@),
            final(self)@ == without(old(self)@, id@),
            !final(self)@.contains(id@),
    {
        let mut kept: Vec<RpcId> = Vec::new();
        let mut taken = false;
        let mut index: usize = 0;
        let ghost before = self@;
        assert(id_records(kept@) =~= without(before.subrange(0, 0), id@));
        while index < self.order.len()
            invariant
                index <= self.order@.len(),
                before == self@,
                before.no_duplicates(),
                before.len() <= MAX_RETIRED_IDS,
                id_records(kept@) == without(before.subrange(0, index as int), id@),
                taken == before.subrange(0, index as int).contains(id@),
            decreases self.order@.len() - index,
        {
            let ghost shown = kept@;
            let ghost longer = before.subrange(0, index + 1);
            proof {
                assert(longer.drop_last() =~= before.subrange(0, index as int));
                assert(longer.last() == self.order@[index as int]@);
                assert(longer[index as int] == longer.last());
                assert forall|r: IdRecord| before.subrange(0, index as int).contains(r) implies
                    longer.contains(r) by {
                    let i = choose|i: int|
                        0 <= i < index && before.subrange(0, index as int)[i] == r;
                    assert(longer[i] == r);
                }
            }
            if self.order[index].same(id) {
                taken = true;
                assert(longer.contains(longer[index as int]));
            } else {
                let copy = self.order[index].copy();
                let ghost said = copy@;
                kept.push(copy);
                proof {
                    assert(id_records(kept@) =~= id_records(shown).push(said));
                    if longer.contains(id@) {
                        let i = choose|i: int| 0 <= i < longer.len() && longer[i] == id@;
                        assert(before.subrange(0, index as int)[i] == id@);
                    }
                }
            }
            index = index + 1;
        }
        proof {
            assert(before.subrange(0, before.len() as int) =~= before);
            lemma_without(before, id@);
        }
        self.order = kept;
        taken
    }
}

pub proof fn lemma_without(ids: Seq<IdRecord>, id: IdRecord)
    ensures
        forall|other: IdRecord|
            without(ids, id).contains(other) <==> ids.contains(other) && other != id,
        ids.no_duplicates() ==> without(ids, id).no_duplicates(),
        without(ids, id).len() <= ids.len(),
        ids.no_duplicates() && ids.contains(id) ==> without(ids, id).len() == ids.len() - 1,
        !ids.contains(id) ==> without(ids, id) == ids,
    decreases ids.len(),
{
    if ids.len() > 0 {
        let front = ids.drop_last();
        let last = ids.last();
        lemma_without(front, id);
        let rest = without(front, id);
        assert(ids =~= front.push(last));
        assert forall|other: IdRecord|
            without(ids, id).contains(other) <==> ids.contains(other) && other != id by {
            lemma_push_contains(front, last, other);
            lemma_push_contains(rest, last, other);
        }
        if ids.no_duplicates() {
            assert(front.no_duplicates()) by {
                assert forall|i: int, j: int|
                    0 <= i < front.len() && 0 <= j < front.len() && i != j implies front[i]
                    != front[j] by {
                    assert(ids[i] == front[i]);
                    assert(ids[j] == front[j]);
                }
            }
            assert(!front.contains(last)) by {
                if front.contains(last) {
                    let i = choose|i: int| 0 <= i < front.len() && front[i] == last;
                    assert(ids[i] == ids[ids.len() - 1]);
                }
            }
            if last != id {
                assert(!rest.contains(last));
                assert forall|i: int, j: int|
                    0 <= i < rest.push(last).len() && 0 <= j < rest.push(last).len() && i
                        != j implies rest.push(last)[i] != rest.push(last)[j] by {
                    if i < rest.len() {
                        assert(rest.contains(rest[i]));
                    }
                    if j < rest.len() {
                        assert(rest.contains(rest[j]));
                    }
                }
            }
        }
        lemma_push_contains(front, last, id);
        if !ids.contains(id) {
            assert(ids[ids.len() - 1] == last);
            assert(without(ids, id) =~= ids);
        }
    }
}

proof fn lemma_push_contains(s: Seq<IdRecord>, last: IdRecord, other: IdRecord)
    ensures
        s.push(last).contains(other) <==> s.contains(other) || other == last,
{
    let longer = s.push(last);
    if s.contains(other) {
        let i = choose|i: int| 0 <= i < s.len() && s[i] == other;
        assert(longer[i] == other);
    }
    if other == last {
        assert(longer[s.len() as int] == other);
    }
    if longer.contains(other) {
        let i = choose|i: int| 0 <= i < longer.len() && longer[i] == other;
        if i < s.len() {
            assert(s[i] == other);
        }
    }
}

/// An identifier that was remembered is forgotten by taking it, and the others
/// stay remembered in their order.
pub proof fn law_taking_undoes_remembering(ids: Seq<IdRecord>, id: IdRecord)
    requires
        ids.no_duplicates(),
        !ids.contains(id),
    ensures
        without(ids.push(id), id) == ids,
{
    assert(ids.push(id).drop_last() =~= ids);
    lemma_without(ids, id);
}

// Threads ---------------------------------------------------------------------------------

#[derive(Clone, Copy, Debug, PartialEq, Eq, Structural)]
pub enum LifecycleError {
    EpochMismatch,
    CompletedTwice,
}

impl LifecycleError {
    pub open spec fn text(self) -> Seq<char> {
        match self {
            LifecycleError::EpochMismatch => "language server I/O epoch mismatch"@,
            LifecycleError::CompletedTwice => "language server I/O thread completed twice"@,
        }
    }

    pub fn message(&self) -> (text: &'static str)
        ensures
            text@ == self.text(),
    {
        match self {
            LifecycleError::EpochMismatch => "language server I/O epoch mismatch",
            LifecycleError::CompletedTwice => "language server I/O thread completed twice",
        }
    }
}

/// Which of the three threads of a session are done.
#[derive(Clone, Copy, Debug, PartialEq, Eq, Structural)]
pub struct IoThreads {
    pub stdin: bool,
    pub stdout: bool,
    pub stderr: bool,
}

impl IoThreads {
    pub open spec fn holds(self, kind: IoThreadKind) -> bool {
        match kind {
            IoThreadKind::Stdin => self.stdin,
            IoThreadKind::Stdout => self.stdout,
            IoThreadKind::Stderr => self.stderr,
        }
    }

    pub open spec fn with(self, kind: IoThreadKind) -> IoThreads {
        match kind {
            IoThreadKind::Stdin => IoThreads { stdin: true, ..self },
            IoThreadKind::Stdout => IoThreads { stdout: true, ..self },
            IoThreadKind::Stderr => IoThreads { stderr: true, ..self },
        }
    }

    pub open spec fn count(self) -> int {
        (if self.stdin {
            1int
        } else {
            0
        }) + (if self.stdout {
            1int
        } else {
            0
        }) + (if self.stderr {
            1int
        } else {
            0
        })
    }

    pub fn empty() -> (threads: Self)
        ensures
            threads.count() == 0,
    {
        IoThreads { stdin: false, stdout: false, stderr: false }
    }

    pub fn contains(&self, kind: IoThreadKind) -> (found: bool)
        ensures
            found == self.holds(kind),
    {
        match kind {
            IoThreadKind::Stdin => self.stdin,
            IoThreadKind::Stdout => self.stdout,
            IoThreadKind::Stderr => self.stderr,
        }
    }

    /// Counts a thread; false if it was counted before.
    pub fn insert(&mut self, kind: IoThreadKind) -> (fresh: bool)
        ensures
            fresh == !old(self).holds(kind),
            *final(self) == old(self).with(kind),
    {
        let fresh = !self.contains(kind);
        match kind {
            IoThreadKind::Stdin => {
                self.stdin = true;
            },
            IoThreadKind::Stdout => {
                self.stdout = true;
            },
            IoThreadKind::Stderr => {
                self.stderr = true;
            },
        }
        fresh
    }

    pub fn len(&self) -> (count: usize)
        ensures
            count == self.count(),
    {
        let mut count: usize = 0;
        if self.stdin {
            count = count + 1;
        }
        if self.stdout {
            count = count + 1;
        }
        if self.stderr {
            count = count + 1;
        }
        count
    }
}

/// Notes that a thread is done: once each, and of this session only.
pub fn record_io_done(epoch: SessionEpoch, completed: &mut IoThreads, done: IoThreadDone) -> (result:
    Result<(), LifecycleError>)
    ensures
        if done.session_epoch != epoch.0 {
            result == Err::<(), _>(LifecycleError::EpochMismatch) && *final(completed) == *old(
                completed,
            )
        } else if old(completed).holds(done.kind) {
            result == Err::<(), _>(LifecycleError::CompletedTwice) && *final(completed) == *old(
                completed,
            )
        } else {
            result is Ok && *final(completed) == old(completed).with(done.kind)
        },
{
    if done.session_epoch != epoch.0 {
        return Err(LifecycleError::EpochMismatch);
    }
    if !completed.insert(done.kind) {
        return Err(LifecycleError::CompletedTwice);
    }
    Ok(())
}

// Capabilities ----------------------------------------------------------------------------

#[derive(Clone, Copy, Debug, PartialEq, Eq, Structural)]
pub enum TextChangeCapability {
    Absent,
    Full,
    Incremental,
}

#[derive(Clone, Copy, Debug, PartialEq, Eq, Structural)]
pub struct TextSyncCapability {
    pub open_close: bool,
    pub change: TextChangeCapability,
}

impl TextSyncCapability {
    pub open spec fn reads_disk(self) -> bool {
        !self.open_close || self.change is Absent
    }

    /// A server that is not told of documents reads them from disk, so the disk
    /// must hold what is shown.
    pub fn requires_disk_revalidation(self) -> (requires_it: bool)
        ensures
            requires_it == self.reads_disk(),
    {
        if !self.open_close {
            return true;
        }
        match self.change {
            TextChangeCapability::Absent => true,
            _ => false,
        }
    }
}

#[derive(Clone, Copy, Debug, PartialEq, Eq, Structural)]
pub struct NavigationCapabilities {
    pub definition: bool,
    pub references: bool,
    pub implementations: bool,
    pub document_symbols: bool,
    pub text_document_sync: TextSyncCapability,
}

pub open spec fn sync_of_kind(kind: int) -> Option<TextSyncCapability> {
    if kind == 0 {
        Some(TextSyncCapability { open_close: false, change: TextChangeCapability::Absent })
    } else if kind == 1 {
        Some(TextSyncCapability { open_close: true, change: TextChangeCapability::Full })
    } else if kind == 2 {
        Some(TextSyncCapability { open_close: true, change: TextChangeCapability::Incremental })
    } else {
        None
    }
}

/// How a server is told of documents, by a number; nothing for an unknown one.
pub fn normalize_text_sync_kind(kind: i64) -> (sync: Option<TextSyncCapability>)
    ensures
        sync == sync_of_kind(kind as int),
{
    if kind == 0 {
        Some(TextSyncCapability { open_close: false, change: TextChangeCapability::Absent })
    } else if kind == 1 {
        Some(TextSyncCapability { open_close: true, change: TextChangeCapability::Full })
    } else if kind == 2 {
        Some(TextSyncCapability { open_close: true, change: TextChangeCapability::Incremental })
    } else {
        None
    }
}

pub open spec fn change_of_kind(kind: int) -> TextChangeCapability {
    if kind == 1 {
        TextChangeCapability::Full
    } else if kind == 2 {
        TextChangeCapability::Incremental
    } else {
        TextChangeCapability::Absent
    }
}

/// How a server is told of changes, by a number; an unknown one means not at all.
pub fn normalize_text_sync_change(kind: i64) -> (change: TextChangeCapability)
    ensures
        change == change_of_kind(kind as int),
{
    if kind == 1 {
        TextChangeCapability::Full
    } else if kind == 2 {
        TextChangeCapability::Incremental
    } else {
        TextChangeCapability::Absent
    }
}

/// The number of a synchronization kind: none, full and incremental, in this order. Only a
/// server that is told of opened documents, and of their changes, reads no disk.
pub proof fn law_synchronization_kinds(kind: int)
    ensures
        sync_of_kind(kind) is Some <==> 0 <= kind <= 2,
        sync_of_kind(kind) matches Some(sync) ==> {
            &&& sync.open_close <==> kind != 0
            &&& sync.change == (if kind == 0 {
                TextChangeCapability::Absent
            } else if kind == 1 {
                TextChangeCapability::Full
            } else {
                TextChangeCapability::Incremental
            })
            &&& sync.reads_disk() <==> kind == 0
        },
        change_of_kind(kind) is Full <==> kind == 1,
        change_of_kind(kind) is Incremental <==> kind == 2,
        change_of_kind(kind) is Absent <==> kind != 1 && kind != 2,
{
}

/// A thread that has ended is counted once, and leaves the others as they were.
pub proof fn law_threads_are_counted_apart(threads: IoThreads, ended: IoThreadKind, other: IoThreadKind)
    ensures
        threads.with(ended).holds(other) <==> threads.holds(other) || ended == other,
        threads.with(ended).count() == threads.count() + (if threads.holds(ended) {
            0int
        } else {
            1
        }),
        threads.count() == 3 <==> threads.holds(IoThreadKind::Stdin) && threads.holds(
            IoThreadKind::Stdout,
        ) && threads.holds(IoThreadKind::Stderr),
        threads.count() == 0 <==> !threads.holds(IoThreadKind::Stdin) && !threads.holds(
            IoThreadKind::Stdout,
        ) && !threads.holds(IoThreadKind::Stderr),
{
}

} // verus!
