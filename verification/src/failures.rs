//! How often servers failed, and when they may be started again.

use crate::protocol::{clean_protocol_message, cleaned};
use crate::session::{later, KeyRecord, SessionKey};
use crate::text::copy_text;
use vstd::prelude::*;

verus! {

/// How long a server has to be ready until its failures are forgotten, in milliseconds.
pub const STABLE_READY_RESET: u64 = 60_000;

/// After as many failures in a row a server is not started again.
pub const LAST_ATTEMPT: u8 = 5;

/// How long a server is left alone after its failures, in milliseconds.
pub open spec fn delay_after(attempt: int) -> u64 {
    if attempt == 1 {
        1_000
    } else if attempt == 2 {
        2_000
    } else if attempt == 3 {
        4_000
    } else if attempt == 4 {
        8_000
    } else {
        30_000
    }
}

pub fn backoff_delay(attempt: u8) -> (delay: u64)
    ensures
        delay == delay_after(attempt as int),
{
    match attempt {
        1 => 1_000,
        2 => 2_000,
        3 => 4_000,
        4 => 8_000,
        _ => 30_000,
    }
}

/// A server that failed and when it may be started again.
#[derive(Debug)]
pub struct SessionBackoff {
    pub attempt: u8,
    pub retry_at: u64,
    pub error: String,
}

pub struct BackoffRecord {
    pub attempt: u8,
    pub retry_at: u64,
    pub error: Seq<char>,
}

impl View for SessionBackoff {
    type V = BackoffRecord;

    open spec fn view(&self) -> BackoffRecord {
        BackoffRecord { attempt: self.attempt, retry_at: self.retry_at, error: self.error@ }
    }
}

#[derive(Debug)]
pub struct BackoffEntry {
    pub key: SessionKey,
    pub backoff: SessionBackoff,
}

#[derive(Debug)]
pub struct PermanentFailure {
    pub key: SessionKey,
    pub error: String,
}

/// What is known of failures.
#[derive(Debug)]
pub struct FailureBook {
    pub backoffs: Vec<BackoffEntry>,
    pub permanent: Vec<PermanentFailure>,
}

pub struct BookRecord {
    pub backoffs: Map<KeyRecord, BackoffRecord>,
    pub permanent: Map<KeyRecord, Seq<char>>,
}

pub open spec fn backoff_map(entries: Seq<BackoffEntry>) -> Map<KeyRecord, BackoffRecord>
    decreases entries.len(),
{
    if entries.len() == 0 {
        Map::empty()
    } else {
        backoff_map(entries.drop_last()).insert(entries.last().key@, entries.last().backoff@)
    }
}

pub open spec fn permanent_map(entries: Seq<PermanentFailure>) -> Map<KeyRecord, Seq<char>>
    decreases entries.len(),
{
    if entries.len() == 0 {
        Map::empty()
    } else {
        permanent_map(entries.drop_last()).insert(entries.last().key@, entries.last().error@)
    }
}

impl View for FailureBook {
    type V = BookRecord;

    open spec fn view(&self) -> BookRecord {
        BookRecord {
            backoffs: backoff_map(self.backoffs@),
            permanent: permanent_map(self.permanent@),
        }
    }
}

/// Which failure in a row the next one is.
pub open spec fn next_attempt(book: BookRecord, key: KeyRecord) -> u8 {
    if book.backoffs.contains_key(key) {
        if book.backoffs[key].attempt + 1 < LAST_ATTEMPT {
            (book.backoffs[key].attempt + 1) as u8
        } else {
            LAST_ATTEMPT
        }
    } else {
        1
    }
}

/// Notes a failure.
pub open spec fn with_failure(book: BookRecord, key: KeyRecord, error: Seq<char>, now: u64) -> BookRecord {
    let attempt = next_attempt(book, key);
    BookRecord {
        backoffs: book.backoffs.insert(
            key,
            BackoffRecord {
                attempt,
                retry_at: later(now, delay_after(attempt as int)),
                error: cleaned(error),
            },
        ),
        permanent: if attempt == LAST_ATTEMPT {
            book.permanent.insert(key, cleaned(error))
        } else {
            book.permanent
        },
    }
}

/// Forgets the failures of a server.
pub open spec fn forgiven(book: BookRecord, key: KeyRecord) -> BookRecord {
    BookRecord { backoffs: book.backoffs.remove(key), ..book }
}

/// A server was ready long enough.
pub open spec fn is_stable(ready_since: Option<u64>, now: u64) -> bool {
    ready_since matches Some(ready) && now >= ready && now - ready >= STABLE_READY_RESET
}

pub fn stable(ready_since: Option<u64>, now: u64) -> (yes: bool)
    ensures
        yes == is_stable(ready_since, now),
{
    match ready_since {
        None => false,
        Some(ready) => now >= ready && now - ready >= STABLE_READY_RESET,
    }
}

impl FailureBook {
    pub fn new() -> (book: Self)
        ensures
            book@.backoffs == Map::<KeyRecord, BackoffRecord>::empty(),
            book@.permanent == Map::<KeyRecord, Seq<char>>::empty(),
    {
        FailureBook { backoffs: Vec::new(), permanent: Vec::new() }
    }

    pub fn backoff(&self, key: &SessionKey) -> (found: Option<&SessionBackoff>)
        ensures
            match found {
                Some(backoff) => self@.backoffs.contains_key(key@) && backoff@
                    == self@.backoffs[key@],
                None => !self@.backoffs.contains_key(key@),
            },
    {
        let mut index: usize = self.backoffs.len();
        assert(self.backoffs@.subrange(0, index as int) =~= self.backoffs@);
        while index > 0
            invariant
                index <= self.backoffs@.len(),
                self@.backoffs.contains_key(key@) == backoff_map(
                    self.backoffs@.subrange(0, index as int),
                ).contains_key(key@),
                self@.backoffs.contains_key(key@) ==> self@.backoffs[key@] == backoff_map(
                    self.backoffs@.subrange(0, index as int),
                )[key@],
            decreases index,
        {
            let ghost front = self.backoffs@.subrange(0, index as int);
            index = index - 1;
            assert(front.drop_last() =~= self.backoffs@.subrange(0, index as int));
            if self.backoffs[index].key.same(key) {
                return Some(&self.backoffs[index].backoff);
            }
        }
        None
    }

    pub fn permanent(&self, key: &SessionKey) -> (found: Option<&String>)
        ensures
            match found {
                Some(error) => self@.permanent.contains_key(key@) && error@
                    == self@.permanent[key@],
                None => !self@.permanent.contains_key(key@),
            },
    {
        let mut index: usize = self.permanent.len();
        assert(self.permanent@.subrange(0, index as int) =~= self.permanent@);
        while index > 0
            invariant
                index <= self.permanent@.len(),
                self@.permanent.contains_key(key@) == permanent_map(
                    self.permanent@.subrange(0, index as int),
                ).contains_key(key@),
                self@.permanent.contains_key(key@) ==> self@.permanent[key@] == permanent_map(
                    self.permanent@.subrange(0, index as int),
                )[key@],
            decreases index,
        {
            let ghost front = self.permanent@.subrange(0, index as int);
            index = index - 1;
            assert(front.drop_last() =~= self.permanent@.subrange(0, index as int));
            if self.permanent[index].key.same(key) {
                return Some(&self.permanent[index].error);
            }
        }
        None
    }

    /// Forgets the failures of a server.
    pub fn forgive(&mut self, key: &SessionKey)
        ensures
            final(self)@ == forgiven(old(self)@, key@),
    {
        let mut before: Vec<BackoffEntry> = Vec::new();
        std::mem::swap(&mut before, &mut self.backoffs);
        let ghost all = before@;
        let ghost mut done: int = 0;
        assert(backoff_map(self.backoffs@) =~= backoff_map(all.subrange(0, 0)).remove(key@));
        while before.len() > 0
            invariant
                0 <= done <= all.len(),
                before@ == all.subrange(done, all.len() as int),
                backoff_map(self.backoffs@) == backoff_map(all.subrange(0, done)).remove(key@),
                self.permanent == old(self).permanent,
            decreases before@.len(),
        {
            let entry = before.remove(0);
            let ghost shown = self.backoffs@;
            proof {
                assert(entry == all[done]);
                assert(all.subrange(0, done + 1).drop_last() =~= all.subrange(0, done));
                assert(before@ =~= all.subrange(done + 1, all.len() as int));
            }
            if !entry.key.same(key) {
                self.backoffs.push(entry);
                assert(self.backoffs@.drop_last() =~= shown);
            }
            proof {
                assert(backoff_map(self.backoffs@) =~= backoff_map(
                    all.subrange(0, done + 1),
                ).remove(key@));
                done = done + 1;
            }
        }
        assert(all.subrange(0, all.len() as int) =~= all);
    }

    /// Notes that a server is not to be started again.
    pub fn give_up(&mut self, key: SessionKey, error: String)
        ensures
            final(self)@ == (BookRecord {
                permanent: old(self)@.permanent.insert(key@, error@),
                ..old(self)@
            }),
    {
        let ghost before = self.permanent@;
        self.permanent.push(PermanentFailure { key, error });
        assert(self.permanent@.drop_last() =~= before);
    }

    /// Notes a failure. The last that is taken is for good.
    pub fn record_failure_at(&mut self, key: &SessionKey, error: &str, now: u64)
        ensures
            final(self)@ == with_failure(old(self)@, key@, error@, now),
    {
        let attempt: u8 = match self.backoff(key) {
            None => 1,
            Some(backoff) => if backoff.attempt < LAST_ATTEMPT - 1 {
                backoff.attempt + 1
            } else {
                LAST_ATTEMPT
            },
        };
        let delay: u64 = backoff_delay(attempt);
        let shown = clean_protocol_message(error);
        self.forgive(key);
        let ghost before = self.backoffs@;
        self.backoffs.push(
            BackoffEntry {
                key: key.copy(),
                backoff: SessionBackoff {
                    attempt,
                    retry_at: now.saturating_add(delay),
                    error: copy_text(shown.as_str()),
                },
            },
        );
        proof {
            assert(self.backoffs@.drop_last() =~= before);
            assert(self@.backoffs =~= with_failure(old(self)@, key@, error@, now).backoffs);
        }
        if attempt == LAST_ATTEMPT {
            self.give_up(key.copy(), shown);
        }
    }

    /// Forgets the failures of a server that was ready long enough.
    pub fn reset_backoff_if_stable_at(
        &mut self,
        key: &SessionKey,
        ready_since: Option<u64>,
        now: u64,
    )
        ensures
            final(self)@ == (if is_stable(ready_since, now) {
                forgiven(old(self)@, key@)
            } else {
                old(self)@
            }),
    {
        if stable(ready_since, now) {
            self.forgive(key);
        }
    }
}

/// A server is left alone the longer the more often it failed.
pub proof fn law_delays_grow(earlier: int, later: int)
    requires
        1 <= earlier < later <= LAST_ATTEMPT,
    ensures
        delay_after(earlier) < delay_after(later),
{
}

/// Failures of a server one after the other.
pub open spec fn with_failures(
    book: BookRecord,
    key: KeyRecord,
    failures: Seq<(Seq<char>, u64)>,
) -> BookRecord
    decreases failures.len(),
{
    if failures.len() == 0 {
        book
    } else {
        let (error, now) = failures.last();
        with_failure(with_failures(book, key, failures.drop_last()), key, error, now)
    }
}

proof fn lemma_attempts(book: BookRecord, key: KeyRecord, failures: Seq<(Seq<char>, u64)>)
    requires
        !book.backoffs.contains_key(key),
        !book.permanent.contains_key(key),
    ensures
        ({
            let after = with_failures(book, key, failures);
            let count = failures.len();
            &&& after.backoffs.contains_key(key) <==> count > 0
            &&& count > 0 ==> after.backoffs[key].attempt == (if count < LAST_ATTEMPT {
                count as int
            } else {
                LAST_ATTEMPT as int
            })
            &&& after.permanent.contains_key(key) <==> count >= LAST_ATTEMPT
        }),
    decreases failures.len(),
{
    if failures.len() > 0 {
        lemma_attempts(book, key, failures.drop_last());
    }
}

/// A server that never failed before is given up exactly with the fifth failure
/// in a row.
pub proof fn law_the_fifth_failure_is_for_good(
    book: BookRecord,
    key: KeyRecord,
    failures: Seq<(Seq<char>, u64)>,
)
    requires
        !book.backoffs.contains_key(key),
        !book.permanent.contains_key(key),
    ensures
        with_failures(book, key, failures).permanent.contains_key(key) <==> failures.len() >= 5,
{
    lemma_attempts(book, key, failures);
}

/// What happens to one server leaves what is known of the others.
pub proof fn law_failures_do_not_spread(
    book: BookRecord,
    key: KeyRecord,
    other: KeyRecord,
    error: Seq<char>,
    now: u64,
)
    requires
        key != other,
    ensures
        ({
            let after = with_failure(book, key, error, now);
            &&& after.backoffs.contains_key(other) == book.backoffs.contains_key(other)
            &&& after.backoffs[other] == book.backoffs[other]
            &&& after.permanent.contains_key(other) == book.permanent.contains_key(other)
            &&& after.permanent[other] == book.permanent[other]
        }),
{
}

/// How long a server is left alone after it failed: a second, then twice as long each time
/// up to the fourth, and half a minute behind that.
pub proof fn law_delays_double(attempt: int)
    ensures
        delay_after(1) == 1000,
        1 < attempt <= 4 ==> delay_after(attempt) == 2 * delay_after(attempt - 1),
        attempt > 4 ==> delay_after(attempt) == 30000,
{
}

/// A session that has been ready for a minute is taken to be stable, and no sooner.
pub proof fn law_a_minute_makes_a_session_stable(ready: u64, now: u64)
    ensures
        is_stable(Some(ready), now) <==> now >= ready + 60000,
        !is_stable(None, now),
{
}

} // verus!
