//! What became of requests, kept until it is taken.

use crate::document::{ContentIdentity, DocumentVersion, NavigationOperation};
use crate::locations::{location_entries, LocationEntry, ProtocolLocation};
use crate::outline::{document_symbols, DocumentSymbolRecord, ProtocolDocumentSymbol};
use crate::payload::PayloadPermit;
use crate::rpc::SessionEpoch;
use vstd::prelude::*;

verus! {

/// How many results are kept.
pub const NAVIGATION_COMPLETION_CAPACITY: usize = 16;

#[derive(Debug)]
pub enum NavigationProtocolResult {
    Locations(Vec<ProtocolLocation>),
    Unavailable(String),
    Failed(String),
    Cancelled,
}

/// What a result says.
pub enum ResultRecord {
    Locations(Seq<LocationEntry>),
    Unavailable(Seq<char>),
    Failed(Seq<char>),
    Cancelled,
}

impl View for NavigationProtocolResult {
    type V = ResultRecord;

    open spec fn view(&self) -> ResultRecord {
        match self {
            NavigationProtocolResult::Locations(locations) => ResultRecord::Locations(
                location_entries(locations@),
            ),
            NavigationProtocolResult::Unavailable(words) => ResultRecord::Unavailable(words@),
            NavigationProtocolResult::Failed(words) => ResultRecord::Failed(words@),
            NavigationProtocolResult::Cancelled => ResultRecord::Cancelled,
        }
    }
}

/// The result of a request. Its permits count in the session of this epoch.
#[derive(Debug)]
pub struct NavigationRuntimeCompletion {
    pub generation: u64,
    pub operation: NavigationOperation,
    pub source_identity: ContentIdentity,
    pub source_version: DocumentVersion,
    pub result: NavigationProtocolResult,
    pub epoch: Option<SessionEpoch>,
}

/// A result that waits, and the permit that it holds for its message.
#[derive(Debug)]
pub struct QueuedCompletion {
    pub completion: NavigationRuntimeCompletion,
    pub permit: Option<PayloadPermit>,
}

/// What is said of a result that waits.
pub struct CompletionRecord {
    pub generation: u64,
    pub operation: NavigationOperation,
    pub identity: Seq<u8>,
    pub version: DocumentVersion,
    pub result: ResultRecord,
    pub epoch: Option<SessionEpoch>,
    pub permit: Option<int>,
}

impl View for QueuedCompletion {
    type V = CompletionRecord;

    open spec fn view(&self) -> CompletionRecord {
        CompletionRecord {
            generation: self.completion.generation,
            operation: self.completion.operation,
            identity: self.completion.source_identity.bytes@,
            version: self.completion.source_version,
            result: self.completion.result@,
            epoch: self.completion.epoch,
            permit: match self.permit {
                Some(permit) => Some(permit.bytes as int),
                None => None,
            },
        }
    }
}

/// The symbols of a document.
#[derive(Debug)]
pub struct NavigationDocumentSymbolCompletion {
    pub generation: u64,
    pub source_identity: ContentIdentity,
    pub source_version: DocumentVersion,
    pub symbols: Vec<ProtocolDocumentSymbol>,
    pub epoch: SessionEpoch,
}

pub struct SymbolCompletionRecord {
    pub generation: u64,
    pub identity: Seq<u8>,
    pub version: DocumentVersion,
    pub symbols: Seq<DocumentSymbolRecord>,
    pub epoch: SessionEpoch,
}

impl View for NavigationDocumentSymbolCompletion {
    type V = SymbolCompletionRecord;

    open spec fn view(&self) -> SymbolCompletionRecord {
        SymbolCompletionRecord {
            generation: self.generation,
            identity: self.source_identity.bytes@,
            version: self.source_version,
            symbols: document_symbols(self.symbols@),
            epoch: self.epoch,
        }
    }
}

/// A permit for a message that was taken, and the session that it counts in.
#[derive(Debug)]
pub struct LeasedPermit {
    pub epoch: Option<SessionEpoch>,
    pub permit: PayloadPermit,
}

/// The results that wait. Where there are too many, the oldest goes.
#[derive(Debug)]
pub struct CompletionQueue {
    pub queued: Vec<QueuedCompletion>,
    pub symbols: Vec<NavigationDocumentSymbolCompletion>,
    /// The permits of the messages that were taken last.
    pub leased: Vec<LeasedPermit>,
}

pub open spec fn completion_records(queued: Seq<QueuedCompletion>) -> Seq<CompletionRecord> {
    Seq::new(queued.len(), |i: int| queued[i]@)
}

pub open spec fn symbol_completion_records(
    queued: Seq<NavigationDocumentSymbolCompletion>,
) -> Seq<SymbolCompletionRecord> {
    Seq::new(queued.len(), |i: int| queued[i]@)
}

/// A sequence of limited length with one more at its end.
pub open spec fn pushed<T>(queue: Seq<T>, item: T) -> Seq<T> {
    if queue.len() >= NAVIGATION_COMPLETION_CAPACITY {
        queue.subrange(1, queue.len() as int).push(item)
    } else {
        queue.push(item)
    }
}

/// The permits in results, in their order.
pub open spec fn permits_in(queued: Seq<QueuedCompletion>) -> Seq<LeasedPermit>
    decreases queued.len(),
{
    if queued.len() == 0 {
        Seq::empty()
    } else {
        match queued.last().permit {
            None => permits_in(queued.drop_last()),
            Some(permit) => permits_in(queued.drop_last()).push(
                LeasedPermit { epoch: queued.last().completion.epoch, permit },
            ),
        }
    }
}

impl CompletionQueue {
    pub open spec fn well_formed(&self) -> bool {
        self.queued@.len() <= NAVIGATION_COMPLETION_CAPACITY && self.symbols@.len()
            <= NAVIGATION_COMPLETION_CAPACITY
    }

    /// The results that wait.
    pub open spec fn waiting(&self) -> Seq<CompletionRecord> {
        completion_records(self.queued@)
    }

    /// The symbols that wait.
    pub open spec fn waiting_symbols(&self) -> Seq<SymbolCompletionRecord> {
        symbol_completion_records(self.symbols@)
    }

    pub fn new() -> (queue: Self)
        ensures
            queue.well_formed(),
            queue.queued@.len() == 0,
            queue.symbols@.len() == 0,
            queue.leased@.len() == 0,
    {
        CompletionQueue { queued: Vec::new(), symbols: Vec::new(), leased: Vec::new() }
    }

    /// Adds a result, and hands out the oldest if there were too many.
    pub fn push(&mut self, entry: QueuedCompletion) -> (evicted: Option<QueuedCompletion>)
        requires
            old(self).well_formed(),
        ensures
            final(self).well_formed(),
            final(self).queued@ == pushed(old(self).queued@, entry),
            final(self).waiting() == pushed(old(self).waiting(), entry@),
            final(self).symbols == old(self).symbols,
            final(self).leased == old(self).leased,
            evicted == (if old(self).queued@.len() >= NAVIGATION_COMPLETION_CAPACITY {
                Some(old(self).queued@[0])
            } else {
                None
            }),
    {
        let ghost before = self.queued@;
        let evicted = if self.queued.len() >= NAVIGATION_COMPLETION_CAPACITY {
            Some(self.queued.remove(0))
        } else {
            None
        };
        self.queued.push(entry);
        proof {
            assert(self.queued@ =~= pushed(before, entry));
            assert(completion_records(self.queued@) =~= pushed(completion_records(before), entry@));
        }
        evicted
    }

    /// Adds symbols, and hands out the oldest if there were too many.
    pub fn push_symbols(&mut self, entry: NavigationDocumentSymbolCompletion) -> (evicted: Option<
        NavigationDocumentSymbolCompletion,
    >)
        requires
            old(self).well_formed(),
        ensures
            final(self).well_formed(),
            final(self).symbols@ == pushed(old(self).symbols@, entry),
            final(self).waiting_symbols() == pushed(old(self).waiting_symbols(), entry@),
            final(self).queued == old(self).queued,
            final(self).leased == old(self).leased,
            evicted == (if old(self).symbols@.len() >= NAVIGATION_COMPLETION_CAPACITY {
                Some(old(self).symbols@[0])
            } else {
                None
            }),
    {
        let ghost before = self.symbols@;
        let evicted = if self.symbols.len() >= NAVIGATION_COMPLETION_CAPACITY {
            Some(self.symbols.remove(0))
        } else {
            None
        };
        self.symbols.push(entry);
        proof {
            assert(self.symbols@ =~= pushed(before, entry));
            assert(symbol_completion_records(self.symbols@) =~= pushed(
                symbol_completion_records(before),
                entry@,
            ));
        }
        evicted
    }

    /// Takes all results, the oldest first. Their messages keep their permits until
    /// results are taken again; the permits of those before are handed out.
    pub fn take_completions(&mut self) -> (taken: (
        Vec<NavigationRuntimeCompletion>,
        Vec<LeasedPermit>,
    ))
        requires
            old(self).well_formed(),
        ensures
            final(self).well_formed(),
            final(self).queued@.len() == 0,
            final(self).symbols == old(self).symbols,
            taken.0@ == Seq::new(old(self).queued@.len(), |i: int| old(self).queued@[i].completion),
            taken.1 == old(self).leased,
            final(self).leased@ == permits_in(old(self).queued@),
    {
        let ghost before = self.queued@;
        let mut completions: Vec<NavigationRuntimeCompletion> = Vec::new();
        let mut leased: Vec<LeasedPermit> = Vec::new();
        let ghost mut taken: int = 0;
        assert(leased@ =~= permits_in(before.subrange(0, 0)));
        while self.queued.len() > 0
            invariant
                0 <= taken <= before.len(),
                self.queued@ == before.subrange(taken, before.len() as int),
                self.queued@.len() <= NAVIGATION_COMPLETION_CAPACITY,
                self.symbols == old(self).symbols,
                self.symbols@.len() <= NAVIGATION_COMPLETION_CAPACITY,
                self.leased == old(self).leased,
                completions@.len() == taken,
                forall|i: int| 0 <= i < taken ==> completions@[i] == before[i].completion,
                leased@ == permits_in(before.subrange(0, taken)),
            decreases self.queued@.len(),
        {
            let entry = self.queued.remove(0);
            proof {
                assert(entry == before[taken]);
                assert(before.subrange(0, taken + 1).drop_last() =~= before.subrange(0, taken));
                assert(self.queued@ =~= before.subrange(taken + 1, before.len() as int));
            }
            let epoch = entry.completion.epoch;
            completions.push(entry.completion);
            if let Some(permit) = entry.permit {
                leased.push(LeasedPermit { epoch, permit });
            }
            proof {
                taken = taken + 1;
            }
        }
        assert(before.subrange(0, before.len() as int) =~= before);
        let mut freed = leased;
        std::mem::swap(&mut freed, &mut self.leased);
        assert(completions@ =~= Seq::new(before.len(), |i: int| before[i].completion));
        (completions, freed)
    }

    /// Takes all symbols, the oldest first.
    pub fn take_symbol_completions(&mut self) -> (taken: Vec<NavigationDocumentSymbolCompletion>)
        requires
            old(self).well_formed(),
        ensures
            final(self).well_formed(),
            final(self).symbols@.len() == 0,
            final(self).queued == old(self).queued,
            final(self).leased == old(self).leased,
            taken == old(self).symbols,
    {
        let mut taken: Vec<NavigationDocumentSymbolCompletion> = Vec::new();
        std::mem::swap(&mut taken, &mut self.symbols);
        taken
    }
}

/// Results that are pushed one after the other.
pub open spec fn pushed_all<T>(queue: Seq<T>, items: Seq<T>) -> Seq<T>
    decreases items.len(),
{
    if items.len() == 0 {
        queue
    } else {
        pushed(pushed_all(queue, items.drop_last()), items.last())
    }
}

/// A queue that was empty keeps the last results, in their order, as many as fit.
pub proof fn law_the_last_results_are_kept<T>(items: Seq<T>)
    ensures
        ({
            let kept = if items.len() > NAVIGATION_COMPLETION_CAPACITY {
                items.subrange(items.len() - NAVIGATION_COMPLETION_CAPACITY, items.len() as int)
            } else {
                items
            };
            pushed_all(Seq::<T>::empty(), items) == kept
        }),
    decreases items.len(),
{
    if items.len() == 0 {
        assert(items =~= Seq::<T>::empty());
    } else {
        law_the_last_results_are_kept(items.drop_last());
        let kept = if items.len() > NAVIGATION_COMPLETION_CAPACITY {
            items.subrange(items.len() - NAVIGATION_COMPLETION_CAPACITY, items.len() as int)
        } else {
            items
        };
        assert(pushed_all(Seq::<T>::empty(), items) =~= kept);
    }
}

} // verus!
