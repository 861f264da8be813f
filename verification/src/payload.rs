//! Logical payload admission: a session pool inside a pool shared by all sessions.

use vstd::prelude::*;

verus! {

pub const SESSION_PAYLOAD_BUDGET: usize = 32 * 1024 * 1024;

pub const GLOBAL_PAYLOAD_BUDGET: usize = 192 * 1024 * 1024;

#[derive(Clone, Copy, Debug, PartialEq, Eq, Structural)]
pub enum PayloadError {
    Overflow,
    Exhausted,
}

impl PayloadError {
    pub open spec fn text(self) -> Seq<char> {
        match self {
            PayloadError::Overflow => "navigation payload budget overflow"@,
            PayloadError::Exhausted => "navigation payload budget exhausted"@,
        }
    }

    pub fn message(&self) -> (text: &'static str)
        ensures
            text@ == self.text(),
    {
        match self {
            PayloadError::Overflow => "navigation payload budget overflow",
            PayloadError::Exhausted => "navigation payload budget exhausted",
        }
    }
}

/// A counter of reserved bytes under a limit.
#[derive(Debug)]
pub struct PermitPool {
    pub limit: usize,
    pub used: usize,
}

/// What is left in use after bytes were handed back.
pub open spec fn left_after(used: int, bytes: int) -> int {
    if used >= bytes {
        used - bytes
    } else {
        0
    }
}

impl PermitPool {
    pub open spec fn well_formed(&self) -> bool {
        self.used <= self.limit
    }

    /// The pool with more bytes in use.
    pub open spec fn with(&self, bytes: int) -> PermitPool {
        PermitPool { limit: self.limit, used: (self.used + bytes) as usize }
    }

    /// The pool with fewer bytes in use.
    pub open spec fn without(&self, bytes: int) -> PermitPool {
        PermitPool { limit: self.limit, used: left_after(self.used as int, bytes) as usize }
    }

    /// Why the pool turns a reservation down, if it does.
    pub open spec fn refusal(&self, bytes: int) -> Option<PayloadError> {
        if self.used + bytes > usize::MAX {
            Some(PayloadError::Overflow)
        } else if self.used + bytes > self.limit {
            Some(PayloadError::Exhausted)
        } else {
            None
        }
    }

    pub fn new(limit: usize) -> (pool: Self)
        ensures
            pool.limit == limit,
            pool.used == 0,
    {
        PermitPool { limit, used: 0 }
    }

    pub fn used(&self) -> (used: usize)
        ensures
            used == self.used,
    {
        self.used
    }

    pub fn try_acquire(&mut self, bytes: usize) -> (result: Result<(), PayloadError>)
        ensures
            final(self).limit == old(self).limit,
            match old(self).refusal(bytes as int) {
                None => result is Ok && final(self).used == old(self).used + bytes,
                Some(error) => result == Err::<(), _>(error) && final(self).used == old(self).used,
            },
    {
        match self.used.checked_add(bytes) {
            None => Err(PayloadError::Overflow),
            Some(next) => {
                if next > self.limit {
                    return Err(PayloadError::Exhausted);
                }
                self.used = next;
                Ok(())
            },
        }
    }

    pub fn release(&mut self, bytes: usize)
        ensures
            final(self).limit == old(self).limit,
            *final(self) == old(self).without(bytes as int),
    {
        if self.used >= bytes {
            self.used = self.used - bytes;
        } else {
            self.used = 0;
        }
    }
}

/// The pool that all sessions share.
#[derive(Debug)]
pub struct GlobalPayloadBudget {
    pub pool: PermitPool,
}

impl GlobalPayloadBudget {
    pub open spec fn well_formed(&self) -> bool {
        self.pool.limit == GLOBAL_PAYLOAD_BUDGET && self.pool.well_formed()
    }

    pub open spec fn with(&self, bytes: int) -> GlobalPayloadBudget {
        GlobalPayloadBudget { pool: self.pool.with(bytes) }
    }

    pub open spec fn without(&self, bytes: int) -> GlobalPayloadBudget {
        GlobalPayloadBudget { pool: self.pool.without(bytes) }
    }
}

impl Default for GlobalPayloadBudget {
    fn default() -> (budget: Self)
        ensures
            budget.well_formed(),
            budget.pool.used == 0,
    {
        GlobalPayloadBudget { pool: PermitPool::new(GLOBAL_PAYLOAD_BUDGET) }
    }
}

/// A reservation in a session's pool and in the shared one. It is handed back
/// with `PayloadBudget::release`.
#[derive(Debug)]
pub struct PayloadPermit {
    pub bytes: usize,
}

impl PayloadPermit {
    pub fn bytes(&self) -> (bytes: usize)
        ensures
            bytes == self.bytes,
    {
        self.bytes
    }
}

/// One session's pool. A reservation counts here and in the shared pool, or in neither.
#[derive(Debug)]
pub struct PayloadBudget {
    pub session: PermitPool,
}

impl PayloadBudget {
    pub open spec fn well_formed(&self) -> bool {
        self.session.limit == SESSION_PAYLOAD_BUDGET && self.session.well_formed()
    }

    pub open spec fn with(&self, bytes: int) -> PayloadBudget {
        PayloadBudget { session: self.session.with(bytes) }
    }

    pub open spec fn without(&self, bytes: int) -> PayloadBudget {
        PayloadBudget { session: self.session.without(bytes) }
    }

    /// Why a reservation is turned down, if it is. The shared pool is asked first.
    pub open spec fn refusal(&self, global: &GlobalPayloadBudget, bytes: int) -> Option<
        PayloadError,
    > {
        match global.pool.refusal(bytes) {
            Some(error) => Some(error),
            None => self.session.refusal(bytes),
        }
    }

    /// How many bytes both pools can still take.
    pub open spec fn room(&self, global: &GlobalPayloadBudget) -> int {
        if self.session.limit - self.session.used <= global.pool.limit - global.pool.used {
            self.session.limit - self.session.used
        } else {
            global.pool.limit - global.pool.used
        }
    }

    pub fn session() -> (budget: Self)
        ensures
            budget.well_formed(),
            budget.session.used == 0,
    {
        PayloadBudget { session: PermitPool::new(SESSION_PAYLOAD_BUDGET) }
    }

    pub fn reserve(&mut self, global: &mut GlobalPayloadBudget, bytes: usize) -> (result: Result<
        PayloadPermit,
        PayloadError,
    >)
        requires
            old(self).well_formed(),
            old(global).well_formed(),
        ensures
            final(self).well_formed(),
            final(global).well_formed(),
            match old(self).refusal(old(global), bytes as int) {
                None => {
                    &&& result matches Ok(permit)
                    &&& permit.bytes == bytes
                    &&& final(self).session.used == old(self).session.used + bytes
                    &&& final(global).pool.used == old(global).pool.used + bytes
                    &&& *final(self) == old(self).with(bytes as int)
                    &&& *final(global) == old(global).with(bytes as int)
                },
                Some(error) => {
                    &&& result == Err::<PayloadPermit, _>(error)
                    &&& *final(self) == *old(self)
                    &&& *final(global) == *old(global)
                },
            },
    {
        match global.pool.try_acquire(bytes) {
            Err(error) => Err(error),
            Ok(()) => {
                match self.session.try_acquire(bytes) {
                    Err(error) => {
                        global.pool.release(bytes);
                        Err(error)
                    },
                    Ok(()) => Ok(PayloadPermit { bytes }),
                }
            },
        }
    }

    /// Hands a permit back to both pools.
    pub fn release(&mut self, global: &mut GlobalPayloadBudget, permit: PayloadPermit)
        requires
            old(self).well_formed(),
            old(global).well_formed(),
        ensures
            final(self).well_formed(),
            final(global).well_formed(),
            *final(self) == old(self).without(permit.bytes as int),
            *final(global) == old(global).without(permit.bytes as int),
    {
        self.session.release(permit.bytes);
        global.pool.release(permit.bytes);
    }
}

/// A reservation is admitted exactly when it fits the room that both pools have.
pub proof fn law_admission_is_the_room_of_both_pools(
    budget: PayloadBudget,
    global: GlobalPayloadBudget,
    bytes: int,
)
    requires
        budget.well_formed(),
        global.well_formed(),
        0 <= bytes,
    ensures
        budget.refusal(&global, bytes) is None <==> bytes <= budget.room(&global),
{
}

/// What was reserved and handed back leaves both pools as they were.
pub proof fn law_handing_back_undoes_a_reservation(
    budget: PayloadBudget,
    global: GlobalPayloadBudget,
    bytes: int,
)
    requires
        budget.well_formed(),
        global.well_formed(),
        0 <= bytes,
        budget.refusal(&global, bytes) is None,
    ensures
        budget.with(bytes).without(bytes) == budget,
        global.with(bytes).without(bytes) == global,
{
}

} // verus!
