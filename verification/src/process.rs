//! Decisions on the processes of a language server: what the answers of the
//! system mean, and when a process tree is gone.

use vstd::prelude::*;

verus! {

/// "No such process", on every Unix.
pub const NO_SUCH_PROCESS: i32 = 3;

/// "Operation not permitted", on every Unix.
pub const NOT_PERMITTED: i32 = 1;

/// The three threads that carry the output and input of a server.
#[derive(Clone, Copy, Debug, PartialEq, Eq, Hash, Structural)]
pub enum IoThreadKind {
    Stdin,
    Stdout,
    Stderr,
}

/// A thread came to its end.
#[derive(Clone, Copy, Debug, PartialEq, Eq, Structural)]
pub struct IoThreadDone {
    pub kind: IoThreadKind,
    pub session_epoch: u64,
}

/// What it means to have signalled a process group: an error that the system
/// gives for a group that is gone is none.
pub fn signal_group(error: Option<i32>) -> (delivered: bool)
    ensures
        delivered == (error is None || error == Some(NO_SUCH_PROCESS)),
{
    match error {
        None => true,
        Some(code) => code == NO_SUCH_PROCESS,
    }
}

/// What probing a process group says: whether it is there, or nothing.
pub fn group_exists(error: Option<i32>) -> (answer: Option<bool>)
    ensures
        answer == (match error {
            None => Some(true),
            Some(code) => if code == NO_SUCH_PROCESS {
                Some(false)
            } else if code == NOT_PERMITTED {
                Some(true)
            } else {
                None
            },
        }),
{
    match error {
        None => Some(true),
        Some(code) => {
            if code == NO_SUCH_PROCESS {
                Some(false)
            } else if code == NOT_PERMITTED {
                Some(true)
            } else {
                None
            }
        },
    }
}

/// A child and the process group that it leads.
#[derive(Clone, Copy, Debug, PartialEq, Eq, Structural)]
pub struct ProcessTree {
    /// The child has not been reaped.
    pub child: bool,
    /// The child is reaped and its group is gone.
    pub terminated: bool,
}

/// What forcing a tree to end starts with.
#[derive(Clone, Copy, Debug, PartialEq, Eq, Structural)]
pub enum ForceStep {
    Done,
    SignalGroup,
}

impl ProcessTree {
    /// A tree that is gone has no child.
    pub open spec fn well_formed(self) -> bool {
        self.terminated ==> !self.child
    }

    pub fn started() -> (tree: Self)
        ensures
            tree.well_formed(),
            tree.child,
            !tree.terminated,
    {
        ProcessTree { child: true, terminated: false }
    }

    /// The child was seen to have ended and was reaped.
    pub fn reap_if_exited(&mut self, exited: bool)
        requires
            old(self).well_formed(),
        ensures
            final(self).well_formed(),
            final(self).terminated == old(self).terminated,
            final(self).child == (old(self).child && !exited),
    {
        if exited {
            self.child = false;
        }
    }

    /// The group is to be probed: the child is gone, and the group may not be.
    pub fn wants_probe(&self) -> (wants: bool)
        ensures
            wants == (!self.terminated && !self.child),
    {
        !self.terminated && !self.child
    }

    /// Says whether the tree is gone. `group` is what a probe said, if one was made.
    pub fn poll_exit(&mut self, group: Option<bool>) -> (gone: bool)
        requires
            old(self).well_formed(),
        ensures
            final(self).well_formed(),
            final(self).child == old(self).child,
            gone == final(self).terminated,
            gone == (old(self).terminated || (!old(self).child && group == Some(false))),
    {
        if self.terminated {
            return true;
        }
        if !self.child {
            if let Some(false) = group {
                self.terminated = true;
                return true;
            }
        }
        false
    }

    /// Starts to force the tree to end. A group that is gone needs no signal.
    pub fn begin_force_cleanup(&mut self, group: Option<bool>) -> (step: ForceStep)
        requires
            old(self).well_formed(),
        ensures
            final(self).well_formed(),
            final(self).child == old(self).child,
            step is Done <==> final(self).terminated,
            final(self).terminated == (old(self).terminated || (!old(self).child && group == Some(
                false,
            ))),
    {
        if self.poll_exit(group) {
            ForceStep::Done
        } else {
            ForceStep::SignalGroup
        }
    }

    /// Forces the tree harder: whether the group is killed, and whether the child
    /// is killed by itself.
    pub fn escalate_force_cleanup(&self, group: bool, child_running: bool) -> (kills: (bool, bool))
        ensures
            kills.0 == (!self.terminated && group),
            kills.1 == (!self.terminated && self.child && child_running),
    {
        (!self.terminated && group, !self.terminated && self.child && child_running)
    }
}

/// A child leads its own group exactly when the group has its number.
pub fn leads_own_group(pid: i32, pgid: i32) -> (leads: bool)
    ensures
        leads == (pid == pgid),
{
    pid == pgid
}

/// The group that is cleaned up when a child does not lead its own.
pub fn group_to_clean(pid: i32, pgid: i32) -> (group: i32)
    ensures
        group == (if pgid > 0 {
            pgid
        } else {
            pid
        }),
{
    if pgid > 0 {
        pgid
    } else {
        pid
    }
}

} // verus!
