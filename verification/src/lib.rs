//! Core of a deterministic permutation tester for cooperative async programs.
//!
//! A test body spawns several named tasks, each performing a sequence of
//! annotated operations.  The controller coordinates the tasks so that at
//! most one of them is inside an operation at any time, a lock table prunes
//! schedules that a lock discipline forbids, and a schedule tree enumerates
//! every distinct interleaving at operation granularity.  Traces of explored
//! schedules can be rendered to a wire string and parsed back for replay.
//!
//! The asynchronous embedding (channels, wake-ups, the cooperative runtime)
//! lives outside this crate; everything here is the synchronous decision
//! logic, stated and verified over mathematical models of the state.

use vstd::prelude::*;

pub mod controller;
pub mod locks;
pub mod operation;
pub mod rng;
pub mod runner;
pub mod schedule_tree;
pub mod task;
pub mod trace;

pub use crate::operation::OperationMetadata;
pub use crate::operation::operation;
pub use crate::runner::Runner;
pub use crate::task::task;
pub use crate::trace::ParseTraceError;
pub use crate::trace::Trace;

verus! {

/// A lock annotation carried by an operation.  `scope` names a logical lock
/// shared between tasks; acquires take effect when the operation begins and
/// releases when the surrounding step of the owning task ends.
#[derive(Debug)]
pub enum ParcheckLock {
    AcquireShared { scope: String },
    AcquireExclusive { scope: String },
    Release { scope: String },
}

impl Clone for ParcheckLock {
    fn clone(&self) -> (res: Self)
        ensures
            res == *self,
    {
        match self {
            ParcheckLock::AcquireShared { scope } => ParcheckLock::AcquireShared {
                scope: scope.clone(),
            },
            ParcheckLock::AcquireExclusive { scope } => ParcheckLock::AcquireExclusive {
                scope: scope.clone(),
            },
            ParcheckLock::Release { scope } => ParcheckLock::Release { scope: scope.clone() },
        }
    }
}

impl ParcheckLock {
    /// The scope string this annotation names.
    pub open spec fn spec_scope(&self) -> Seq<char> {
        match self {
            ParcheckLock::AcquireShared { scope } => scope@,
            ParcheckLock::AcquireExclusive { scope } => scope@,
            ParcheckLock::Release { scope } => scope@,
        }
    }

    /// Whether this annotation is a deferred release rather than an acquire.
    pub open spec fn spec_is_release(&self) -> bool {
        match self {
            ParcheckLock::Release { .. } => true,
            _ => false,
        }
    }
}

} // verus!
