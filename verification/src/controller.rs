//! The controller: owner of the task states and the lock table.
//!
//! The controller receives lifecycle events from the tasks, tracks which
//! task holds which lock scope, exposes quiescent snapshots, and steps
//! exactly one task at a time into its pending operation.  The embedding
//! owns the channels; everything that decides is here.

use vstd::prelude::*;

use crate::ParcheckLock;
use crate::locks::LockedState;
use crate::locks::Holder;
use crate::locks::spec_blocked;
use crate::locks::spec_held_scopes;
use crate::locks::apply_acquires;
use crate::locks::apply_releases;
use crate::locks::table_wf;
use crate::operation::OperationMetadata;
use crate::operation::spec_site_text;

verus! {

/// The controller's view of one task.
#[derive(Debug)]
pub enum TaskState {
    /// Registered, but the user body has not yet entered the named task.
    NotStarted,
    /// The task body is running outside any annotated operation.
    ExecutingOutsideOperation,
    /// The task asked to enter an operation and is suspended until a
    /// permit arrives.  `blocked_locks` is the subset of `locks` whose
    /// acquires conflict with other tasks' holdings, as of the last
    /// quiescent snapshot.
    WaitingToStartOperation {
        metadata: OperationMetadata,
        locks: Vec<ParcheckLock>,
        blocked_locks: Vec<ParcheckLock>,
    },
    /// The permit was granted; the operation body is executing.
    ExecutingOperation { metadata: OperationMetadata },
    /// The task body has returned.
    Finished,
}

/// A lifecycle event sent by a task to the controller.
#[derive(Debug)]
pub enum TaskEvent {
    TaskStarted,
    OperationPermitRequested { metadata: OperationMetadata, locks: Vec<ParcheckLock> },
    OperationFinished,
    TaskFinished,
}

/// The controller's reply to a permit request.
#[derive(Debug)]
pub enum OperationPermit {
    Granted,
    OperationAlreadyInProgress { other: OperationMetadata },
}

/// A misuse of the annotation protocol, fatal to the run.
#[derive(Debug)]
pub enum ProtocolError {
    /// `OperationFinished` arrived for a task that was not inside an
    /// operation.
    FinishedOutsideOperation { task: usize },
    /// A task finished while still holding lock scopes.
    FinishedWithHeldLocks { task: usize, scopes: Vec<String> },
}

/// One registered task: its name and its current state.
pub struct TaskEntry {
    pub name: String,
    pub state: TaskState,
}

/// The controller.
pub struct Controller {
    tasks: Vec<TaskEntry>,
    locked_state: LockedState,
}

impl TaskState {
    /// The task is a legitimate scheduling choice: it waits for a permit
    /// and nothing blocks its lock requests.
    pub open spec fn spec_can_execute(&self) -> bool {
        match self {
            TaskState::WaitingToStartOperation { blocked_locks, .. } => blocked_locks@.len() == 0,
            _ => false,
        }
    }

    /// Whether the task is suspended at a permit request or already done.
    pub open spec fn spec_waiting_or_finished(&self) -> bool {
        match self {
            TaskState::WaitingToStartOperation { .. } => true,
            TaskState::Finished => true,
            _ => false,
        }
    }

    /// The pending operation's metadata, when the task is runnable.
    pub fn executable_op(&self) -> (r: Option<&OperationMetadata>)
        ensures
            r is Some <==> self.spec_can_execute(),
            self.spec_can_execute() ==> *r->Some_0 == self->WaitingToStartOperation_metadata,
    {
        match self {
            TaskState::WaitingToStartOperation { metadata, blocked_locks, .. } => {
                if blocked_locks.len() == 0 {
                    Some(metadata)
                } else {
                    None
                }
            },
            _ => None,
        }
    }

    /// Whether the task may be stepped forward now.
    pub fn can_execute(&self) -> (r: bool)
        ensures
            r == self.spec_can_execute(),
    {
        self.executable_op().is_some()
    }
}

/// The scope names of a lock annotation list, joined with commas.
pub open spec fn spec_scope_list(locks: Seq<ParcheckLock>) -> Seq<char>
    decreases locks.len(),
{
    if locks.len() == 0 {
        Seq::empty()
    } else if locks.len() == 1 {
        locks[0].spec_scope()
    } else {
        locks[0].spec_scope() + seq![','] + spec_scope_list(locks.drop_first())
    }
}

/// Joining one more annotation appends a comma and its scope.
proof fn lemma_scope_list_push(l: Seq<ParcheckLock>, x: ParcheckLock)
    requires
        l.len() >= 1,
    ensures
        spec_scope_list(l.push(x)) == spec_scope_list(l) + seq![','] + x.spec_scope(),
    decreases l.len(),
{
    let lp = l.push(x);
    if l.len() == 1 {
        assert(lp.drop_first() =~= seq![x]);
        assert(spec_scope_list(seq![x]) == x.spec_scope());
    } else {
        assert(lp.drop_first() =~= l.drop_first().push(x));
        lemma_scope_list_push(l.drop_first(), x);
        assert(l[0].spec_scope() + seq![','] + (spec_scope_list(l.drop_first()) + seq![',']
            + x.spec_scope()) =~= (l[0].spec_scope() + seq![','] + spec_scope_list(l.drop_first()))
            + seq![','] + x.spec_scope());
    }
}

/// Append the scope names of the annotations, joined with commas.
fn push_scope_list(out: &mut Vec<char>, locks: &Vec<ParcheckLock>)
    ensures
        final(out)@ == old(out)@ + spec_scope_list(locks@),
{
    let mut k: usize = 0;
    proof {
        assert(locks@.take(0) =~= Seq::<ParcheckLock>::empty());
        assert(out@ =~= old(out)@ + spec_scope_list(locks@.take(0)));
    }
    while k < locks.len()
        invariant
            0 <= k <= locks@.len(),
            out@ == old(out)@ + spec_scope_list(locks@.take(k as int)),
        decreases locks@.len() - k,
    {
        let ghost o1 = out@;
        if k > 0 {
            out.push(',');
        }
        let scope = match &locks[k] {
            ParcheckLock::AcquireShared { scope } => scope,
            ParcheckLock::AcquireExclusive { scope } => scope,
            ParcheckLock::Release { scope } => scope,
        };
        crate::trace::push_str_chars(out, scope.as_str());
        proof {
            assert(locks@.take(k as int + 1) =~= locks@.take(k as int).push(locks@[k as int]));
            if k == 0 {
                assert(spec_scope_list(locks@.take(1)) == locks@[0].spec_scope());
                assert(out@ =~= old(out)@ + spec_scope_list(locks@.take(1)));
            } else {
                lemma_scope_list_push(locks@.take(k as int), locks@[k as int]);
                assert(out@ =~= old(out)@ + spec_scope_list(locks@.take(k as int + 1)));
            }
        }
        k = k + 1;
    }
    proof {
        assert(locks@.take(locks@.len() as int) =~= locks@);
    }
}

/// The description of a task state, for diagnostics.
pub open spec fn spec_state_text(s: TaskState) -> Seq<char> {
    match s {
        TaskState::NotStarted => "not-started"@,
        TaskState::ExecutingOutsideOperation => "executing-outside-parcheck-operation"@,
        TaskState::WaitingToStartOperation { metadata, locks, blocked_locks } =>
            "waiting-to-start-operation "@ + spec_site_text(metadata) + " (locks: ["@
            + spec_scope_list(locks@) + "], blocked by locks: ["@ + spec_scope_list(blocked_locks@)
            + "])"@,
        TaskState::ExecutingOperation { metadata } => "executing-operation "@ + spec_site_text(
            metadata,
        ),
        TaskState::Finished => "finished"@,
    }
}

impl TaskState {
    /// This state as text, for diagnostics: which phase the task is in,
    /// the pending or running operation's site, and the scopes a waiting
    /// task asked for and is blocked by.
    pub fn describe(&self) -> (r: String)
        ensures
            r@ == spec_state_text(*self),
    {
        match self {
            TaskState::NotStarted => "not-started".to_owned(),
            TaskState::ExecutingOutsideOperation => {
                "executing-outside-parcheck-operation".to_owned()
            },
            TaskState::WaitingToStartOperation { metadata, locks, blocked_locks } => {
                let mut v: Vec<char> = Vec::new();
                crate::trace::push_str_chars(&mut v, "waiting-to-start-operation ");
                let site = metadata.describe();
                crate::trace::push_str_chars(&mut v, site.as_str());
                proof {
                    assert(v@ =~= "waiting-to-start-operation "@ + spec_site_text(*metadata));
                }
                crate::trace::push_str_chars(&mut v, " (locks: [");
                push_scope_list(&mut v, locks);
                proof {
                    assert(v@ =~= "waiting-to-start-operation "@ + spec_site_text(*metadata)
                        + " (locks: ["@ + spec_scope_list(locks@));
                }
                crate::trace::push_str_chars(&mut v, "], blocked by locks: [");
                push_scope_list(&mut v, blocked_locks);
                crate::trace::push_str_chars(&mut v, "])");
                proof {
                    assert(v@ =~= spec_state_text(*self));
                }
                crate::trace::chars_to_string(&v)
            },
            TaskState::ExecutingOperation { metadata } => {
                let mut v: Vec<char> = Vec::new();
                crate::trace::push_str_chars(&mut v, "executing-operation ");
                let site = metadata.describe();
                crate::trace::push_str_chars(&mut v, site.as_str());
                proof {
                    assert(v@ =~= spec_state_text(*self));
                }
                crate::trace::chars_to_string(&v)
            },
            TaskState::Finished => "finished".to_owned(),
        }
    }
}

/// How many tasks are inside an operation.
pub open spec fn spec_num_executing(s: Seq<TaskState>) -> nat
    decreases s.len(),
{
    if s.len() == 0 {
        0
    } else {
        (if s[0] is ExecutingOperation {
            1nat
        } else {
            0nat
        }) + spec_num_executing(s.drop_first())
    }
}

/// Every task is suspended at a permit request or finished.
pub open spec fn spec_quiescent(s: Seq<TaskState>) -> bool {
    forall|i: int| 0 <= i < s.len() ==> (#[trigger] s[i]).spec_waiting_or_finished()
}

/// Replacing the state at one position changes the executing count by
/// exactly the difference the two states make.
proof fn lemma_num_executing_update(s: Seq<TaskState>, i: int, v: TaskState)
    requires
        0 <= i < s.len(),
    ensures
        spec_num_executing(s.update(i, v)) == spec_num_executing(s) - (
        if s[i] is ExecutingOperation {
            1int
        } else {
            0int
        }) + (if v is ExecutingOperation {
            1int
        } else {
            0int
        }),
    decreases s.len(),
{
    if i == 0 {
        assert(s.update(0, v).drop_first() =~= s.drop_first());
    } else {
        lemma_num_executing_update(s.drop_first(), i - 1, v);
        assert(s.update(i, v).drop_first() =~= s.drop_first().update(i - 1, v));
    }
}

/// In a quiescent snapshot no task is inside an operation.
proof fn lemma_quiescent_none_executing(s: Seq<TaskState>)
    requires
        spec_quiescent(s),
    ensures
        spec_num_executing(s) == 0,
    decreases s.len(),
{
    if s.len() > 0 {
        assert(s[0].spec_waiting_or_finished());
        lemma_quiescent_none_executing(s.drop_first());
    }
}

/// Two tasks inside operations at two positions make the count at least
/// two.
proof fn lemma_two_executing(s: Seq<TaskState>, i: int, j: int)
    requires
        0 <= i < j < s.len(),
        s[i] is ExecutingOperation,
        s[j] is ExecutingOperation,
    ensures
        spec_num_executing(s) >= 2,
    decreases s.len(),
{
    if i == 0 {
        lemma_one_executing(s.drop_first(), j - 1);
    } else {
        lemma_two_executing(s.drop_first(), i - 1, j - 1);
    }
}

/// One task inside an operation makes the count at least one.
proof fn lemma_one_executing(s: Seq<TaskState>, i: int)
    requires
        0 <= i < s.len(),
        s[i] is ExecutingOperation,
    ensures
        spec_num_executing(s) >= 1,
    decreases s.len(),
{
    if i > 0 {
        lemma_one_executing(s.drop_first(), i - 1);
    }
}

/// The indices, from position `k` on, of the tasks that are not finished.
pub open spec fn spec_unfinished_from(s: Seq<TaskState>, k: int) -> Seq<usize>
    decreases s.len() - k,
{
    if k < 0 || k >= s.len() {
        Seq::empty()
    } else {
        let rest = spec_unfinished_from(s, k + 1);
        if s[k] is Finished {
            rest
        } else {
            seq![k as usize] + rest
        }
    }
}

impl Controller {
    /// The registered task names, in registration order.
    pub closed spec fn spec_names(&self) -> Seq<Seq<char>> {
        self.tasks@.map_values(|t: TaskEntry| t.name@)
    }

    /// The task states, indexed by task id.
    pub closed spec fn spec_states(&self) -> Seq<TaskState> {
        self.tasks@.map_values(|t: TaskEntry| t.state)
    }

    /// The lock table.
    pub closed spec fn spec_locked(&self) -> Seq<(Seq<char>, Seq<Holder>)> {
        self.locked_state@
    }

    /// At most one task is inside an operation, and the lock table is
    /// consistent.
    pub open spec fn wf(&self) -> bool {
        spec_num_executing(self.spec_states()) <= 1 && table_wf(self.spec_locked())
    }

    /// Every waiting task's `blocked_locks` is the blocked subset of its
    /// requested locks with respect to the current lock table.
    pub open spec fn blocked_fresh(&self) -> bool {
        forall|i: int|
            0 <= i < self.spec_states().len() ==> match #[trigger] self.spec_states()[i] {
                TaskState::WaitingToStartOperation { locks, blocked_locks, .. } => blocked_locks@
                    == spec_blocked(self.spec_locked(), i as usize, locks@),
                _ => true,
            }
    }

    /// Register one task per initial name; every task starts `NotStarted`
    /// and no lock is held.
    pub fn register(initial_tasks: &Vec<String>) -> (r: Controller)
        ensures
            r.wf(),
            r.spec_names() == initial_tasks@.map_values(|s: String| s@),
            r.spec_states().len() == initial_tasks@.len(),
            forall|i: int| 0 <= i < r.spec_states().len() ==> r.spec_states()[i] is NotStarted,
            r.spec_locked() =~= Seq::<(Seq<char>, Seq<Holder>)>::empty(),
    {
        let mut tasks: Vec<TaskEntry> = Vec::new();
        let mut i: usize = 0;
        while i < initial_tasks.len()
            invariant
                0 <= i <= initial_tasks@.len(),
                tasks@.len() == i,
                forall|j: int| 0 <= j < i ==> tasks@[j].state is NotStarted,
                forall|j: int| 0 <= j < i ==> tasks@[j].name@ == initial_tasks@[j]@,
                spec_num_executing(tasks@.map_values(|t: TaskEntry| t.state)) == 0,
            decreases initial_tasks@.len() - i,
        {
            let ghost states_old = tasks@.map_values(|t: TaskEntry| t.state);
            tasks.push(TaskEntry { name: initial_tasks[i].clone(), state: TaskState::NotStarted });
            proof {
                assert(tasks@.map_values(|t: TaskEntry| t.state) =~= states_old.push(
                    TaskState::NotStarted,
                ));
                lemma_num_executing_push(states_old, TaskState::NotStarted);
            }
            i = i + 1;
        }
        let r = Controller { tasks, locked_state: LockedState::new() };
        proof {
            assert(r.spec_names() =~= initial_tasks@.map_values(|s: String| s@));
        }
        r
    }

    /// How many tasks are registered.
    pub fn num_tasks(&self) -> (r: usize)
        ensures
            r == self.spec_states().len(),
    {
        self.tasks.len()
    }

    /// The registered tasks with their current states.
    pub fn tasks(&self) -> (r: &Vec<TaskEntry>)
        ensures
            r@.len() == self.spec_states().len(),
            forall|i: int|
                0 <= i < r@.len() ==> (#[trigger] r@[i]).state == self.spec_states()[i]
                    && r@[i].name@ == self.spec_names()[i],
    {
        &self.tasks
    }

    /// Whether every task is suspended at a permit request or finished.
    pub fn is_quiescent(&self) -> (r: bool)
        ensures
            r == spec_quiescent(self.spec_states()),
    {
        let mut i: usize = 0;
        while i < self.tasks.len()
            invariant
                0 <= i <= self.tasks@.len(),
                self.spec_states().len() == self.tasks@.len(),
                forall|j: int|
                    0 <= j < i ==> (#[trigger] self.spec_states()[j]).spec_waiting_or_finished(),
                forall|j: int| 0 <= j < self.tasks@.len() ==> self.spec_states()[j] == self.tasks@[j].state,
            decreases self.tasks@.len() - i,
        {
            let waiting = match &self.tasks[i].state {
                TaskState::WaitingToStartOperation { .. } => true,
                TaskState::Finished => true,
                _ => false,
            };
            if !waiting {
                proof {
                    assert(self.spec_states()[i as int] == self.tasks@[i as int].state);
                    assert(!self.spec_states()[i as int].spec_waiting_or_finished());
                }
                return false;
            }
            i = i + 1;
        }
        true
    }

    /// Process one task lifecycle event, as the event-handling table of the
    /// protocol prescribes.  An `Ok(Some(..))` reply must be sent back on
    /// the requesting task's permit channel; an `Err` is a protocol misuse
    /// that the embedding turns into a fatal diagnostic.
    pub fn handle_event(&mut self, id: usize, event: TaskEvent) -> (r: Result<
        Option<OperationPermit>,
        ProtocolError,
    >)
        requires
            old(self).wf(),
            id < old(self).spec_states().len(),
        ensures
            final(self).wf(),
            final(self).spec_names() == old(self).spec_names(),
            final(self).spec_states().len() == old(self).spec_states().len(),
            forall|j: int|
                0 <= j < old(self).spec_states().len() && j != id ==> final(self).spec_states()[j]
                    == old(self).spec_states()[j],
            match event {
                TaskEvent::TaskStarted => {
                    &&& r is Ok
                    &&& r->Ok_0 is None
                    &&& final(self).spec_states()[id as int] is ExecutingOutsideOperation
                    &&& final(self).spec_locked() == old(self).spec_locked()
                },
                TaskEvent::OperationPermitRequested { metadata, locks } => {
                    &&& final(self).spec_locked() == old(self).spec_locked()
                    &&& match old(self).spec_states()[id as int] {
                        TaskState::ExecutingOperation { metadata: other } => {
                            &&& r == Ok::<Option<OperationPermit>, ProtocolError>(
                                Some(OperationPermit::OperationAlreadyInProgress { other }),
                            )
                            &&& final(self).spec_states()[id as int] == old(self).spec_states()[id as int]
                        },
                        _ => {
                            &&& r is Ok
                            &&& r->Ok_0 is None
                            &&& (final(self).spec_states()[id as int] matches
                            TaskState::WaitingToStartOperation {
                                metadata: m2,
                                locks: l2,
                                blocked_locks: b2,
                            } && m2 == metadata && l2 == locks && b2@.len() == 0)
                        },
                    }
                },
                TaskEvent::OperationFinished => {
                    &&& final(self).spec_locked() == old(self).spec_locked()
                    &&& if old(self).spec_states()[id as int] is ExecutingOperation {
                        &&& r is Ok
                        &&& r->Ok_0 is None
                        &&& final(self).spec_states()[id as int] is ExecutingOutsideOperation
                    } else {
                        &&& r == Err::<Option<OperationPermit>, ProtocolError>(
                            ProtocolError::FinishedOutsideOperation { task: id },
                        )
                        &&& final(self).spec_states()[id as int] == old(self).spec_states()[id as int]
                    }
                },
                TaskEvent::TaskFinished => {
                    &&& final(self).spec_locked() == old(self).spec_locked()
                    &&& if spec_held_scopes(old(self).spec_locked(), id).len() == 0 {
                        &&& r is Ok
                        &&& r->Ok_0 is None
                        &&& final(self).spec_states()[id as int] is Finished
                    } else {
                        &&& r matches Err(ProtocolError::FinishedWithHeldLocks {
                            task: t,
                            scopes: sc,
                        }) && t == id && sc@.map_values(|s: String| s@) == spec_held_scopes(
                            old(self).spec_locked(),
                            id,
                        )
                        &&& final(self).spec_states()[id as int] == old(self).spec_states()[id as int]
                    }
                },
            },
    {
        let ghost states0 = self.spec_states();
        let entry = self.tasks.remove(id);
        let name = entry.name;
        let state = entry.state;
        let (new_state, result) = match event {
            TaskEvent::TaskStarted => (TaskState::ExecutingOutsideOperation, Ok(None)),
            TaskEvent::OperationPermitRequested { metadata, locks } => {
                match state {
                    TaskState::ExecutingOperation { metadata: other } => {
                        let reply = OperationPermit::OperationAlreadyInProgress {
                            other: other.clone(),
                        };
                        (TaskState::ExecutingOperation { metadata: other }, Ok(Some(reply)))
                    },
                    other_state => {
                        // the previous state is discarded, as the protocol
                        // table prescribes for a fresh permit request
                        let _ = other_state;
                        (
                            TaskState::WaitingToStartOperation {
                                metadata,
                                locks,
                                blocked_locks: Vec::new(),
                            },
                            Ok(None),
                        )
                    },
                }
            },
            TaskEvent::OperationFinished => {
                match state {
                    TaskState::ExecutingOperation { .. } => (
                        TaskState::ExecutingOutsideOperation,
                        Ok(None),
                    ),
                    other_state => (
                        other_state,
                        Err(ProtocolError::FinishedOutsideOperation { task: id }),
                    ),
                }
            },
            TaskEvent::TaskFinished => {
                let held = self.locked_state.acquired_locks(id);
                if held.len() == 0 {
                    proof {
                        assert(held@.map_values(|s: String| s@).len() == 0);
                    }
                    (TaskState::Finished, Ok(None))
                } else {
                    proof {
                        assert(held@.map_values(|s: String| s@).len() == held@.len());
                    }
                    (state, Err(ProtocolError::FinishedWithHeldLocks { task: id, scopes: held }))
                }
            },
        };
        let ghost ns = new_state;
        self.tasks.insert(id, TaskEntry { name, state: new_state });
        proof {
            assert(self.spec_states() =~= states0.update(id as int, ns));
            assert(self.spec_names() =~= old(self).spec_names());
            lemma_num_executing_update(states0, id as int, ns);
        }
        result
    }

    /// Recompute, at a quiescent snapshot, each waiting task's blocked
    /// subset from the current lock table.  Afterwards every task is still
    /// waiting or finished, and every `blocked_locks` field is fresh.
    pub fn refresh_blocked(&mut self)
        requires
            old(self).wf(),
            spec_quiescent(old(self).spec_states()),
        ensures
            final(self).wf(),
            final(self).spec_names() == old(self).spec_names(),
            final(self).spec_locked() == old(self).spec_locked(),
            final(self).spec_states().len() == old(self).spec_states().len(),
            spec_quiescent(final(self).spec_states()),
            final(self).blocked_fresh(),
            forall|i: int|
                0 <= i < old(self).spec_states().len() ==> match #[trigger] old(self).spec_states()[i] {
                    TaskState::WaitingToStartOperation { metadata, locks, .. } => (
                    final(self).spec_states()[i] matches TaskState::WaitingToStartOperation {
                        metadata: m2,
                        locks: l2,
                        blocked_locks: b2,
                    } && m2 == metadata && l2 == locks && b2@ == spec_blocked(
                        old(self).spec_locked(),
                        i as usize,
                        locks@,
                    )),
                    _ => final(self).spec_states()[i] == old(self).spec_states()[i],
                },
    {
        let ghost states0 = self.spec_states();
        let ghost locked0 = self.spec_locked();
        let n = self.tasks.len();
        let mut i: usize = 0;
        while i < n
            invariant
                0 <= i <= n,
                n == self.tasks@.len(),
                self.wf(),
                self.spec_locked() == locked0,
                self.spec_names() == old(self).spec_names(),
                self.spec_states().len() == states0.len(),
                states0 == old(self).spec_states(),
                locked0 == old(self).spec_locked(),
                spec_quiescent(states0),
                forall|j: int| i <= j < n ==> self.spec_states()[j] == states0[j],
                forall|j: int|
                    0 <= j < i ==> match #[trigger] states0[j] {
                        TaskState::WaitingToStartOperation { metadata, locks, .. } => (
                        self.spec_states()[j] matches TaskState::WaitingToStartOperation {
                            metadata: m2,
                            locks: l2,
                            blocked_locks: b2,
                        } && m2 == metadata && l2 == locks && b2@ == spec_blocked(
                            locked0,
                            j as usize,
                            locks@,
                        )),
                        _ => self.spec_states()[j] == states0[j],
                    },
            decreases n - i,
        {
            let ghost states_cur = self.spec_states();
            let entry = self.tasks.remove(i);
            let name = entry.name;
            let new_state = match entry.state {
                TaskState::WaitingToStartOperation { metadata, locks, blocked_locks } => {
                    let _ = blocked_locks;
                    let fresh = self.locked_state.blocked(i, &locks);
                    TaskState::WaitingToStartOperation { metadata, locks, blocked_locks: fresh }
                },
                other => other,
            };
            let ghost ns = new_state;
            self.tasks.insert(i, TaskEntry { name, state: new_state });
            proof {
                assert(self.spec_states() =~= states_cur.update(i as int, ns));
                assert(self.spec_names() =~= old(self).spec_names());
                lemma_num_executing_update(states_cur, i as int, ns);
            }
            i = i + 1;
        }
        proof {
            assert forall|i2: int|
                0 <= i2 < self.spec_states().len() implies (#[trigger] self.spec_states()[i2]).spec_waiting_or_finished() by {
                assert(states0[i2].spec_waiting_or_finished());
            }
            assert forall|i2: int|
                0 <= i2 < self.spec_states().len() implies match #[trigger] self.spec_states()[i2] {
                    TaskState::WaitingToStartOperation { locks, blocked_locks, .. } => blocked_locks@
                        == spec_blocked(self.spec_locked(), i2 as usize, locks@),
                    _ => true,
                } by {
                match states0[i2] {
                    TaskState::WaitingToStartOperation { .. } => {},
                    _ => {
                        assert(self.spec_states()[i2] == states0[i2]);
                    },
                }
            }
        }
    }

    /// Step the chosen task into its pending operation: mark it executing,
    /// apply its acquire entries to the lock table, and hand back the lock
    /// annotations of the request so the caller can release them when the
    /// step ends.  The embedding replies `Granted` on the task's permit
    /// channel.  Afterwards exactly this one task is inside an operation.
    pub fn step_begin(&mut self, id: usize) -> (locks: Vec<ParcheckLock>)
        requires
            old(self).wf(),
            spec_quiescent(old(self).spec_states()),
            id < old(self).spec_states().len(),
            old(self).spec_states()[id as int] is WaitingToStartOperation,
            spec_blocked(
                old(self).spec_locked(),
                id,
                old(self).spec_states()[id as int]->WaitingToStartOperation_locks@,
            ).len() == 0,
        ensures
            final(self).wf(),
            final(self).spec_names() == old(self).spec_names(),
            final(self).spec_states().len() == old(self).spec_states().len(),
            forall|j: int|
                0 <= j < old(self).spec_states().len() && j != id ==> final(self).spec_states()[j]
                    == old(self).spec_states()[j],
            (final(self).spec_states()[id as int] matches TaskState::ExecutingOperation {
                metadata: m2,
            } && m2 == old(self).spec_states()[id as int]->WaitingToStartOperation_metadata),
            locks == old(self).spec_states()[id as int]->WaitingToStartOperation_locks,
            final(self).spec_locked() == apply_acquires(old(self).spec_locked(), id, locks@),
            spec_num_executing(final(self).spec_states()) == 1,
    {
        let ghost states0 = self.spec_states();
        let entry = self.tasks.remove(id);
        let name = entry.name;
        let (metadata, locks) = match entry.state {
            TaskState::WaitingToStartOperation { metadata, locks, blocked_locks } => {
                let _ = blocked_locks;
                (metadata, locks)
            },
            _ => {
                // unreachable: the precondition pins the waiting state
                proof {
                    assert(false);
                }
                (OperationMetadata { name: String::new(), file: String::new(), line: 0 }, Vec::new())
            },
        };
        self.locked_state.acquire_locks(id, &locks);
        let ghost ns = TaskState::ExecutingOperation { metadata: metadata };
        self.tasks.insert(id, TaskEntry { name, state: TaskState::ExecutingOperation { metadata } });
        proof {
            assert(self.spec_states() =~= states0.update(id as int, ns));
            assert(self.spec_names() =~= old(self).spec_names());
            lemma_quiescent_none_executing(states0);
            lemma_num_executing_update(states0, id as int, ns);
        }
        locks
    }

    /// End the step of task `id`: apply the release entries of the lock
    /// annotations its operation carried.  Task states do not change; the
    /// task itself already reported where it went next.
    pub fn step_end(&mut self, id: usize, locks: &Vec<ParcheckLock>)
        requires
            old(self).wf(),
        ensures
            final(self).wf(),
            final(self).spec_names() == old(self).spec_names(),
            final(self).spec_states() == old(self).spec_states(),
            final(self).spec_locked() == apply_releases(old(self).spec_locked(), id, locks@),
    {
        self.locked_state.release_locks(id, locks);
    }

    /// Check that every task has finished; the ids of the tasks that have
    /// not are returned otherwise.
    pub fn check_finished(&self) -> (r: Result<(), Vec<usize>>)
        ensures
            r is Ok <==> (forall|i: int|
                0 <= i < self.spec_states().len() ==> (#[trigger] self.spec_states()[i])
                    is Finished),
            r matches Err(v) ==> v@ == spec_unfinished_from(self.spec_states(), 0) && v@.len() > 0,
    {
        let ghost s = self.spec_states();
        let mut unfinished: Vec<usize> = Vec::new();
        let mut i: usize = 0;
        proof {
            assert(spec_unfinished_from(s, 0) =~= unfinished@ + spec_unfinished_from(s, 0));
        }
        while i < self.tasks.len()
            invariant
                0 <= i <= self.tasks@.len(),
                s == self.spec_states(),
                s.len() == self.tasks@.len(),
                forall|j: int| 0 <= j < s.len() ==> s[j] == self.tasks@[j].state,
                spec_unfinished_from(s, 0) == unfinished@ + spec_unfinished_from(s, i as int),
                unfinished@.len() == 0 <==> (forall|j: int| 0 <= j < i ==> s[j] is Finished),
            decreases self.tasks@.len() - i,
        {
            let ghost u_old = unfinished@;
            match &self.tasks[i].state {
                TaskState::Finished => {},
                _ => {
                    unfinished.push(i);
                    proof {
                        assert(unfinished@ =~= u_old.push(i as usize));
                        assert(u_old + (seq![i as usize] + spec_unfinished_from(s, i as int + 1))
                            =~= unfinished@ + spec_unfinished_from(s, i as int + 1));
                    }
                },
            }
            i = i + 1;
        }
        proof {
            assert(spec_unfinished_from(s, s.len() as int) =~= Seq::<usize>::empty());
            assert(unfinished@ + Seq::<usize>::empty() =~= unfinished@);
        }
        if unfinished.len() == 0 {
            Ok(())
        } else {
            Err(unfinished)
        }
    }

    /// The ids of the tasks that may be stepped forward now, in increasing
    /// order.
    pub fn runnable_tasks(&self) -> (r: Vec<usize>)
        ensures
            forall|k: int| 0 <= k < r@.len() ==> #[trigger] r@[k] < self.spec_states().len(),
            forall|k: int|
                0 <= k < r@.len() ==> (#[trigger] self.spec_states()[r@[k] as int]).spec_can_execute(),
            forall|i: int|
                0 <= i < self.spec_states().len() && (#[trigger] self.spec_states()[i]).spec_can_execute()
                    ==> r@.contains(i as usize),
            forall|k: int, l: int| 0 <= k < l < r@.len() ==> r@[k] < r@[l],
    {
        runnable_ids(&self.tasks)
    }
}

/// The ids of the entries whose tasks may be stepped forward now, in
/// increasing order.
pub fn runnable_ids(tasks: &Vec<TaskEntry>) -> (r: Vec<usize>)
    ensures
        forall|k: int| 0 <= k < r@.len() ==> #[trigger] r@[k] < tasks@.len(),
        forall|k: int|
            0 <= k < r@.len() ==> (#[trigger] tasks@[r@[k] as int].state).spec_can_execute(),
        forall|i: int|
            0 <= i < tasks@.len() && (#[trigger] tasks@[i].state).spec_can_execute() ==> r@.contains(
                i as usize,
            ),
        forall|k: int, l: int| 0 <= k < l < r@.len() ==> r@[k] < r@[l],
{
    let mut r: Vec<usize> = Vec::new();
    let mut i: usize = 0;
    while i < tasks.len()
        invariant
            0 <= i <= tasks@.len(),
            forall|k: int| 0 <= k < r@.len() ==> #[trigger] r@[k] < i,
            forall|k: int|
                0 <= k < r@.len() ==> (#[trigger] tasks@[r@[k] as int].state).spec_can_execute(),
            forall|j: int|
                0 <= j < i && (#[trigger] tasks@[j].state).spec_can_execute() ==> r@.contains(
                    j as usize,
                ),
            forall|k: int, l: int| 0 <= k < l < r@.len() ==> r@[k] < r@[l],
        decreases tasks@.len() - i,
    {
        if tasks[i].state.can_execute() {
            let ghost r_old = r@;
            r.push(i);
            proof {
                assert(r@ =~= r_old.push(i as usize));
                assert(tasks@[i as int].state.spec_can_execute());
                assert forall|k: int|
                    0 <= k < r@.len() implies r@[k] < i + 1 && (
                    #[trigger] tasks@[r@[k] as int].state).spec_can_execute() by {
                    if k < r@.len() - 1 {
                        assert(r@[k] == r_old[k]);
                        assert(r_old[k] < i);
                        assert(tasks@[r_old[k] as int].state.spec_can_execute());
                    } else {
                        assert(r@[k] == i as usize);
                    }
                }
                assert forall|k: int, l: int| 0 <= k < l < r@.len() implies r@[k] < r@[l] by {
                    if l == r@.len() - 1 {
                        assert(r@[k] == r_old[k]);
                        assert(r_old[k] < i);
                        assert(r@[l] == i as usize);
                    } else {
                        assert(r@[k] == r_old[k] && r@[l] == r_old[l]);
                    }
                }
                assert forall|j: int|
                    0 <= j <= i && (#[trigger] tasks@[j].state).spec_can_execute() implies r@.contains(
                    j as usize,
                ) by {
                    if j < i {
                        let k = choose|k: int| 0 <= k < r_old.len() && r_old[k] == j as usize;
                        assert(r@[k] == j as usize);
                    } else {
                        assert(r@[r@.len() - 1] == i as usize);
                    }
                }
            }
        }
        i = i + 1;
    }
    r
}

/// Appending a state adds its own contribution to the executing count.
proof fn lemma_num_executing_push(s: Seq<TaskState>, v: TaskState)
    ensures
        spec_num_executing(s.push(v)) == spec_num_executing(s) + (if v is ExecutingOperation {
            1int
        } else {
            0int
        }),
    decreases s.len(),
{
    if s.len() == 0 {
        assert(s.push(v)[0] == v);
        assert(s.push(v).drop_first() =~= Seq::<TaskState>::empty());
        assert(spec_num_executing(Seq::<TaskState>::empty()) == 0);
    } else {
        assert(s.push(v)[0] == s[0]);
        assert(s.push(v).drop_first() =~= s.drop_first().push(v));
        lemma_num_executing_push(s.drop_first(), v);
    }
}

/// At most one task is ever inside an operation: in a consistent
/// controller, two tasks both inside operations are the same task.
pub proof fn lemma_at_most_one_inside(c: &Controller, i: int, j: int)
    requires
        c.wf(),
        0 <= i < c.spec_states().len(),
        0 <= j < c.spec_states().len(),
        c.spec_states()[i] is ExecutingOperation,
        c.spec_states()[j] is ExecutingOperation,
    ensures
        i == j,
{
    if i < j {
        lemma_two_executing(c.spec_states(), i, j);
    } else if j < i {
        lemma_two_executing(c.spec_states(), j, i);
    }
}

} // verus!
