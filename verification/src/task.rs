//! The task wrapper: the state machine a named task follows.
//!
//! When the user body first enters an annotated task whose name the
//! controller registered, the wrapper adopts the pending handle, announces
//! `TaskStarted`, and from then on announces `TaskFinished` exactly once:
//! on normal completion, or when the wrapper is dropped mid-flight.  A
//! task whose name nobody registered runs uncontrolled and stays silent.

use vstd::prelude::*;

verus! {

/// Where a named task stands.
pub enum TaskFutureState {
    /// Created; not yet polled.
    Initial { name: String },
    /// Adopted by the controller under the given task id; the body runs.
    Controlled { task_id: usize },
    /// No handle with this name was pending: the body runs uncontrolled
    /// and no message is ever sent.
    Uncontrolled,
    /// The body has returned, or the wrapper was dropped.
    Done,
}

/// The state machine of one named task, with a ghost account of the
/// lifecycle messages it has sent.
pub struct TaskFuture {
    state: TaskFutureState,
    controlled: Ghost<bool>,
    started_sent: Ghost<nat>,
    finished_sent: Ghost<nat>,
}

impl TaskFuture {
    /// Where the task stands.
    pub closed spec fn spec_state(&self) -> TaskFutureState {
        self.state
    }

    /// Whether the task was adopted by the controller.
    pub closed spec fn spec_controlled(&self) -> bool {
        self.controlled@
    }

    /// How many `TaskStarted` messages have been sent.
    pub closed spec fn spec_started_sent(&self) -> nat {
        self.started_sent@
    }

    /// How many `TaskFinished` messages have been sent.
    pub closed spec fn spec_finished_sent(&self) -> nat {
        self.finished_sent@
    }

    /// The message account fits the state: one `TaskStarted` on adoption,
    /// one `TaskFinished` on the one terminal transition of a controlled
    /// task, and nothing else, ever.
    pub open spec fn wf(&self) -> bool {
        match self.spec_state() {
            TaskFutureState::Initial { .. } => self.spec_started_sent() == 0
                && self.spec_finished_sent() == 0,
            TaskFutureState::Controlled { .. } => self.spec_controlled()
                && self.spec_started_sent() == 1 && self.spec_finished_sent() == 0,
            TaskFutureState::Uncontrolled => !self.spec_controlled() && self.spec_started_sent()
                == 0 && self.spec_finished_sent() == 0,
            TaskFutureState::Done => (self.spec_controlled() ==> self.spec_started_sent() == 1
                && self.spec_finished_sent() == 1) && (!self.spec_controlled()
                ==> self.spec_started_sent() == 0 && self.spec_finished_sent() == 0),
        }
    }

    /// First poll.  When the registry held a pending handle of this name,
    /// the wrapper adopts it and announces `TaskStarted`; otherwise the
    /// body runs uncontrolled.
    pub fn on_first_poll(&mut self, adopted: Option<usize>) -> (announce_started: bool)
        requires
            old(self).wf(),
            old(self).spec_state() is Initial,
        ensures
            final(self).wf(),
            announce_started == (adopted is Some),
            final(self).spec_finished_sent() == 0,
            match adopted {
                Some(id) => (final(self).spec_state() matches TaskFutureState::Controlled {
                    task_id,
                } && task_id == id) && final(self).spec_started_sent() == 1
                    && final(self).spec_controlled(),
                None => final(self).spec_state() is Uncontrolled,
            },
    {
        match adopted {
            Some(id) => {
                self.state = TaskFutureState::Controlled { task_id: id };
                self.controlled = Ghost(true);
                self.started_sent = Ghost(1);
                true
            },
            None => {
                self.state = TaskFutureState::Uncontrolled;
                self.controlled = Ghost(false);
                false
            },
        }
    }

    /// The body returned.  A controlled task announces `TaskFinished`
    /// exactly now; an uncontrolled one stays silent.
    pub fn on_inner_ready(&mut self) -> (announce_finished: bool)
        requires
            old(self).wf(),
            old(self).spec_state() is Controlled || old(self).spec_state() is Uncontrolled,
        ensures
            final(self).wf(),
            final(self).spec_state() is Done,
            final(self).spec_controlled() == old(self).spec_controlled(),
            final(self).spec_started_sent() == old(self).spec_started_sent(),
            announce_finished == (old(self).spec_state() is Controlled),
            announce_finished ==> final(self).spec_finished_sent() == 1,
            !announce_finished ==> final(self).spec_finished_sent() == old(self).spec_finished_sent(),
    {
        let was_controlled = matches!(self.state, TaskFutureState::Controlled { .. });
        self.state = TaskFutureState::Done;
        if was_controlled {
            self.finished_sent = Ghost(1);
        }
        was_controlled
    }

    /// The wrapper is dropped.  A controlled task that has not yet
    /// announced `TaskFinished` announces it now, once; every other state
    /// stays silent, so completion followed by drop never announces
    /// twice.
    pub fn on_drop(&mut self) -> (announce_finished: bool)
        requires
            old(self).wf(),
        ensures
            final(self).wf(),
            final(self).spec_controlled() == old(self).spec_controlled(),
            final(self).spec_started_sent() == old(self).spec_started_sent(),
            announce_finished == (old(self).spec_state() is Controlled),
            announce_finished ==> final(self).spec_state() is Done
                && final(self).spec_finished_sent() == 1,
            !announce_finished ==> *final(self) == *old(self),
    {
        let was_controlled = matches!(self.state, TaskFutureState::Controlled { .. });
        if was_controlled {
            self.state = TaskFutureState::Done;
            self.finished_sent = Ghost(1);
        }
        was_controlled
    }
}

impl TaskFuture {
    /// Where the task stands, for observation.
    pub fn current_state(&self) -> (r: &TaskFutureState)
        ensures
            *r == self.spec_state(),
    {
        &self.state
    }
}

/// Wrap a named task body: the machine starts `Initial` with the name the
/// registry will be asked for.
pub fn task(name: &str) -> (f: TaskFuture)
    ensures
        f.wf(),
        (f.spec_state() matches TaskFutureState::Initial { name: n } && n@ == name@),
        f.spec_started_sent() == 0,
        f.spec_finished_sent() == 0,
{
    TaskFuture {
        state: TaskFutureState::Initial { name: name.to_owned() },
        controlled: Ghost(false),
        started_sent: Ghost(0),
        finished_sent: Ghost(0),
    }
}

/// `TaskFinished` fires exactly once per task that started: a task that
/// announced `TaskStarted` announces `TaskFinished` exactly once by the
/// time it is done — whether it completed or was dropped — and a task
/// that never started never announces either message.
pub proof fn lemma_task_finished_once(f: &TaskFuture)
    requires
        f.wf(),
    ensures
        f.spec_finished_sent() <= 1,
        f.spec_started_sent() <= 1,
        f.spec_started_sent() == 0 ==> f.spec_finished_sent() == 0,
        f.spec_state() is Done && f.spec_started_sent() == 1 ==> f.spec_finished_sent() == 1,
{
}

} // verus!