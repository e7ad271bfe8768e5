//! The runner's decisions: what to run next, and what to record.
//!
//! The asynchronous driver around this crate runs the user body and the
//! control loop side by side; every choice that loop makes is taken here.
//! In iterate mode the schedule tree's cursor picks the next task; in
//! replay mode the supplied trace prescribes each step and, once it is
//! exhausted, the run extends freely over the still-runnable tasks, so a
//! prefix trace replays into a complete run.

use vstd::prelude::*;

use crate::controller::Controller;
use crate::rng::rng_below;
use crate::trace::Trace;
use crate::trace::TraceStep;

verus! {

/// How a run chooses its schedules.
pub enum IterationConfig {
    /// Follow one recorded trace, then extend freely.
    Replay { trace: Trace },
    /// Explore schedules through the tree, up to a bound on iterations.
    Iterate { max_iterations: u64 },
}

/// The runner's configuration.
pub struct Runner {
    iteration_config: IterationConfig,
}

impl Runner {
    /// The configured mode.
    pub closed spec fn spec_config(&self) -> IterationConfig {
        self.iteration_config
    }

    /// Whether the runner replays a recorded trace.
    pub open spec fn spec_is_replay(&self) -> bool {
        self.spec_config() is Replay
    }

    /// Replay the given trace instead of exploring.
    pub fn replay(self, trace: Trace) -> (r: Self)
        ensures
            (r.spec_config() matches IterationConfig::Replay { trace: t } && t@ == trace@),
    {
        Runner { iteration_config: IterationConfig::Replay { trace } }
    }

    /// Explore, visiting at most `max_iterations` schedules.
    pub fn max_iterations(self, max_iterations: u64) -> (r: Self)
        ensures
            r.spec_config() == (IterationConfig::Iterate { max_iterations }),
    {
        Runner { iteration_config: IterationConfig::Iterate { max_iterations } }
    }

    /// Hand the configuration to the driver.
    pub fn into_config(self) -> (r: IterationConfig)
        ensures
            r == self.spec_config(),
    {
        self.iteration_config
    }
}

impl Default for Runner {
    /// Explore without a bound on iterations.
    fn default() -> (r: Self)
        ensures
            r.spec_config() == (IterationConfig::Iterate { max_iterations: u64::MAX }),
    {
        Runner { iteration_config: IterationConfig::Iterate { max_iterations: u64::MAX } }
    }
}

/// The next task of a replayed run: the trace prescribes each step while
/// it lasts; beyond it the run extends with a random runnable task, and
/// ends exactly when no task can be stepped.
pub fn choose_replay_step(
    controller: &Controller,
    trace: &Trace,
    pos: usize,
    rng: &mut fastrand::Rng,
) -> (r: Option<usize>)
    ensures
        pos < trace@.len() ==> (r matches Some(id) && id as nat == trace@[pos as int].0),
        pos >= trace@.len() ==> match r {
            Some(id) => id < controller.spec_states().len() && controller.spec_states()[id as int].spec_can_execute(),
            None => forall|i: int|
                0 <= i < controller.spec_states().len() ==> !(
                #[trigger] controller.spec_states()[i]).spec_can_execute(),
        },
{
    if pos < trace.len() {
        let st = trace.get(pos);
        Some(st.task_id)
    } else {
        let candidates = controller.runnable_tasks();
        if candidates.len() == 0 {
            proof {
                assert forall|i: int|
                    0 <= i < controller.spec_states().len() implies !(
                #[trigger] controller.spec_states()[i]).spec_can_execute() by {
                    if controller.spec_states()[i].spec_can_execute() {
                        assert(candidates@.contains(i as usize));
                    }
                }
            }
            None
        } else {
            let k = rng_below(rng, candidates.len());
            Some(candidates[k])
        }
    }
}

/// Record the chosen task's step: its id, its name, and the name of the
/// operation it is about to enter.  Nothing is recorded — and the caller
/// must treat the choice as invalid — when the task cannot be stepped.
pub fn record_step(trace: &mut Trace, controller: &Controller, id: usize) -> (r: bool)
    requires
        id < controller.spec_states().len(),
    ensures
        r == controller.spec_states()[id as int].spec_can_execute(),
        r ==> final(trace)@ == old(trace)@.push(
            (
                id as nat,
                controller.spec_names()[id as int],
                controller.spec_states()[id as int]->WaitingToStartOperation_metadata.name@,
            ),
        ),
        !r ==> final(trace)@ == old(trace)@,
{
    let entries = controller.tasks();
    let entry = &entries[id];
    match entry.state.executable_op() {
        Some(md) => {
            let step = TraceStep {
                task_id: id,
                task_name: entry.name.clone(),
                op_name: md.name.clone(),
            };
            trace.push_step(step);
            true
        },
        None => false,
    }
}

} // verus!