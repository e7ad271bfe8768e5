use std::collections::HashSet;

use parcheck::ParcheckLock;
use parcheck::Trace;
use parcheck::controller::{Controller, TaskEvent, TaskState};
use parcheck::operation::OperationMetadata;
use parcheck::runner::{choose_replay_step, record_step};
use parcheck::schedule_tree::{task_state_to_node_state, NodeState, ScheduleTree, UnreachableReason};

#[derive(Clone)]
struct OpDef {
    name: String,
    locks: Vec<ParcheckLock>,
}

#[derive(Clone)]
struct TaskDef {
    name: String,
    ops: Vec<OpDef>,
}

fn op(name: &str) -> OpDef {
    OpDef { name: name.to_string(), locks: Vec::new() }
}

fn op_locks(name: &str, locks: Vec<ParcheckLock>) -> OpDef {
    OpDef { name: name.to_string(), locks }
}

fn task_def(name: &str, ops: Vec<OpDef>) -> TaskDef {
    TaskDef { name: name.to_string(), ops }
}

fn excl(scope: &str) -> ParcheckLock {
    ParcheckLock::AcquireExclusive { scope: scope.to_string() }
}

fn rel(scope: &str) -> ParcheckLock {
    ParcheckLock::Release { scope: scope.to_string() }
}

fn shr(scope: &str) -> ParcheckLock {
    ParcheckLock::AcquireShared { scope: scope.to_string() }
}

fn md(name: &str) -> OperationMetadata {
    OperationMetadata { name: name.to_string(), file: "sim.rs".to_string(), line: 0 }
}

fn names_of(defs: &[TaskDef]) -> Vec<String> {
    defs.iter().map(|d| d.name.clone()).collect()
}

/// Send the task's next message: its next operation request, or its
/// finish once all its operations are done.
fn deliver_next(
    c: &mut Controller,
    id: usize,
    def: &TaskDef,
    pc: usize,
) -> Result<(), String> {
    if pc < def.ops.len() {
        let o = &def.ops[pc];
        c.handle_event(
            id,
            TaskEvent::OperationPermitRequested { metadata: md(&o.name), locks: o.locks.clone() },
        )
        .map_err(|_| "protocol violation on request".to_string())?;
        Ok(())
    } else {
        c.handle_event(id, TaskEvent::TaskFinished)
            .map_err(|_| format!("task '{}' finished without releasing locks", def.name))?;
        Ok(())
    }
}

/// One iterate-mode iteration: a cooperative run of the task bodies under
/// the controller, with the schedule tree picking every step.
fn run_one_iteration(
    tree: &mut ScheduleTree,
    defs: &[TaskDef],
    rng: &mut fastrand::Rng,
) -> Result<Trace, String> {
    let names = names_of(defs);
    let mut c = Controller::register(&names);
    let mut cursor = match tree.pick_unfinished_path(rng) {
        Some(cursor) => cursor,
        None => return Err("no unfinished path".to_string()),
    };
    let mut pcs = vec![0usize; defs.len()];
    for id in 0..defs.len() {
        c.handle_event(id, TaskEvent::TaskStarted).unwrap();
        deliver_next(&mut c, id, &defs[id], 0)?;
    }
    let mut trace = Trace::new();
    loop {
        assert!(c.is_quiescent());
        c.refresh_blocked();
        let picked = cursor.visit_and_pick(tree, c.tasks(), rng);
        let id = match picked {
            Some(id) => id,
            None => break,
        };
        assert!(record_step(&mut trace, &c, id), "picked task is not executable");
        let locks = c.step_begin(id);
        c.handle_event(id, TaskEvent::OperationFinished).unwrap();
        c.step_end(id, &locks);
        pcs[id] += 1;
        deliver_next(&mut c, id, &defs[id], pcs[id])?;
    }
    match c.check_finished() {
        Ok(()) => Ok(trace),
        Err(_) => Err("some tasks did not finish".to_string()),
    }
}

/// Iterate until the tree is exhausted (or the bound is hit), collecting
/// the traces of completed iterations and the failures.
fn run_all(defs: &[TaskDef], max_iterations: usize) -> (Vec<Trace>, Vec<String>, usize) {
    let names = names_of(defs);
    let mut tree = ScheduleTree::new(&names);
    let mut rng = fastrand::Rng::with_seed(0x5eed);
    let mut traces = Vec::new();
    let mut errors = Vec::new();
    let mut iterations = 0usize;
    while tree.has_unfinished_paths() && iterations < max_iterations {
        match run_one_iteration(&mut tree, defs, &mut rng) {
            Ok(t) => traces.push(t),
            Err(e) => errors.push(e),
        }
        iterations += 1;
    }
    assert!(iterations < max_iterations, "enumeration did not terminate");
    (traces, errors, iterations)
}

/// The order in which operations ran, as the concatenation of one letter
/// per step: the last letter of the stepped task's name.
fn letter_order(t: &Trace) -> String {
    let mut s = String::new();
    for i in 0..t.len() {
        let step = t.get(i);
        s.push(step.task_name.chars().last().unwrap());
    }
    s
}

#[test]
fn two_tasks_three_ops_cover_all_twenty_interleavings() {
    let defs = vec![
        task_def("execute:a", vec![op("append:1"), op("append:2"), op("append:3")]),
        task_def("execute:b", vec![op("append:1"), op("append:2"), op("append:3")]),
    ];
    let (traces, errors, _) = run_all(&defs, 10_000);
    assert!(errors.is_empty());
    let orders: HashSet<String> = traces.iter().map(letter_order).collect();
    // C(6, 3) distinct operation orders
    assert_eq!(orders.len(), 20);
    for expected in [
        "aaabbb", "bbbaaa", "ababab", "aabbab", "bababa", "bbaaba", "aababb", "bbabaa",
    ] {
        assert!(orders.contains(expected), "missing order '{}'", expected);
    }
}

#[test]
fn every_explored_trace_replays_to_the_same_order() {
    let defs = vec![
        task_def("a", vec![op("x"), op("y")]),
        task_def("b", vec![op("x"), op("y")]),
    ];
    let (traces, errors, _) = run_all(&defs, 1_000);
    assert!(errors.is_empty());
    assert!(!traces.is_empty());
    for t in &traces {
        let replayed = replay_run(&defs, t).expect("replay completes");
        assert_eq!(replayed.render(), t.render());
    }
}

/// A replay-mode run: the supplied trace prescribes each step while it
/// lasts, then the run extends over runnable tasks until none is left.
fn replay_run(defs: &[TaskDef], supplied: &Trace) -> Result<Trace, String> {
    let names = names_of(defs);
    let mut c = Controller::register(&names);
    let mut rng = fastrand::Rng::with_seed(0xfeed);
    let mut pcs = vec![0usize; defs.len()];
    for id in 0..defs.len() {
        c.handle_event(id, TaskEvent::TaskStarted).unwrap();
        deliver_next(&mut c, id, &defs[id], 0)?;
    }
    let mut trace = Trace::new();
    let mut pos = 0usize;
    loop {
        assert!(c.is_quiescent());
        c.refresh_blocked();
        let id = match choose_replay_step(&c, supplied, pos, &mut rng) {
            Some(id) => id,
            None => break,
        };
        pos += 1;
        assert!(record_step(&mut trace, &c, id), "replayed task is not executable");
        let locks = c.step_begin(id);
        c.handle_event(id, TaskEvent::OperationFinished).unwrap();
        c.step_end(id, &locks);
        pcs[id] += 1;
        deliver_next(&mut c, id, &defs[id], pcs[id])?;
    }
    match c.check_finished() {
        Ok(()) => Ok(trace),
        Err(_) => Err("some tasks did not finish".to_string()),
    }
}

#[test]
fn prefix_trace_extends_to_a_full_run() {
    let defs = vec![task_def("t", vec![op("op"), op("op"), op("op")])];
    let prefix = Trace::parse("0:t.op,0:t.op").expect("prefix parses");
    let full = replay_run(&defs, &prefix).expect("prefix replay completes");
    assert_eq!(full.render(), "0:t.op,0:t.op,0:t.op");
}

#[test]
fn zero_initial_tasks_return_immediately() {
    let defs: Vec<TaskDef> = Vec::new();
    let (traces, errors, iterations) = run_all(&defs, 10);
    assert_eq!(iterations, 0);
    assert!(traces.is_empty());
    assert!(errors.is_empty());
}

#[test]
fn one_task_with_zero_operations_completes_in_one_iteration() {
    let defs = vec![task_def("one", vec![])];
    let (traces, errors, iterations) = run_all(&defs, 10);
    assert_eq!(iterations, 1);
    assert!(errors.is_empty());
    assert_eq!(traces.len(), 1);
    assert_eq!(traces[0].len(), 0);
}

#[test]
fn exclusive_lock_is_never_violated() {
    let defs = vec![
        task_def("locks:a", vec![op_locks("hold", vec![excl("")]), op_locks("drop", vec![rel("")])]),
        task_def("locks:b", vec![op_locks("hold", vec![excl("")]), op_locks("drop", vec![rel("")])]),
    ];
    let (traces, errors, _) = run_all(&defs, 1_000);
    // no schedule violates mutual exclusion: every iteration completes
    assert!(errors.is_empty());
    assert!(!traces.is_empty());
    // once a task holds the scope, its two steps come uninterrupted
    for t in &traces {
        let order = letter_order(t);
        assert!(order == "aabb" || order == "bbaa", "unexpected order '{}'", order);
    }
}

#[test]
fn opposite_lock_orders_deadlock_in_some_schedule() {
    let defs = vec![
        task_def(
            "deadlock:a",
            vec![
                op_locks("acquire0", vec![excl("0")]),
                op_locks("acquire1", vec![excl("1")]),
                op_locks("release", vec![rel("0"), rel("1")]),
            ],
        ),
        task_def(
            "deadlock:b",
            vec![
                op_locks("acquire1", vec![excl("1")]),
                op_locks("acquire0", vec![excl("0")]),
                op_locks("release", vec![rel("0"), rel("1")]),
            ],
        ),
    ];
    let (_, errors, _) = run_all(&defs, 1_000);
    assert!(errors.iter().any(|e| e.contains("did not finish")));
}

#[test]
fn shared_locks_allow_all_interleavings() {
    let defs = vec![
        task_def("shared:a", vec![op_locks("hold", vec![shr("s")]), op_locks("drop", vec![rel("s")])]),
        task_def("shared:b", vec![op_locks("hold", vec![shr("s")]), op_locks("drop", vec![rel("s")])]),
    ];
    let (traces, errors, _) = run_all(&defs, 1_000);
    assert!(errors.is_empty());
    let orders: HashSet<String> = traces.iter().map(letter_order).collect();
    // shared holders never block each other: C(4, 2) orders
    assert_eq!(orders.len(), 6);
}

#[test]
fn classifier_names_each_reason() {
    let free = TaskState::WaitingToStartOperation {
        metadata: md("op"),
        locks: vec![],
        blocked_locks: vec![],
    };
    assert!(matches!(task_state_to_node_state(&free), NodeState::Unvisited));
    let blocked = TaskState::WaitingToStartOperation {
        metadata: md("op"),
        locks: vec![excl("s")],
        blocked_locks: vec![excl("s")],
    };
    assert!(matches!(
        task_state_to_node_state(&blocked),
        NodeState::Unreachable { reason: UnreachableReason::BlockedByLocks },
    ));
    assert!(matches!(
        task_state_to_node_state(&TaskState::Finished),
        NodeState::Unreachable { reason: UnreachableReason::TaskFinished },
    ));
}
