use parcheck::ParcheckLock;
use parcheck::controller::{Controller, OperationPermit, ProtocolError, TaskEvent};
use parcheck::operation::OperationMetadata;

fn names(list: &[&str]) -> Vec<String> {
    list.iter().map(|s| s.to_string()).collect()
}

fn md(name: &str) -> OperationMetadata {
    OperationMetadata { name: name.to_string(), file: "test.rs".to_string(), line: 1 }
}

fn request(name: &str, locks: Vec<ParcheckLock>) -> TaskEvent {
    TaskEvent::OperationPermitRequested { metadata: md(name), locks }
}

#[test]
fn one_task_lifecycle() {
    let mut c = Controller::register(&names(&["one"]));
    assert!(!c.is_quiescent());
    assert!(c.handle_event(0, TaskEvent::TaskStarted).is_ok());
    assert!(c.handle_event(0, request("op", vec![])).is_ok());
    assert!(c.is_quiescent());
    c.refresh_blocked();
    let locks = c.step_begin(0);
    assert_eq!(locks.len(), 0);
    assert!(c.handle_event(0, TaskEvent::OperationFinished).is_ok());
    assert!(c.handle_event(0, TaskEvent::TaskFinished).is_ok());
    c.step_end(0, &locks);
    assert!(c.check_finished().is_ok());
}

#[test]
fn reentrant_operation_is_reported_in_progress() {
    let mut c = Controller::register(&names(&["reentrant"]));
    c.handle_event(0, TaskEvent::TaskStarted).unwrap();
    c.handle_event(0, request("outer", vec![])).unwrap();
    c.refresh_blocked();
    let locks = c.step_begin(0);
    // the inner request arrives while the outer operation executes
    let reply = c.handle_event(0, request("inner", vec![])).unwrap();
    match reply {
        Some(OperationPermit::OperationAlreadyInProgress { other }) => {
            assert_eq!(other.name, "outer");
            assert_eq!(other.file, "test.rs");
            assert_eq!(other.line, 1);
        },
        _ => panic!("expected an in-progress reply"),
    }
    drop(locks);
}

#[test]
fn operation_finished_outside_operation_is_a_protocol_error() {
    let mut c = Controller::register(&names(&["t"]));
    c.handle_event(0, TaskEvent::TaskStarted).unwrap();
    let err = c.handle_event(0, TaskEvent::OperationFinished).unwrap_err();
    assert!(matches!(err, ProtocolError::FinishedOutsideOperation { task: 0 }));
}

#[test]
fn finishing_with_held_locks_is_a_protocol_error() {
    let mut c = Controller::register(&names(&["unreleased_locks"]));
    c.handle_event(0, TaskEvent::TaskStarted).unwrap();
    let acquire = ParcheckLock::AcquireExclusive { scope: "lock-scope".to_string() };
    c.handle_event(0, request("op", vec![acquire])).unwrap();
    c.refresh_blocked();
    let locks = c.step_begin(0);
    c.handle_event(0, TaskEvent::OperationFinished).unwrap();
    // no release entry was carried, so the scope is still held
    let err = c.handle_event(0, TaskEvent::TaskFinished).unwrap_err();
    match err {
        ProtocolError::FinishedWithHeldLocks { task, scopes } => {
            assert_eq!(task, 0);
            assert_eq!(scopes, vec!["lock-scope".to_string()]);
        },
        _ => panic!("expected held-locks error"),
    }
    drop(locks);
}

#[test]
fn blocked_tasks_are_not_runnable() {
    let mut c = Controller::register(&names(&["locks:a", "locks:b"]));
    let excl = || ParcheckLock::AcquireExclusive { scope: "".to_string() };
    c.handle_event(0, TaskEvent::TaskStarted).unwrap();
    c.handle_event(1, TaskEvent::TaskStarted).unwrap();
    c.handle_event(0, request("op", vec![excl()])).unwrap();
    c.handle_event(1, request("op", vec![excl()])).unwrap();
    c.refresh_blocked();
    assert_eq!(c.runnable_tasks(), vec![0, 1]);
    let locks = c.step_begin(0);
    c.handle_event(0, TaskEvent::OperationFinished).unwrap();
    let rel = ParcheckLock::Release { scope: "".to_string() };
    c.handle_event(0, request("op2", vec![rel])).unwrap();
    c.step_end(0, &locks);
    // task 0 still holds the scope exclusively: its own next request is
    // free, task 1's is blocked
    c.refresh_blocked();
    assert_eq!(c.runnable_tasks(), vec![0]);
}

#[test]
fn check_finished_lists_unfinished_tasks() {
    let mut c = Controller::register(&names(&["a", "b"]));
    c.handle_event(1, TaskEvent::TaskStarted).unwrap();
    c.handle_event(1, TaskEvent::TaskFinished).unwrap();
    let unfinished = c.check_finished().unwrap_err();
    assert_eq!(unfinished, vec![0]);
}

#[test]
fn task_states_describe_themselves() {
    let mut c = Controller::register(&names(&["d"]));
    assert_eq!(c.tasks()[0].state.describe(), "not-started");
    c.handle_event(0, TaskEvent::TaskStarted).unwrap();
    assert_eq!(c.tasks()[0].state.describe(), "executing-outside-parcheck-operation");
    let shared = ParcheckLock::AcquireShared { scope: "a".to_string() };
    let excl = ParcheckLock::AcquireExclusive { scope: "b".to_string() };
    c.handle_event(0, request("op", vec![shared, excl])).unwrap();
    c.refresh_blocked();
    assert_eq!(
        c.tasks()[0].state.describe(),
        "waiting-to-start-operation 'op' (at test.rs:1) (locks: [a,b], blocked by locks: [])",
    );
    let locks = c.step_begin(0);
    assert_eq!(c.tasks()[0].state.describe(), "executing-operation 'op' (at test.rs:1)");
    c.handle_event(0, TaskEvent::OperationFinished).unwrap();
    c.step_end(0, &locks);
}

#[test]
fn operation_sites_describe_themselves() {
    let m = OperationMetadata { name: "append:1".to_string(), file: "obs.rs".to_string(), line: 207 };
    assert_eq!(m.describe(), "'append:1' (at obs.rs:207)");
}
