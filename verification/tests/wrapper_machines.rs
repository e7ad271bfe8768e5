use parcheck::ParcheckLock;
use parcheck::controller::OperationPermit;
use parcheck::operation::{operation, OperationMetadata, OperationState};
use parcheck::task::{task, TaskFutureState};

fn md(name: &str) -> OperationMetadata {
    OperationMetadata { name: name.to_string(), file: "site.rs".to_string(), line: 10 }
}

#[test]
fn controlled_operation_requests_runs_and_reports() {
    let mut f = operation(md("op"), vec![]);
    let request = f.on_first_poll(true).expect("a controlled operation asks for a permit");
    assert_eq!(request.0.name, "op");
    assert_eq!(request.1.len(), 0);
    assert!(f.on_permit(Some(OperationPermit::Granted)).is_ok());
    assert!(f.on_inner_ready());
}

#[test]
fn uncontrolled_operation_is_transparent() {
    let mut f = operation(md("op"), vec![]);
    assert!(f.on_first_poll(false).is_none());
    // no permit round; the wrapped work just runs, and nothing is reported
    assert!(!f.on_inner_ready());
}

#[test]
fn closed_permit_channel_counts_as_granted() {
    let mut f = operation(md("op"), vec![]);
    f.on_first_poll(true);
    assert!(f.on_permit(None).is_ok());
    assert!(f.on_inner_ready());
}

#[test]
fn in_progress_reply_aborts_with_the_other_site() {
    let mut f = operation(md("inner"), vec![]);
    f.on_first_poll(true);
    let reply = OperationPermit::OperationAlreadyInProgress { other: md("outer") };
    let other = f.on_permit(Some(reply)).unwrap_err();
    assert_eq!(other.name, "outer");
    assert_eq!(other.file, "site.rs");
    assert_eq!(other.line, 10);
}

#[test]
fn operation_carries_its_locks_to_the_request() {
    let lock = ParcheckLock::AcquireShared { scope: "db".to_string() };
    let mut f = operation(md("op"), vec![lock]);
    let request = f.on_first_poll(true).unwrap();
    assert_eq!(request.1.len(), 1);
    assert!(matches!(&request.1[0], ParcheckLock::AcquireShared { scope } if scope == "db"));
}

#[test]
fn adopted_task_announces_started_and_finished_once() {
    let mut f = task("worker");
    assert!(f.on_first_poll(Some(3)));
    assert!(f.on_inner_ready());
    // a later drop announces nothing further
    assert!(!f.on_drop());
}

#[test]
fn dropped_task_announces_finished_once() {
    let mut f = task("worker");
    assert!(f.on_first_poll(Some(0)));
    assert!(f.on_drop());
    assert!(!f.on_drop());
}

#[test]
fn unregistered_task_is_transparent() {
    let mut f = task("nobody");
    assert!(!f.on_first_poll(None));
    assert!(!f.on_inner_ready());
    assert!(!f.on_drop());
}

#[test]
fn task_state_names_are_observable() {
    let f = task("n");
    assert!(matches!(f.current_state(), TaskFutureState::Initial { .. }));
    let g = operation(md("o"), vec![]);
    assert!(matches!(g.current_state(), OperationState::Initial { .. }));
}
