use parcheck::ParcheckLock;
use parcheck::locks::{has_conflict, Holder, LockedState, Mode};

fn exclusive(scope: &str) -> ParcheckLock {
    ParcheckLock::AcquireExclusive { scope: scope.to_string() }
}

fn shared(scope: &str) -> ParcheckLock {
    ParcheckLock::AcquireShared { scope: scope.to_string() }
}

fn release(scope: &str) -> ParcheckLock {
    ParcheckLock::Release { scope: scope.to_string() }
}

#[test]
fn conflict_rule() {
    let holders = vec![Holder { task: 0, mode: Mode::Shared }];
    // another shared holder is fine, an exclusive request is not
    assert!(!has_conflict(1, Mode::Shared, &holders));
    assert!(has_conflict(1, Mode::Exclusive, &holders));
    // a task's own holdings never self-conflict
    assert!(!has_conflict(0, Mode::Exclusive, &holders));

    let exclusive_holders = vec![Holder { task: 0, mode: Mode::Exclusive }];
    assert!(has_conflict(1, Mode::Shared, &exclusive_holders));
    assert!(has_conflict(1, Mode::Exclusive, &exclusive_holders));
    assert!(!has_conflict(0, Mode::Shared, &exclusive_holders));
}

#[test]
fn shared_holders_coexist() {
    let mut ls = LockedState::new();
    ls.acquire_locks(0, &vec![shared("s")]);
    // the other task's shared acquire is not blocked
    let blocked = ls.blocked(1, &vec![shared("s")]);
    assert_eq!(blocked.len(), 0);
    ls.acquire_locks(1, &vec![shared("s")]);
    assert_eq!(ls.acquired_locks(0), vec!["s".to_string()]);
    assert_eq!(ls.acquired_locks(1), vec!["s".to_string()]);
}

#[test]
fn exclusive_blocks_others() {
    let mut ls = LockedState::new();
    ls.acquire_locks(0, &vec![exclusive("s")]);
    let blocked = ls.blocked(1, &vec![shared("s"), exclusive("other")]);
    // only the conflicting acquire is reported
    assert_eq!(blocked.len(), 1);
    assert!(matches!(&blocked[0], ParcheckLock::AcquireShared { scope } if scope == "s"));
}

#[test]
fn release_frees_the_scope() {
    let mut ls = LockedState::new();
    ls.acquire_locks(0, &vec![exclusive("s")]);
    assert_eq!(ls.blocked(1, &vec![shared("s")]).len(), 1);
    ls.release_locks(0, &vec![release("s")]);
    assert_eq!(ls.blocked(1, &vec![shared("s")]).len(), 0);
    assert_eq!(ls.acquired_locks(0).len(), 0);
}

#[test]
fn release_of_unheld_scope_is_a_no_op() {
    let mut ls = LockedState::new();
    ls.acquire_locks(0, &vec![shared("s")]);
    ls.release_locks(1, &vec![release("s")]);
    ls.release_locks(0, &vec![release("absent")]);
    assert_eq!(ls.acquired_locks(0), vec!["s".to_string()]);
}

#[test]
fn same_task_upgrades_shared_to_exclusive() {
    let mut ls = LockedState::new();
    ls.acquire_locks(0, &vec![shared("s")]);
    // upgrading in place: no conflict for the task itself
    assert_eq!(ls.blocked(0, &vec![exclusive("s")]).len(), 0);
    ls.acquire_locks(0, &vec![exclusive("s")]);
    // now even shared requests of others are blocked
    assert_eq!(ls.blocked(1, &vec![shared("s")]).len(), 1);
    assert_eq!(ls.acquired_locks(0), vec!["s".to_string()]);
}

#[test]
fn release_entries_are_skipped_on_acquire() {
    let mut ls = LockedState::new();
    ls.acquire_locks(0, &vec![release("s"), shared("s")]);
    assert_eq!(ls.acquired_locks(0), vec!["s".to_string()]);
    // blocked never reports release entries
    let blocked = ls.blocked(1, &vec![release("s")]);
    assert_eq!(blocked.len(), 0);
}
