//! The lock table: which task holds which named scope, and in which mode.
//!
//! A scope is an arbitrary string naming a logical lock.  A task may hold a
//! scope `Shared` or `Exclusive`; two distinct tasks may both hold a scope
//! only if both hold it `Shared`.  Acquires are applied when a step begins,
//! releases when the step that carries them ends.

use vstd::prelude::*;

use crate::ParcheckLock;

verus! {

/// The mode in which a task holds a scope.
#[derive(Clone, Copy, PartialEq, Eq, Structural, Debug)]
pub enum Mode {
    Shared,
    Exclusive,
}

/// One holder entry of a scope: a task and the mode it holds the scope in.
#[derive(Clone, Copy, PartialEq, Eq, Structural, Debug)]
pub struct Holder {
    pub task: usize,
    pub mode: Mode,
}

/// The holders of one scope.
pub struct ScopeEntry {
    pub scope: String,
    pub holders: Vec<Holder>,
}

/// The whole lock table, one entry per scope that has ever been acquired.
pub struct LockedState {
    scopes: Vec<ScopeEntry>,
}

impl View for LockedState {
    type V = Seq<(Seq<char>, Seq<Holder>)>;

    closed spec fn view(&self) -> Seq<(Seq<char>, Seq<Holder>)> {
        self.scopes@.map_values(|e: ScopeEntry| (e.scope@, e.holders@))
    }
}

/// The holders recorded for `scope`, or the empty sequence if absent.
pub open spec fn holders_of(m: Seq<(Seq<char>, Seq<Holder>)>, scope: Seq<char>) -> Seq<Holder>
    decreases m.len(),
{
    if m.len() == 0 {
        Seq::empty()
    } else if m[0].0 == scope {
        m[0].1
    } else {
        holders_of(m.drop_first(), scope)
    }
}

/// A request by `task` in `mode` conflicts with the given holders:
/// some other task holds the scope, and one of the two sides is exclusive.
pub open spec fn spec_has_conflict(task: usize, mode: Mode, holders: Seq<Holder>) -> bool {
    exists|i: int|
        0 <= i < holders.len() && holders[i].task != task && (holders[i].mode == Mode::Exclusive
            || mode == Mode::Exclusive)
}

/// The acquire mode a lock annotation asks for; releases carry no mode.
pub open spec fn spec_acquire_mode(l: ParcheckLock) -> Mode {
    match l {
        ParcheckLock::AcquireExclusive { .. } => Mode::Exclusive,
        _ => Mode::Shared,
    }
}

/// The subsequence of `locks` whose acquires conflict with the holdings of
/// other tasks in `m`.
pub open spec fn spec_blocked(
    m: Seq<(Seq<char>, Seq<Holder>)>,
    task: usize,
    locks: Seq<ParcheckLock>,
) -> Seq<ParcheckLock>
    decreases locks.len(),
{
    if locks.len() == 0 {
        Seq::empty()
    } else {
        let rest = spec_blocked(m, task, locks.drop_first());
        let l = locks[0];
        if !l.spec_is_release() && spec_has_conflict(
            task,
            spec_acquire_mode(l),
            holders_of(m, l.spec_scope()),
        ) {
            seq![l] + rest
        } else {
            rest
        }
    }
}

/// Insert `task` with `mode` into a holder list, upgrading an existing
/// entry of the same task to exclusive when the new request is exclusive.
pub open spec fn upsert_holder(h: Seq<Holder>, task: usize, mode: Mode) -> Seq<Holder>
    decreases h.len(),
{
    if h.len() == 0 {
        seq![Holder { task, mode }]
    } else if h[0].task == task {
        if mode == Mode::Exclusive {
            seq![Holder { task, mode: Mode::Exclusive }] + h.drop_first()
        } else {
            h
        }
    } else {
        seq![h[0]] + upsert_holder(h.drop_first(), task, mode)
    }
}

/// Apply one acquire of `scope` by `task` to the table.
pub open spec fn acquire_one(
    m: Seq<(Seq<char>, Seq<Holder>)>,
    task: usize,
    scope: Seq<char>,
    mode: Mode,
) -> Seq<(Seq<char>, Seq<Holder>)>
    decreases m.len(),
{
    if m.len() == 0 {
        seq![(scope, seq![Holder { task, mode }])]
    } else if m[0].0 == scope {
        seq![(m[0].0, upsert_holder(m[0].1, task, mode))] + m.drop_first()
    } else {
        seq![m[0]] + acquire_one(m.drop_first(), task, scope, mode)
    }
}

/// Apply every acquire entry of `locks` in order; releases are skipped here.
pub open spec fn apply_acquires(
    m: Seq<(Seq<char>, Seq<Holder>)>,
    task: usize,
    locks: Seq<ParcheckLock>,
) -> Seq<(Seq<char>, Seq<Holder>)>
    decreases locks.len(),
{
    if locks.len() == 0 {
        m
    } else {
        let l = locks[0];
        let m1 = if l.spec_is_release() {
            m
        } else {
            acquire_one(m, task, l.spec_scope(), spec_acquire_mode(l))
        };
        apply_acquires(m1, task, locks.drop_first())
    }
}

/// The holder list without the entries of `task`.
pub open spec fn spec_remove_task(h: Seq<Holder>, task: usize) -> Seq<Holder> {
    h.filter(|x: Holder| x.task != task)
}

/// Remove `task` from the holders of `scope`, if the scope is present;
/// removing from a scope the task does not hold changes nothing.
pub open spec fn release_one(
    m: Seq<(Seq<char>, Seq<Holder>)>,
    task: usize,
    scope: Seq<char>,
) -> Seq<(Seq<char>, Seq<Holder>)>
    decreases m.len(),
{
    if m.len() == 0 {
        m
    } else if m[0].0 == scope {
        seq![(m[0].0, spec_remove_task(m[0].1, task))] + m.drop_first()
    } else {
        seq![m[0]] + release_one(m.drop_first(), task, scope)
    }
}

/// Apply every release entry of `locks` in order; acquires are skipped here.
pub open spec fn apply_releases(
    m: Seq<(Seq<char>, Seq<Holder>)>,
    task: usize,
    locks: Seq<ParcheckLock>,
) -> Seq<(Seq<char>, Seq<Holder>)>
    decreases locks.len(),
{
    if locks.len() == 0 {
        m
    } else {
        let l = locks[0];
        let m1 = if l.spec_is_release() {
            release_one(m, task, l.spec_scope())
        } else {
            m
        };
        apply_releases(m1, task, locks.drop_first())
    }
}

/// The scopes in which `task` appears as a holder, in table order.
pub open spec fn spec_held_scopes(m: Seq<(Seq<char>, Seq<Holder>)>, task: usize) -> Seq<Seq<char>>
    decreases m.len(),
{
    if m.len() == 0 {
        Seq::empty()
    } else {
        let rest = spec_held_scopes(m.drop_first(), task);
        if exists|i: int| 0 <= i < m[0].1.len() && m[0].1[i].task == task {
            seq![m[0].0] + rest
        } else {
            rest
        }
    }
}

/// A holder list is consistent: each task appears at most once, and as soon
/// as two holders coexist every holding is shared.
pub open spec fn holders_wf(h: Seq<Holder>) -> bool {
    (forall|i: int, j: int| 0 <= i < j < h.len() ==> h[i].task != h[j].task) && (h.len() > 1
        ==> forall|i: int| 0 <= i < h.len() ==> h[i].mode == Mode::Shared)
}

/// A lock table is consistent: scope names are unique and every holder list
/// is consistent.
pub open spec fn table_wf(m: Seq<(Seq<char>, Seq<Holder>)>) -> bool {
    (forall|i: int, j: int| 0 <= i < j < m.len() ==> m[i].0 != m[j].0) && (forall|i: int|
        0 <= i < m.len() ==> holders_wf(#[trigger] m[i].1))
}

impl LockedState {
    /// Scope names are unique and every holder list is consistent.
    pub open spec fn wf(&self) -> bool {
        table_wf(self@)
    }

    /// An empty lock table.
    pub fn new() -> (r: LockedState)
        ensures
            r@ =~= Seq::<(Seq<char>, Seq<Holder>)>::empty(),
            r.wf(),
    {
        LockedState { scopes: Vec::new() }
    }

    /// The position of `scope` in the table, if present.
    fn find_scope(&self, scope: &String) -> (r: Option<usize>)
        ensures
            match r {
                Some(i) => 0 <= i < self@.len() && self@[i as int].0 == scope@,
                None => forall|i: int| 0 <= i < self@.len() ==> self@[i].0 != scope@,
            },
    {
        let mut i: usize = 0;
        while i < self.scopes.len()
            invariant
                0 <= i <= self@.len(),
                self@.len() == self.scopes@.len(),
                forall|j: int| 0 <= j < i ==> self@[j].0 != scope@,
                forall|j: int|
                    0 <= j < self@.len() ==> self@[j] == (self.scopes@[j].scope@,
                    self.scopes@[j].holders@),
            decreases self.scopes@.len() - i,
        {
            if self.scopes[i].scope == *scope {
                return Some(i);
            }
            i = i + 1;
        }
        None
    }

    /// The subsequence of `locks` whose acquires conflict with another
    /// task's holdings; a task is never blocked by its own holdings.
    pub fn blocked(&self, task_id: usize, locks: &Vec<ParcheckLock>) -> (r: Vec<ParcheckLock>)
        requires
            self.wf(),
        ensures
            r@ == spec_blocked(self@, task_id, locks@),
    {
        let ghost m = self@;
        let mut r: Vec<ParcheckLock> = Vec::new();
        let mut k: usize = 0;
        proof {
            assert(locks@.skip(0) =~= locks@);
            assert(r@ + spec_blocked(m, task_id, locks@) =~= spec_blocked(m, task_id, locks@));
        }
        while k < locks.len()
            invariant
                0 <= k <= locks@.len(),
                self.wf(),
                m == self@,
                spec_blocked(m, task_id, locks@) == r@ + spec_blocked(
                    m,
                    task_id,
                    locks@.skip(k as int),
                ),
            decreases locks@.len() - k,
        {
            let ghost rest = locks@.skip(k as int);
            proof {
                assert(rest[0] == locks@[k as int]);
                assert(rest.drop_first() =~= locks@.skip(k as int + 1));
            }
            let lock = &locks[k];
            let is_acquire = match lock {
                ParcheckLock::AcquireShared { .. } => true,
                ParcheckLock::AcquireExclusive { .. } => true,
                ParcheckLock::Release { .. } => false,
            };
            if is_acquire {
                let (scope, mode) = match lock {
                    ParcheckLock::AcquireShared { scope } => (scope, Mode::Shared),
                    ParcheckLock::AcquireExclusive { scope } => (scope, Mode::Exclusive),
                    ParcheckLock::Release { scope } => (scope, Mode::Shared),
                };
                let conflict = match self.find_scope(scope) {
                    Some(i) => {
                        proof {
                            lemma_holders_of_at(m, i as int);
                        }
                        has_conflict(task_id, mode, &self.scopes[i].holders)
                    },
                    None => {
                        proof {
                            lemma_holders_of_absent(m, scope@);
                        }
                        false
                    },
                };
                if conflict {
                    let ghost r_old = r@;
                    r.push(lock.clone());
                    proof {
                        assert(r@ =~= r_old + seq![rest[0]]);
                        assert(r_old + (seq![rest[0]] + spec_blocked(
                            m,
                            task_id,
                            rest.drop_first(),
                        )) =~= r@ + spec_blocked(m, task_id, rest.drop_first()));
                    }
                }
            }
            k = k + 1;
        }
        proof {
            assert(locks@.skip(locks@.len() as int) =~= Seq::<ParcheckLock>::empty());
            assert(r@ + Seq::<ParcheckLock>::empty() =~= r@);
        }
        r
    }
}

/// Whether a request by `task_id` in `mode` conflicts with the holders:
/// true exactly when some other task holds the scope and one side is
/// exclusive.
pub fn has_conflict(task_id: usize, mode: Mode, holders: &Vec<Holder>) -> (r: bool)
    ensures
        r == spec_has_conflict(task_id, mode, holders@),
{
    let mut i: usize = 0;
    while i < holders.len()
        invariant
            0 <= i <= holders@.len(),
            forall|j: int|
                0 <= j < i ==> !(holders@[j].task != task_id && (holders@[j].mode
                    == Mode::Exclusive || mode == Mode::Exclusive)),
        decreases holders@.len() - i,
    {
        let h = holders[i];
        if h.task != task_id && (matches!(h.mode, Mode::Exclusive) || matches!(
            mode,
            Mode::Exclusive,
        )) {
            return true;
        }
        i = i + 1;
    }
    false
}

/// With unique scope names, the holders of the scope at position `i` are
/// exactly that entry's holder list.
proof fn lemma_holders_of_at(m: Seq<(Seq<char>, Seq<Holder>)>, i: int)
    requires
        0 <= i < m.len(),
        forall|a: int, b: int| 0 <= a < b < m.len() ==> m[a].0 != m[b].0,
    ensures
        holders_of(m, m[i].0) == m[i].1,
    decreases i,
{
    if i > 0 {
        assert(m[0].0 != m[i].0);
        lemma_holders_of_at(m.drop_first(), i - 1);
    }
}

/// A scope that no entry names has no holders.
proof fn lemma_holders_of_absent(m: Seq<(Seq<char>, Seq<Holder>)>, scope: Seq<char>)
    requires
        forall|i: int| 0 <= i < m.len() ==> m[i].0 != scope,
    ensures
        holders_of(m, scope) =~= Seq::<Holder>::empty(),
    decreases m.len(),
{
    if m.len() > 0 {
        lemma_holders_of_absent(m.drop_first(), scope);
    }
}

/// Closed forms of `upsert_holder` when each task holds at most once:
/// appending when the task is absent, updating in place when present.
proof fn lemma_upsert_closed(h: Seq<Holder>, task: usize, mode: Mode)
    requires
        forall|i: int, j: int| 0 <= i < j < h.len() ==> h[i].task != h[j].task,
    ensures
        (forall|i: int| 0 <= i < h.len() ==> h[i].task != task) ==> upsert_holder(h, task, mode)
            =~= h.push(Holder { task, mode }),
        forall|j: int|
            0 <= j < h.len() && h[j].task == task ==> upsert_holder(h, task, mode) =~= (
            if mode == Mode::Exclusive {
                h.update(j, Holder { task, mode: Mode::Exclusive })
            } else {
                h
            }),
    decreases h.len(),
{
    if h.len() > 0 {
        lemma_upsert_closed(h.drop_first(), task, mode);
        if h[0].task == task {
            assert(forall|j: int| 1 <= j < h.len() ==> h[j].task != task);
            if mode == Mode::Exclusive {
                assert(upsert_holder(h, task, mode) =~= h.update(
                    0,
                    Holder { task, mode: Mode::Exclusive },
                ));
            }
        } else {
            let dl = h.drop_first();
            assert forall|j: int| 0 <= j < h.len() && h[j].task == task implies upsert_holder(
                h,
                task,
                mode,
            ) =~= (if mode == Mode::Exclusive {
                h.update(j, Holder { task, mode: Mode::Exclusive })
            } else {
                h
            }) by {
                assert(j >= 1);
                assert(dl[j - 1].task == task);
            }
        }
    }
}

/// Closed forms of `acquire_one` when scope names are unique: appending a
/// fresh scope, updating the named scope in place otherwise.
proof fn lemma_acquire_one_closed(
    m: Seq<(Seq<char>, Seq<Holder>)>,
    task: usize,
    scope: Seq<char>,
    mode: Mode,
)
    requires
        forall|i: int, j: int| 0 <= i < j < m.len() ==> m[i].0 != m[j].0,
    ensures
        (forall|i: int| 0 <= i < m.len() ==> m[i].0 != scope) ==> acquire_one(m, task, scope, mode)
            =~= m.push((scope, seq![Holder { task, mode }])),
        forall|i: int|
            0 <= i < m.len() && m[i].0 == scope ==> acquire_one(m, task, scope, mode) =~= m.update(
                i,
                (scope, upsert_holder(m[i].1, task, mode)),
            ),
    decreases m.len(),
{
    if m.len() > 0 {
        lemma_acquire_one_closed(m.drop_first(), task, scope, mode);
        if m[0].0 == scope {
            assert(forall|i: int| 1 <= i < m.len() ==> m[i].0 != scope);
            assert(acquire_one(m, task, scope, mode) =~= m.update(
                0,
                (scope, upsert_holder(m[0].1, task, mode)),
            ));
        } else {
            let dl = m.drop_first();
            assert forall|i: int| 0 <= i < m.len() && m[i].0 == scope implies acquire_one(
                m,
                task,
                scope,
                mode,
            ) =~= m.update(i, (scope, upsert_holder(m[i].1, task, mode))) by {
                assert(i >= 1);
                assert(dl[i - 1].0 == scope);
            }
        }
    }
}

/// A conflict-free acquire keeps the table consistent, and it cannot give
/// the acquiring task any new conflicts anywhere in the table.
proof fn lemma_acquire_one_wf(
    m: Seq<(Seq<char>, Seq<Holder>)>,
    task: usize,
    scope: Seq<char>,
    mode: Mode,
)
    requires
        table_wf(m),
        !spec_has_conflict(task, mode, holders_of(m, scope)),
    ensures
        table_wf(acquire_one(m, task, scope, mode)),
        forall|s2: Seq<char>, md2: Mode|
            #[trigger] spec_has_conflict(task, md2, holders_of(acquire_one(m, task, scope, mode), s2))
                ==> spec_has_conflict(task, md2, holders_of(m, s2)),
{
    let r = acquire_one(m, task, scope, mode);
    lemma_acquire_one_closed(m, task, scope, mode);
    if forall|i: int| 0 <= i < m.len() ==> #[trigger] m[i].0 != scope {
        // fresh scope: the table grows by one singleton entry
        assert(r =~= m.push((scope, seq![Holder { task, mode }])));
        assert forall|i: int| 0 <= i < r.len() implies holders_wf(#[trigger] r[i].1) by {
            if i < m.len() {
                assert(holders_wf(m[i].1));
            } else {
                assert(r[i].1 =~= seq![Holder { task, mode }]);
            }
        }
        assert forall|s2: Seq<char>, md2: Mode|
            #[trigger] spec_has_conflict(task, md2, holders_of(r, s2)) implies spec_has_conflict(
            task,
            md2,
            holders_of(m, s2),
        ) by {
            if exists|i: int| 0 <= i < m.len() && m[i].0 == s2 {
                let i = choose|i: int| 0 <= i < m.len() && m[i].0 == s2;
                lemma_holders_of_at(m, i);
                lemma_holders_of_at(r, i);
            } else {
                lemma_holders_of_absent(m, s2);
                if s2 == scope {
                    lemma_holders_of_at(r, m.len() as int);
                    assert(holders_of(r, s2) =~= seq![Holder { task, mode }]);
                } else {
                    lemma_holders_of_absent(r, s2);
                }
            }
        }
    } else {
        let i = choose|i: int| 0 <= i < m.len() && #[trigger] m[i].0 == scope;
        lemma_holders_of_at(m, i);
        let h = m[i].1;
        let up = upsert_holder(h, task, mode);
        assert(r =~= m.update(i, (scope, up)));
        lemma_upsert_closed(h, task, mode);
        // the updated holder list stays consistent, and its holders other
        // than `task` are holders of the old list
        assert(holders_wf(up) && (forall|k: int|
            0 <= k < up.len() && up[k].task != task ==> h.contains(up[k]))) by {
            if forall|k: int| 0 <= k < h.len() ==> #[trigger] h[k].task != task {
                assert(up =~= h.push(Holder { task, mode }));
                if h.len() > 0 && mode == Mode::Exclusive {
                    assert(spec_has_conflict(task, mode, h));
                }
                if h.len() > 0 {
                    assert(forall|k: int|
                        0 <= k < h.len() ==> !(h[k].task != task && #[trigger] h[k].mode
                            == Mode::Exclusive));
                }
            } else {
                let j = choose|j: int| 0 <= j < h.len() && #[trigger] h[j].task == task;
                if mode == Mode::Exclusive {
                    assert(up =~= h.update(j, Holder { task, mode: Mode::Exclusive }));
                    if h.len() > 1 {
                        let k = if j == 0 {
                            1
                        } else {
                            0
                        };
                        assert(h[k].task != task);
                        assert(spec_has_conflict(task, mode, h));
                    }
                } else {
                    assert(up =~= h);
                }
            }
        }
        assert forall|k: int| 0 <= k < r.len() implies holders_wf(#[trigger] r[k].1) by {
            if k != i {
                assert(holders_wf(m[k].1));
            }
        }
        assert forall|s2: Seq<char>, md2: Mode|
            #[trigger] spec_has_conflict(task, md2, holders_of(r, s2)) implies spec_has_conflict(
            task,
            md2,
            holders_of(m, s2),
        ) by {
            if exists|k: int| 0 <= k < m.len() && m[k].0 == s2 {
                let k = choose|k: int| 0 <= k < m.len() && m[k].0 == s2;
                lemma_holders_of_at(m, k);
                lemma_holders_of_at(r, k);
                if k == i {
                    let w = choose|w: int|
                        0 <= w < up.len() && up[w].task != task && (up[w].mode == Mode::Exclusive
                            || md2 == Mode::Exclusive);
                    assert(h.contains(up[w]));
                }
            } else {
                lemma_holders_of_absent(m, s2);
                lemma_holders_of_absent(r, s2);
            }
        }
    }
}

/// When no requested acquire is blocked, no requested acquire conflicts.
proof fn lemma_blocked_empty_no_conflict(
    m: Seq<(Seq<char>, Seq<Holder>)>,
    task: usize,
    locks: Seq<ParcheckLock>,
    k: int,
)
    requires
        spec_blocked(m, task, locks).len() == 0,
        0 <= k < locks.len(),
        !locks[k].spec_is_release(),
    ensures
        !spec_has_conflict(task, spec_acquire_mode(locks[k]), holders_of(m, locks[k].spec_scope())),
    decreases k,
{
    if k == 0 {
        assert(spec_blocked(m, task, locks).len() >= spec_blocked(
            m,
            task,
            locks.drop_first(),
        ).len());
    } else {
        lemma_blocked_empty_no_conflict(m, task, locks.drop_first(), k - 1);
    }
}

/// The position of `task` among the holders, if it holds.
fn position_of_task(holders: &Vec<Holder>, task: usize) -> (r: Option<usize>)
    ensures
        match r {
            Some(j) => 0 <= j < holders@.len() && holders@[j as int].task == task,
            None => forall|j: int| 0 <= j < holders@.len() ==> holders@[j].task != task,
        },
{
    let mut j: usize = 0;
    while j < holders.len()
        invariant
            0 <= j <= holders@.len(),
            forall|k: int| 0 <= k < j ==> holders@[k].task != task,
        decreases holders@.len() - j,
    {
        if holders[j].task == task {
            return Some(j);
        }
        j = j + 1;
    }
    None
}

impl LockedState {
    /// Apply the acquire entries of `locks` for `task_id`, in order: a fresh
    /// scope gains the task as its first holder, a scope already held by the
    /// task is upgraded to exclusive when the request is exclusive, and a
    /// scope held only by others gains the task as a further shared holder.
    /// Requires that no requested acquire is currently blocked.
    pub fn acquire_locks(&mut self, task_id: usize, locks: &Vec<ParcheckLock>)
        requires
            old(self).wf(),
            spec_blocked(old(self)@, task_id, locks@).len() == 0,
        ensures
            final(self)@ == apply_acquires(old(self)@, task_id, locks@),
            final(self).wf(),
    {
        let ghost m0 = self@;
        let mut k: usize = 0;
        proof {
            assert(locks@.skip(0) =~= locks@);
        }
        while k < locks.len()
            invariant
                0 <= k <= locks@.len(),
                self.wf(),
                spec_blocked(m0, task_id, locks@).len() == 0,
                apply_acquires(m0, task_id, locks@) == apply_acquires(
                    self@,
                    task_id,
                    locks@.skip(k as int),
                ),
                forall|s2: Seq<char>, md2: Mode|
                    #[trigger] spec_has_conflict(task_id, md2, holders_of(self@, s2))
                        ==> spec_has_conflict(task_id, md2, holders_of(m0, s2)),
            decreases locks@.len() - k,
        {
            let ghost cur = self@;
            let ghost rest = locks@.skip(k as int);
            proof {
                assert(rest[0] == locks@[k as int]);
                assert(rest.drop_first() =~= locks@.skip(k as int + 1));
            }
            let lock = &locks[k];
            match lock {
                ParcheckLock::Release { .. } => {},
                _ => {
                    let (scope, mode) = match lock {
                        ParcheckLock::AcquireShared { scope } => (scope, Mode::Shared),
                        ParcheckLock::AcquireExclusive { scope } => (scope, Mode::Exclusive),
                        ParcheckLock::Release { scope } => (scope, Mode::Shared),
                    };
                    proof {
                        lemma_blocked_empty_no_conflict(m0, task_id, locks@, k as int);
                        assert(!spec_has_conflict(task_id, mode, holders_of(cur, scope@)));
                        lemma_acquire_one_wf(cur, task_id, scope@, mode);
                        lemma_acquire_one_closed(cur, task_id, scope@, mode);
                    }
                    match self.find_scope(scope) {
                        None => {
                            let mut holders: Vec<Holder> = Vec::new();
                            holders.push(Holder { task: task_id, mode });
                            self.scopes.push(ScopeEntry { scope: scope.clone(), holders });
                            proof {
                                assert(self@ =~= cur.push((scope@, seq![Holder { task: task_id, mode }])));
                                assert(self@ =~= acquire_one(cur, task_id, scope@, mode));
                            }
                        },
                        Some(i) => {
                            let ghost h = cur[i as int].1;
                            proof {
                                lemma_upsert_closed(h, task_id, mode);
                            }
                            let mut entry = self.scopes.remove(i);
                            match position_of_task(&entry.holders, task_id) {
                                Some(j) => {
                                    if matches!(mode, Mode::Exclusive) {
                                        entry.holders[j] = Holder {
                                            task: task_id,
                                            mode: Mode::Exclusive,
                                        };
                                    }
                                },
                                None => {
                                    entry.holders.push(Holder { task: task_id, mode });
                                },
                            }
                            proof {
                                assert(entry.holders@ =~= upsert_holder(h, task_id, mode));
                            }
                            self.scopes.insert(i, entry);
                            proof {
                                assert(self@ =~= cur.update(
                                    i as int,
                                    (cur[i as int].0, upsert_holder(h, task_id, mode)),
                                ));
                                assert(self@ =~= acquire_one(cur, task_id, scope@, mode));
                            }
                        },
                    }
                },
            }
            k = k + 1;
        }
        proof {
            assert(locks@.skip(locks@.len() as int) =~= Seq::<ParcheckLock>::empty());
        }
    }
}

/// Filtering a consistent holder list down to the tasks other than `task`
/// keeps it consistent, keeps only entries that were already held, and leaves
/// no entry of `task` behind.
proof fn lemma_filter_holders_wf(h: Seq<Holder>, task: usize)
    requires
        holders_wf(h),
    ensures
        holders_wf(spec_remove_task(h, task)),
        forall|i: int|
            0 <= i < spec_remove_task(h, task).len() ==> h.contains(
                #[trigger] spec_remove_task(h, task)[i],
            ),
        forall|i: int|
            0 <= i < spec_remove_task(h, task).len() ==> #[trigger] spec_remove_task(
                h,
                task,
            )[i].task != task,
    decreases h.len(),
{
    reveal(Seq::filter);
    let pred = |x: Holder| x.task != task;
    if h.len() > 0 {
        let dl = h.drop_last();
        assert(holders_wf(dl));
        lemma_filter_holders_wf(dl, task);
        let f = h.filter(pred);
        let fd = dl.filter(pred);
        assert(spec_remove_task(h, task) == f);
        assert(spec_remove_task(dl, task) == fd);
        assert(forall|i: int| 0 <= i < dl.len() ==> dl[i] == h[i]);
        assert(forall|i: int, x: Holder| 0 <= i < fd.len() && fd[i] == x ==> h.contains(x)) by {
            assert(forall|i: int| 0 <= i < fd.len() ==> dl.contains(#[trigger] fd[i]));
            assert(forall|i: int| 0 <= i < dl.len() ==> h.contains(#[trigger] dl[i]));
        }
        if pred(h.last()) {
            assert(f == fd.push(h.last()));
            assert(holders_wf(f)) by {
                assert(forall|i: int, j: int| 0 <= i < j < f.len() ==> f[i].task != f[j].task) by {
                    assert(forall|i: int|
                        0 <= i < fd.len() ==> exists|k: int|
                            0 <= k < dl.len() && dl[k] == #[trigger] fd[i]);
                    assert(forall|k: int| 0 <= k < dl.len() ==> dl[k].task != h.last().task);
                }
                if f.len() > 1 {
                    assert(h.len() > 1);
                }
            }
        } else {
            assert(f == fd);
        }
    }
}

/// Closed forms of `release_one` when scope names are unique: no change for
/// an absent scope, filtering the named scope's holders otherwise.
proof fn lemma_release_one_closed(m: Seq<(Seq<char>, Seq<Holder>)>, task: usize, scope: Seq<char>)
    requires
        forall|i: int, j: int| 0 <= i < j < m.len() ==> m[i].0 != m[j].0,
    ensures
        (forall|i: int| 0 <= i < m.len() ==> m[i].0 != scope) ==> release_one(m, task, scope) =~= m,
        forall|i: int|
            0 <= i < m.len() && m[i].0 == scope ==> release_one(m, task, scope) =~= m.update(
                i,
                (m[i].0, spec_remove_task(m[i].1, task)),
            ),
    decreases m.len(),
{
    if m.len() > 0 {
        lemma_release_one_closed(m.drop_first(), task, scope);
        if m[0].0 == scope {
            assert(forall|i: int| 1 <= i < m.len() ==> m[i].0 != scope);
            assert(release_one(m, task, scope) =~= m.update(
                0,
                (m[0].0, spec_remove_task(m[0].1, task)),
            ));
        } else {
            let dl = m.drop_first();
            assert forall|i: int| 0 <= i < m.len() && m[i].0 == scope implies release_one(
                m,
                task,
                scope,
            ) =~= m.update(i, (m[i].0, spec_remove_task(m[i].1, task))) by {
                assert(i >= 1);
                assert(dl[i - 1].0 == scope);
            }
        }
    }
}

/// Filtering keeps a list in which the predicate holds everywhere.
proof fn lemma_filter_all(h: Seq<Holder>, task: usize)
    requires
        forall|i: int| 0 <= i < h.len() ==> h[i].task != task,
    ensures
        spec_remove_task(h, task) =~= h,
    decreases h.len(),
{
    reveal(Seq::filter);
    if h.len() > 0 {
        lemma_filter_all(h.drop_last(), task);
    }
}

/// Removing the one entry of `task` is the same as filtering it out.
proof fn lemma_remove_is_filter(h: Seq<Holder>, task: usize, j: int)
    requires
        forall|a: int, b: int| 0 <= a < b < h.len() ==> h[a].task != h[b].task,
        0 <= j < h.len(),
        h[j].task == task,
    ensures
        h.remove(j) =~= spec_remove_task(h, task),
    decreases h.len(),
{
    reveal(Seq::filter);
    let dl = h.drop_last();
    if j == h.len() - 1 {
        lemma_filter_all(dl, task);
        assert(h.remove(j) =~= dl);
    } else {
        assert(h.last().task != task);
        lemma_remove_is_filter(dl, task, j);
        assert(h.remove(j) =~= dl.remove(j).push(h.last()));
    }
}

impl LockedState {
    /// Apply the release entries of `locks` for `task_id`, in order: the
    /// task is removed from each named scope's holders; a release of a
    /// scope the task does not hold changes nothing.
    pub fn release_locks(&mut self, task_id: usize, locks: &Vec<ParcheckLock>)
        requires
            old(self).wf(),
        ensures
            final(self)@ == apply_releases(old(self)@, task_id, locks@),
            final(self).wf(),
    {
        let ghost m0 = self@;
        let mut k: usize = 0;
        proof {
            assert(locks@.skip(0) =~= locks@);
        }
        while k < locks.len()
            invariant
                0 <= k <= locks@.len(),
                self.wf(),
                apply_releases(m0, task_id, locks@) == apply_releases(
                    self@,
                    task_id,
                    locks@.skip(k as int),
                ),
            decreases locks@.len() - k,
        {
            let ghost cur = self@;
            let ghost rest = locks@.skip(k as int);
            proof {
                assert(rest[0] == locks@[k as int]);
                assert(rest.drop_first() =~= locks@.skip(k as int + 1));
            }
            let lock = &locks[k];
            match lock {
                ParcheckLock::Release { scope } => {
                    proof {
                        lemma_release_one_closed(cur, task_id, scope@);
                    }
                    match self.find_scope(scope) {
                        None => {
                            proof {
                                assert(release_one(cur, task_id, scope@) =~= cur);
                            }
                        },
                        Some(i) => {
                            let ghost h = cur[i as int].1;
                            let mut entry = self.scopes.remove(i);
                            match position_of_task(&entry.holders, task_id) {
                                Some(j) => {
                                    proof {
                                        lemma_remove_is_filter(h, task_id, j as int);
                                    }
                                    entry.holders.remove(j);
                                },
                                None => {
                                    proof {
                                        lemma_filter_all(h, task_id);
                                    }
                                },
                            }
                            proof {
                                assert(entry.holders@ =~= spec_remove_task(h, task_id));
                                lemma_filter_holders_wf(h, task_id);
                            }
                            self.scopes.insert(i, entry);
                            proof {
                                assert(self@ =~= cur.update(
                                    i as int,
                                    (cur[i as int].0, spec_remove_task(h, task_id)),
                                ));
                                assert(self@ =~= release_one(cur, task_id, scope@));
                            }
                        },
                    }
                },
                _ => {},
            }
            k = k + 1;
        }
        proof {
            assert(locks@.skip(locks@.len() as int) =~= Seq::<ParcheckLock>::empty());
        }
    }

    /// The scopes in which `task_id` currently appears as a holder.
    pub fn acquired_locks(&self, task_id: usize) -> (r: Vec<String>)
        ensures
            r@.map_values(|s: String| s@) == spec_held_scopes(self@, task_id),
    {
        let ghost m = self@;
        let mut r: Vec<String> = Vec::new();
        let mut k: usize = 0;
        proof {
            assert(m.skip(0) =~= m);
            assert(r@.map_values(|s: String| s@) =~= Seq::<Seq<char>>::empty());
        }
        while k < self.scopes.len()
            invariant
                0 <= k <= self.scopes@.len(),
                m == self@,
                m.len() == self.scopes@.len(),
                forall|j: int|
                    0 <= j < m.len() ==> m[j] == (self.scopes@[j].scope@,
                    self.scopes@[j].holders@),
                spec_held_scopes(m, task_id) == r@.map_values(|s: String| s@)
                    + spec_held_scopes(m.skip(k as int), task_id),
            decreases self.scopes@.len() - k,
        {
            let ghost rest = m.skip(k as int);
            proof {
                assert(rest[0] == m[k as int]);
                assert(rest.drop_first() =~= m.skip(k as int + 1));
            }
            match position_of_task(&self.scopes[k].holders, task_id) {
                Some(_) => {
                    let ghost rv_old = r@.map_values(|s: String| s@);
                    r.push(self.scopes[k].scope.clone());
                    proof {
                        assert(r@.map_values(|s: String| s@) =~= rv_old.push(m[k as int].0));
                        assert(rv_old + (seq![m[k as int].0] + spec_held_scopes(
                            rest.drop_first(),
                            task_id,
                        )) =~= r@.map_values(|s: String| s@) + spec_held_scopes(
                            rest.drop_first(),
                            task_id,
                        ));
                    }
                },
                None => {},
            }
            k = k + 1;
        }
        proof {
            assert(m.skip(m.len() as int) =~= Seq::<(Seq<char>, Seq<Holder>)>::empty());
            assert(r@.map_values(|s: String| s@) + Seq::<Seq<char>>::empty() =~= r@.map_values(
                |s: String| s@,
            ));
        }
        r
    }
}

/// In a consistent lock table no two holdings conflict: two holders of the
/// same scope always belong to different tasks, and whenever a scope has
/// more than one holder every holding of it is shared.
pub proof fn lemma_holdings_never_conflict(ls: &LockedState, i: int, a: int, b: int)
    requires
        ls.wf(),
        0 <= i < ls@.len(),
        0 <= a < ls@[i].1.len(),
        0 <= b < ls@[i].1.len(),
        a != b,
    ensures
        ls@[i].1[a].task != ls@[i].1[b].task,
        ls@[i].1[a].mode == Mode::Shared,
        ls@[i].1[b].mode == Mode::Shared,
{
    assert(holders_wf(ls@[i].1));
}

} // verus!
