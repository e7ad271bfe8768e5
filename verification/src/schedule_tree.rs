//! The schedule tree: which operation-order prefixes have been explored.
//!
//! The tree survives across the iterations of one run.  Its root layer has
//! one node per initial task; visiting a node either expands it into one
//! child per task of the current snapshot or marks it unreachable.  Open
//! prefixes are kept as full id lists in `unvisited_leafs`; a cursor walks
//! one of them per iteration, replaying the recorded prefix first and then
//! extending it by one freshly chosen runnable task at each expansion,
//! enqueueing the runnable siblings as new open prefixes.

use vstd::prelude::*;

use crate::controller::TaskEntry;
use crate::controller::TaskState;
use crate::rng::rng_below;

verus! {

/// Why a node can never be scheduled.
#[derive(Clone, Copy, PartialEq, Eq, Structural, Debug)]
pub enum UnreachableReason {
    BlockedByLocks,
    TaskFinished,
}

/// The exploration state of one node of the tree.
#[derive(Clone, Copy)]
pub enum NodeState {
    /// Not yet expanded; a pending choice point.
    Unvisited,
    /// Expanded: the node's children are the nodes at `start..end`.
    Visited { start: usize, end: usize },
    /// No schedule passes through here.
    Unreachable { reason: UnreachableReason },
}

/// One node: the task it schedules and its exploration state.
pub struct Node {
    pub task_name: String,
    pub state: NodeState,
}

/// One open prefix: task ids from the root down.
pub struct TreePath {
    pub steps: Vec<usize>,
}

/// The arena-backed schedule tree.
pub struct ScheduleTree {
    nodes: Vec<Node>,
    roots: usize,
    unvisited_leafs: Vec<TreePath>,
}

/// A cursor along one open prefix; indices into the tree it walks.
pub struct PathCursor {
    at: Option<usize>,
    path: usize,
    depth: usize,
    finished: bool,
}

/// A node state is consistent with an arena of `len` nodes and a fixed
/// fan-out of `roots` children.
pub open spec fn node_ok(ns: NodeState, roots: nat, len: nat) -> bool {
    match ns {
        NodeState::Visited { start, end } => start + roots == end && end <= len,
        _ => true,
    }
}

/// A recorded prefix is non-empty and names only valid task ids.
pub open spec fn path_ok(p: Seq<usize>, roots: nat) -> bool {
    p.len() >= 1 && forall|q: int| 0 <= q < p.len() ==> p[q] < roots
}

/// How a quiescent task state classifies as a tree node: a waiting,
/// unblocked task is a pending choice point; a lock-blocked task and a
/// finished task can never be scheduled here, each under its reason.
pub open spec fn spec_classify(s: TaskState) -> NodeState {
    match s {
        TaskState::WaitingToStartOperation { blocked_locks, .. } => if blocked_locks@.len() == 0 {
            NodeState::Unvisited
        } else {
            NodeState::Unreachable { reason: UnreachableReason::BlockedByLocks }
        },
        TaskState::Finished => NodeState::Unreachable { reason: UnreachableReason::TaskFinished },
        _ => NodeState::Unreachable { reason: UnreachableReason::TaskFinished },
    }
}

/// One classified child per task of the snapshot, in task order.
pub open spec fn spec_classified_children(tasks: Seq<TaskEntry>) -> Seq<NodeState> {
    tasks.map_values(|t: TaskEntry| spec_classify(t.state))
}

/// The open prefixes that an expansion creates for the runnable tasks
/// with id below `k`, the chosen one excepted: the walked prefix extended
/// by each such id, in increasing id order.
pub open spec fn spec_sibling_prefixes_below(
    prefix: Seq<usize>,
    tasks: Seq<TaskEntry>,
    chosen: usize,
    k: int,
) -> Seq<Seq<usize>>
    decreases k,
{
    if k <= 0 {
        Seq::empty()
    } else {
        let rest = spec_sibling_prefixes_below(prefix, tasks, chosen, k - 1);
        if 0 <= k - 1 < tasks.len() && tasks[k - 1].state.spec_can_execute() && k - 1 != chosen as int {
            rest.push(prefix.push((k - 1) as usize))
        } else {
            rest
        }
    }
}

/// All the open prefixes an expansion creates beside the chosen one: no
/// runnable alternative at the choice point is lost.
pub open spec fn spec_sibling_prefixes(
    prefix: Seq<usize>,
    tasks: Seq<TaskEntry>,
    chosen: usize,
) -> Seq<Seq<usize>> {
    spec_sibling_prefixes_below(prefix, tasks, chosen, tasks.len() as int)
}

/// The open-prefix list with the entry at `p` removed, the last entry
/// swapped into its place.
pub open spec fn spec_leafs_removed(l: Seq<Seq<usize>>, p: int) -> Seq<Seq<usize>> {
    l.update(p, l.last()).drop_last()
}

/// A stretch of ids with no runnable task contributes no sibling prefix.
proof fn lemma_sibling_prefixes_gap(
    prefix: Seq<usize>,
    tasks: Seq<TaskEntry>,
    chosen: usize,
    a: int,
    b: int,
)
    requires
        0 <= a <= b,
        forall|j: int|
            a <= j < b ==> !(0 <= j < tasks.len() && (#[trigger] tasks[j].state).spec_can_execute()),
    ensures
        spec_sibling_prefixes_below(prefix, tasks, chosen, b) == spec_sibling_prefixes_below(
            prefix,
            tasks,
            chosen,
            a,
        ),
    decreases b - a,
{
    if a < b {
        lemma_sibling_prefixes_gap(prefix, tasks, chosen, a, b - 1);
    }
}

impl ScheduleTree {
    /// The exploration states of the arena's nodes.
    pub closed spec fn spec_nodes(&self) -> Seq<NodeState> {
        self.nodes@.map_values(|n: Node| n.state)
    }

    /// How many initial tasks the tree was built over.
    pub closed spec fn spec_roots(&self) -> nat {
        self.roots as nat
    }

    /// The open prefixes.
    pub closed spec fn spec_leafs(&self) -> Seq<Seq<usize>> {
        self.unvisited_leafs@.map_values(|p: TreePath| p.steps@)
    }

    /// The arena holds the root layer, every expanded node's children lie
    /// within the arena with the fixed fan-out, and every open prefix is
    /// non-empty and names valid task ids.
    pub open spec fn wf(&self) -> bool {
        self.spec_roots() <= self.spec_nodes().len() && (forall|i: int|
            0 <= i < self.spec_nodes().len() ==> node_ok(
                #[trigger] self.spec_nodes()[i],
                self.spec_roots(),
                self.spec_nodes().len(),
            )) && (forall|p: int|
            0 <= p < self.spec_leafs().len() ==> path_ok(
                #[trigger] self.spec_leafs()[p],
                self.spec_roots(),
            ))
    }

    /// A fresh tree: one unvisited root per initial task, and one open
    /// prefix of length one per root.
    pub fn new(roots: &Vec<String>) -> (r: ScheduleTree)
        ensures
            r.wf(),
            r.spec_roots() == roots@.len(),
            r.spec_nodes().len() == roots@.len(),
            forall|i: int| 0 <= i < roots@.len() ==> r.spec_nodes()[i] is Unvisited,
            r.spec_leafs().len() == roots@.len(),
            forall|p: int| 0 <= p < roots@.len() ==> r.spec_leafs()[p] =~= seq![p as usize],
    {
        let n = roots.len();
        let mut nodes: Vec<Node> = Vec::new();
        let mut leafs: Vec<TreePath> = Vec::new();
        let mut i: usize = 0;
        while i < n
            invariant
                0 <= i <= n,
                n == roots@.len(),
                nodes@.len() == i,
                leafs@.len() == i,
                forall|j: int| 0 <= j < i ==> (#[trigger] nodes@[j]).state is Unvisited,
                forall|j: int| 0 <= j < i ==> (#[trigger] leafs@[j]).steps@ =~= seq![j as usize],
            decreases n - i,
        {
            nodes.push(Node { task_name: roots[i].clone(), state: NodeState::Unvisited });
            let mut steps: Vec<usize> = Vec::new();
            steps.push(i);
            proof {
                assert(steps@ =~= seq![i as usize]);
            }
            leafs.push(TreePath { steps });
            i = i + 1;
        }
        ScheduleTree { nodes, roots: n, unvisited_leafs: leafs }
    }

    /// Whether any prefix is still open.
    pub fn has_unfinished_paths(&self) -> (r: bool)
        ensures
            r == (self.spec_leafs().len() != 0),
    {
        self.unvisited_leafs.len() != 0
    }

    /// Append nodes to the arena; the returned bounds are the range they
    /// now occupy.
    fn add_nodes(&mut self, nodes: Vec<Node>) -> (r: (usize, usize))
        requires
            old(self).spec_nodes().len() + nodes@.len() <= usize::MAX,
        ensures
            final(self).spec_nodes() == old(self).spec_nodes() + nodes@.map_values(
                |n: Node| n.state,
            ),
            final(self).spec_roots() == old(self).spec_roots(),
            final(self).spec_leafs() == old(self).spec_leafs(),
            r.0 == old(self).spec_nodes().len(),
            r.1 == final(self).spec_nodes().len(),
    {
        let start = self.nodes.len();
        let mut nodes = nodes;
        let ghost incoming = nodes@;
        let mut k: usize = 0;
        proof {
            assert(incoming.take(0) =~= Seq::<Node>::empty());
            assert(self.nodes@ + incoming.take(0) =~= self.nodes@);
        }
        while k < nodes.len()
            invariant
                0 <= k <= incoming.len(),
                nodes@ == incoming,
                self.nodes@ == old(self).nodes@ + incoming.take(k as int),
                self.roots == old(self).roots,
                self.unvisited_leafs == old(self).unvisited_leafs,
            decreases incoming.len() - k,
        {
            let n = &nodes[k];
            self.nodes.push(Node { task_name: n.task_name.clone(), state: n.state });
            proof {
                assert(incoming.take(k as int + 1) =~= incoming.take(k as int).push(
                    incoming[k as int],
                ));
                assert(incoming[k as int].state == nodes@[k as int].state);
                assert(self.nodes@ =~= old(self).nodes@ + incoming.take(k as int + 1));
            }
            k = k + 1;
        }
        let end = self.nodes.len();
        proof {
            assert(incoming.take(incoming.len() as int) =~= incoming);
            assert(self.spec_nodes() =~= old(self).spec_nodes() + incoming.map_values(
                |n: Node| n.state,
            ));
        }
        (start, end)
    }

    /// Choose one open prefix at random and return a cursor at its start.
    pub fn pick_unfinished_path(&self, rng: &mut fastrand::Rng) -> (r: Option<PathCursor>)
        ensures
            r is Some <==> self.spec_leafs().len() != 0,
            r matches Some(c) ==> !c.spec_finished() && c.spec_path() < self.spec_leafs().len()
                && c.spec_depth() == 0 && c.spec_at() is None,
    {
        if self.unvisited_leafs.len() == 0 {
            return None;
        }
        let path = rng_below(rng, self.unvisited_leafs.len());
        Some(PathCursor { at: None, path, depth: 0, finished: false })
    }
}

/// How a quiescent task state classifies as a tree node: a waiting,
/// unblocked task is a pending choice point; a blocked or finished task
/// can never be scheduled here.
pub fn task_state_to_node_state(state: &TaskState) -> (r: NodeState)
    requires
        state.spec_waiting_or_finished(),
    ensures
        r == spec_classify(*state),
        r is Unvisited <==> state.spec_can_execute(),
        r is Visited == false,
{
    match state {
        TaskState::WaitingToStartOperation { blocked_locks, .. } => {
            if blocked_locks.len() == 0 {
                NodeState::Unvisited
            } else {
                NodeState::Unreachable { reason: UnreachableReason::BlockedByLocks }
            }
        },
        TaskState::Finished => NodeState::Unreachable { reason: UnreachableReason::TaskFinished },
        _ => {
            // unreachable: the precondition admits quiescent states only
            proof {
                assert(false);
            }
            NodeState::Unreachable { reason: UnreachableReason::TaskFinished }
        },
    }
}

/// One classified node per task of the snapshot.
fn tasks_to_nodes(tasks: &Vec<TaskEntry>) -> (r: Vec<Node>)
    requires
        forall|i: int| 0 <= i < tasks@.len() ==> (#[trigger] tasks@[i].state).spec_waiting_or_finished(),
    ensures
        r@.len() == tasks@.len(),
        r@.map_values(|n: Node| n.state) == spec_classified_children(tasks@),
        forall|i: int| 0 <= i < r@.len() ==> !((#[trigger] r@[i].state) is Visited),
{
    let mut r: Vec<Node> = Vec::new();
    let mut i: usize = 0;
    while i < tasks.len()
        invariant
            0 <= i <= tasks@.len(),
            forall|j: int|
                0 <= j < tasks@.len() ==> (#[trigger] tasks@[j].state).spec_waiting_or_finished(),
            r@.len() == i,
            forall|j: int| 0 <= j < i ==> (#[trigger] r@[j].state) == spec_classify(tasks@[j].state),
            forall|j: int| 0 <= j < i ==> !((#[trigger] r@[j].state) is Visited),
        decreases tasks@.len() - i,
    {
        let state = task_state_to_node_state(&tasks[i].state);
        r.push(Node { task_name: tasks[i].name.clone(), state });
        i = i + 1;
    }
    proof {
        assert(r@.map_values(|n: Node| n.state) =~= spec_classified_children(tasks@));
    }
    r
}

/// Copy a list of task ids.
fn copy_ids(v: &Vec<usize>) -> (r: Vec<usize>)
    ensures
        r@ == v@,
{
    let mut r: Vec<usize> = Vec::new();
    let mut i: usize = 0;
    proof {
        assert(r@ =~= v@.take(0));
    }
    while i < v.len()
        invariant
            0 <= i <= v@.len(),
            r@ == v@.take(i as int),
        decreases v@.len() - i,
    {
        let x = v[i];
        r.push(x);
        proof {
            assert(v@.take(i as int + 1) =~= v@.take(i as int).push(v@[i as int]));
        }
        i = i + 1;
    }
    proof {
        assert(v@.take(v@.len() as int) =~= v@);
    }
    r
}

impl PathCursor {
    /// The node the cursor stands on, if it has stepped off the root.
    pub closed spec fn spec_at(&self) -> Option<usize> {
        self.at
    }

    /// The open prefix the cursor walks.
    pub closed spec fn spec_path(&self) -> nat {
        self.path as nat
    }

    /// How many steps of the prefix have been consumed.
    pub closed spec fn spec_depth(&self) -> nat {
        self.depth as nat
    }

    /// Whether the walk has ended.
    pub closed spec fn spec_finished(&self) -> bool {
        self.finished
    }

    /// The cursor fits the tree it walks.
    pub open spec fn cursor_wf(&self, t: &ScheduleTree) -> bool {
        !self.spec_finished() ==> (self.spec_path() < t.spec_leafs().len() && self.spec_depth()
            <= t.spec_leafs()[self.spec_path() as int].len() && (self.spec_at() matches Some(n)
            ==> n < t.spec_nodes().len()))
    }

    /// End the walk: the walked prefix leaves the open list (the last
    /// entry swaps into its place) and the cursor finishes.
    fn close_path(&mut self, tree: &mut ScheduleTree)
        requires
            old(tree).wf(),
            !old(self).spec_finished(),
            old(self).cursor_wf(old(tree)),
        ensures
            final(tree).wf(),
            final(self).spec_finished(),
            final(self).cursor_wf(final(tree)),
            final(tree).spec_nodes() == old(tree).spec_nodes(),
            final(tree).spec_roots() == old(tree).spec_roots(),
            final(tree).spec_leafs() == spec_leafs_removed(
                old(tree).spec_leafs(),
                old(self).spec_path() as int,
            ),
    {
        let ghost lf0 = tree.spec_leafs();
        let ghost roots = tree.spec_roots();
        tree.unvisited_leafs.swap_remove(self.path);
        self.finished = true;
        proof {
            assert(tree.spec_leafs() =~= spec_leafs_removed(lf0, self.path as int));
            assert forall|p: int|
                0 <= p < tree.spec_leafs().len() implies path_ok(
                #[trigger] tree.spec_leafs()[p],
                roots,
            ) by {
                assert(tree.spec_leafs()[p] == lf0[p] || tree.spec_leafs()[p] == lf0[lf0.len()
                    - 1]);
            }
        }
    }

    /// Visit the tree at one quiescent snapshot and pick the next task to
    /// step.  A prefix recorded by an earlier iteration is replayed step
    /// by step.  At the frontier the current node is expanded: it becomes
    /// `Visited` over one classified child per task of the snapshot, one
    /// runnable task is chosen at random to extend this prefix, and every
    /// other runnable task's extended prefix joins the open list, so no
    /// runnable alternative at the choice point is lost.  `None` ends the
    /// iteration; the walked prefix then leaves the open list.
    pub fn visit_and_pick(
        &mut self,
        tree: &mut ScheduleTree,
        tasks: &Vec<TaskEntry>,
        rng: &mut fastrand::Rng,
    ) -> (r: Option<usize>)
        requires
            old(tree).wf(),
            old(self).cursor_wf(old(tree)),
            tasks@.len() == old(tree).spec_roots(),
            forall|i: int|
                0 <= i < tasks@.len() ==> (#[trigger] tasks@[i].state).spec_waiting_or_finished(),
        ensures
            final(tree).wf(),
            final(self).cursor_wf(final(tree)),
            final(tree).spec_roots() == old(tree).spec_roots(),
            // a finished cursor does nothing
            old(self).spec_finished() ==> r is None && *final(tree) == *old(tree) && *final(self)
                == *old(self),
            // ending the walk closes the walked prefix
            !old(self).spec_finished() && r is None ==> final(self).spec_finished() && final(tree).spec_leafs() == spec_leafs_removed(
                old(tree).spec_leafs(),
                old(self).spec_path() as int,
            ),
            r matches Some(id) ==> id < tasks@.len(),
            r matches Some(id) ==> ((!old(self).spec_finished() && old(self).spec_depth() < old(tree).spec_leafs()[old(self).spec_path() as int].len()) ==> id == old(tree).spec_leafs()[old(self).spec_path() as int][old(self).spec_depth() as int]),
            r matches Some(id) ==> ((!old(self).spec_finished() && old(self).spec_depth() == old(tree).spec_leafs()[old(self).spec_path() as int].len()) ==> tasks@[id as int].state.spec_can_execute()),
            // replaying through an expanded node touches nothing
            old(self).spec_at() matches Some(n) && !old(self).spec_finished() && old(tree).spec_nodes()[n as int] is Visited && old(self).spec_depth() < old(tree).spec_leafs()[old(self).spec_path() as int].len() ==> r is Some && *final(tree) == *old(tree),
            // expanding the frontier node: it becomes Visited over one
            // classified child per task, the walked prefix extends by the
            // returned pick, and every other runnable task's extended
            // prefix joins the open list
            old(self).spec_at() matches Some(n) && !old(self).spec_finished() && old(tree).spec_nodes()[n as int] is Unvisited && old(self).spec_depth() == old(tree).spec_leafs()[old(self).spec_path() as int].len() && old(tree).spec_nodes().len() + tasks@.len() <= usize::MAX
                && (exists|i: int|
                0 <= i < tasks@.len() && (#[trigger] tasks@[i].state).spec_can_execute()) ==> (
            r matches Some(id) && final(tree).spec_nodes() == old(tree).spec_nodes().update(
                old(self).spec_at()->Some_0 as int,
                NodeState::Visited {
                    start: old(tree).spec_nodes().len() as usize,
                    end: (old(tree).spec_nodes().len() + tasks@.len()) as usize,
                },
            ) + spec_classified_children(tasks@) && final(tree).spec_leafs() == old(tree).spec_leafs().update(
                old(self).spec_path() as int,
                old(tree).spec_leafs()[old(self).spec_path() as int].push(id),
            ) + spec_sibling_prefixes(
                old(tree).spec_leafs()[old(self).spec_path() as int],
                tasks@,
                id,
            )),
            // the first visit classifies exactly the still-pending roots
            !old(self).spec_finished() && old(self).spec_at() is None ==> (final(tree).spec_nodes().len() == old(tree).spec_nodes().len() && (forall|j: int|
                0 <= j < old(tree).spec_nodes().len() ==> (#[trigger] final(tree).spec_nodes()[j])
                    == (if j < old(tree).spec_roots() && old(tree).spec_nodes()[j] is Unvisited {
                    spec_classify(tasks@[j].state)
                } else {
                    old(tree).spec_nodes()[j]
                }))),
            (!old(self).spec_finished() && old(self).spec_at() is None && old(self).spec_depth()
                == 0 && (old(tree).spec_nodes()[old(tree).spec_leafs()[old(self).spec_path() as int][0] as int] is Visited || (old(tree).spec_nodes()[old(tree).spec_leafs()[old(self).spec_path() as int][0] as int] is Unvisited
                && tasks@[old(tree).spec_leafs()[old(self).spec_path() as int][0] as int].state.spec_can_execute())))
                ==> r is Some,
    {
        if self.finished {
            return None;
        }
        let ghost roots = tree.spec_roots();
        match self.at {
            Some(node_id) => {
                let node_state = tree.nodes[node_id].state;
                proof {
                    assert(node_state == tree.spec_nodes()[node_id as int]);
                }
                match node_state {
                    NodeState::Visited { .. } => {},
                    NodeState::Unreachable { .. } => {
                        // a replayed prefix cannot stand on an unreachable
                        // node; end the walk
                        self.close_path(tree);
                        return None;
                    },
                    NodeState::Unvisited => {
                        if self.depth != tree.unvisited_leafs[self.path].steps.len() {
                            // the cursor and its prefix disagree; end the
                            // walk
                            self.close_path(tree);
                            return None;
                        }
                        // expand: one classified child per task
                        let children = tasks_to_nodes(tasks);
                        if usize::MAX - tree.nodes.len() < children.len() {
                            // the arena cannot grow further; end the walk
                            self.close_path(tree);
                            return None;
                        }
                        let ghost nodes0 = tree.spec_nodes();
                        let (start, end) = tree.add_nodes(children);
                        let ghost nodes1 = tree.spec_nodes();
                        tree.nodes[node_id].state = NodeState::Visited { start, end };
                        let ghost nodes2 = tree.spec_nodes();
                        proof {
                            assert(nodes2 =~= nodes1.update(
                                node_id as int,
                                NodeState::Visited { start, end },
                            ));
                            assert(nodes2 =~= nodes0.update(
                                node_id as int,
                                NodeState::Visited { start, end },
                            ) + spec_classified_children(tasks@));
                            assert forall|i: int|
                                0 <= i < nodes2.len() implies node_ok(
                                #[trigger] nodes2[i],
                                roots,
                                nodes2.len(),
                            ) by {
                                if i != node_id {
                                    if i < nodes0.len() {
                                        assert(nodes1[i] == nodes0[i]);
                                        assert(node_ok(nodes0[i], roots, nodes0.len()));
                                    } else {
                                        assert(!(nodes1[i] is Visited));
                                    }
                                }
                            }
                        }
                        // choose one runnable task, open prefixes for the
                        // other runnable ones
                        let runnable = crate::controller::runnable_ids(tasks);
                        proof {
                            if exists|i: int|
                                0 <= i < tasks@.len() && (
                                #[trigger] tasks@[i].state).spec_can_execute() {
                                let i = choose|i: int|
                                    0 <= i < tasks@.len() && (
                                    #[trigger] tasks@[i].state).spec_can_execute();
                                assert(runnable@.contains(i as usize));
                                assert(runnable@.len() > 0);
                            }
                        }
                        if runnable.len() == 0 {
                            proof {
                                assert(tree.wf());
                            }
                            self.close_path(tree);
                            return None;
                        }
                        let pick = rng_below(rng, runnable.len());
                        let next_id = runnable[pick];
                        let ghost leafs0 = tree.spec_leafs();
                        let ghost prefix0 = leafs0[self.path as int];
                        let mut c: usize = 0;
                        while c < runnable.len()
                            invariant
                                0 <= c <= runnable@.len(),
                                runnable@.len() >= 1,
                                forall|k: int| 0 <= k < runnable@.len() ==> #[trigger] runnable@[k] < tasks@.len(),
                                forall|k: int|
                                    0 <= k < runnable@.len() ==> (#[trigger] tasks@[runnable@[k] as int].state).spec_can_execute(),
                                forall|i: int|
                                    0 <= i < tasks@.len() && (#[trigger] tasks@[i].state).spec_can_execute()
                                        ==> runnable@.contains(i as usize),
                                forall|k: int, l: int| 0 <= k < l < runnable@.len() ==> runnable@[k] < runnable@[l],
                                tasks@.len() == roots,
                                tree.spec_roots() == roots,
                                self.path < leafs0.len(),
                                prefix0 == leafs0[self.path as int],
                                tree.spec_nodes() == nodes2,
                                roots <= nodes2.len(),
                                forall|i: int|
                                    0 <= i < nodes2.len() ==> node_ok(
                                        #[trigger] nodes2[i],
                                        roots,
                                        nodes2.len(),
                                    ),
                                forall|p: int|
                                    0 <= p < tree.spec_leafs().len() ==> path_ok(
                                        #[trigger] tree.spec_leafs()[p],
                                        roots,
                                    ),
                                c == 0 ==> tree.spec_leafs() == leafs0,
                                c > 0 ==> tree.spec_leafs() == leafs0 + spec_sibling_prefixes_below(
                                    prefix0,
                                    tasks@,
                                    next_id,
                                    runnable@[c - 1] as int + 1,
                                ),
                            decreases runnable@.len() - c,
                        {
                            let cid = runnable[c];
                            let ghost bound_prev: int = if c == 0 {
                                0int
                            } else {
                                runnable@[c as int - 1] as int + 1
                            };
                            proof {
                                // no runnable id lies strictly between the
                                // previous candidate and this one
                                assert forall|j: int|
                                    bound_prev <= j < cid as int implies !(0 <= j < tasks@.len()
                                    && (#[trigger] tasks@[j].state).spec_can_execute()) by {
                                    if 0 <= j < tasks@.len()
                                        && tasks@[j].state.spec_can_execute() {
                                        assert(runnable@.contains(j as usize));
                                        let k = choose|k: int|
                                            0 <= k < runnable@.len() && runnable@[k] == j as usize;
                                        if k < c {
                                            if c > 0 && k < c - 1 {
                                                assert(runnable@[k] < runnable@[c - 1]);
                                            }
                                        } else if k > c {
                                            assert(runnable@[c as int] < runnable@[k]);
                                        }
                                    }
                                }
                                lemma_sibling_prefixes_gap(
                                    prefix0,
                                    tasks@,
                                    next_id,
                                    bound_prev,
                                    cid as int,
                                );
                                assert(tree.spec_leafs() == leafs0 + spec_sibling_prefixes_below(
                                    prefix0,
                                    tasks@,
                                    next_id,
                                    cid as int,
                                )) by {
                                    if c == 0 {
                                        assert(spec_sibling_prefixes_below(
                                            prefix0,
                                            tasks@,
                                            next_id,
                                            0,
                                        ) =~= Seq::<Seq<usize>>::empty());
                                        assert(leafs0 + Seq::<Seq<usize>>::empty() =~= leafs0);
                                    }
                                }
                            }
                            proof {
                                assert(tree.spec_leafs()[self.path as int] == prefix0) by {
                                    if c > 0 {
                                        assert(tree.spec_leafs()[self.path as int]
                                            == leafs0[self.path as int]);
                                    }
                                }
                                assert(path_ok(tree.spec_leafs()[self.path as int], roots));
                                assert(path_ok(prefix0, roots));
                                assert(tree.spec_leafs()[self.path as int]
                                    == tree.unvisited_leafs@[self.path as int].steps@);
                            }
                            if cid != next_id {
                                let ghost prev = tree.spec_leafs();
                                let mut steps = copy_ids(&tree.unvisited_leafs[self.path].steps);
                                steps.push(cid);
                                let ghost new_path = steps@;
                                tree.unvisited_leafs.push(TreePath { steps });
                                proof {
                                    assert(tree.spec_leafs() =~= prev.push(new_path));
                                    assert(new_path =~= prefix0.push(cid));
                                    assert(tasks@[cid as int].state.spec_can_execute());
                                    assert(spec_sibling_prefixes_below(
                                        prefix0,
                                        tasks@,
                                        next_id,
                                        cid as int + 1,
                                    ) =~= spec_sibling_prefixes_below(
                                        prefix0,
                                        tasks@,
                                        next_id,
                                        cid as int,
                                    ).push(prefix0.push(cid)));
                                    assert(tree.spec_leafs() =~= leafs0 + spec_sibling_prefixes_below(
                                        prefix0,
                                        tasks@,
                                        next_id,
                                        cid as int + 1,
                                    ));
                                    assert(path_ok(new_path, roots)) by {
                                        assert(path_ok(prefix0, roots));
                                    }
                                    assert forall|p: int|
                                        0 <= p < tree.spec_leafs().len() implies path_ok(
                                        #[trigger] tree.spec_leafs()[p],
                                        roots,
                                    ) by {
                                        if p < prev.len() {
                                            assert(tree.spec_leafs()[p] == prev[p]);
                                        } else {
                                            assert(tree.spec_leafs()[p] == new_path);
                                        }
                                    }
                                }
                            } else {
                                proof {
                                    assert(spec_sibling_prefixes_below(
                                        prefix0,
                                        tasks@,
                                        next_id,
                                        cid as int + 1,
                                    ) == spec_sibling_prefixes_below(
                                        prefix0,
                                        tasks@,
                                        next_id,
                                        cid as int,
                                    ));
                                }
                            }
                            c = c + 1;
                        }
                        proof {
                            // beyond the last candidate no runnable id is
                            // left, so every sibling has been enqueued
                            let last = runnable@[runnable@.len() - 1] as int;
                            assert forall|j: int|
                                last + 1 <= j < tasks@.len() as int implies !(0 <= j
                                < tasks@.len() && (
                                #[trigger] tasks@[j].state).spec_can_execute()) by {
                                if 0 <= j < tasks@.len() && tasks@[j].state.spec_can_execute() {
                                    assert(runnable@.contains(j as usize));
                                    let k = choose|k: int|
                                        0 <= k < runnable@.len() && runnable@[k] == j as usize;
                                    if k < runnable@.len() - 1 {
                                        assert(runnable@[k] < runnable@[runnable@.len() - 1]);
                                    }
                                }
                            }
                            lemma_sibling_prefixes_gap(
                                prefix0,
                                tasks@,
                                next_id,
                                last + 1,
                                tasks@.len() as int,
                            );
                            assert(tree.spec_leafs() == leafs0 + spec_sibling_prefixes(
                                prefix0,
                                tasks@,
                                next_id,
                            ));
                        }
                        // extend this prefix with the chosen task
                        let ghost cur = tree.spec_leafs();
                        let mut entry = tree.unvisited_leafs.remove(self.path);
                        entry.steps.push(next_id);
                        let ghost extended = entry.steps@;
                        tree.unvisited_leafs.insert(self.path, entry);
                        proof {
                            assert(tree.spec_leafs() =~= cur.update(self.path as int, extended));
                            assert(cur[self.path as int] == prefix0);
                            assert(extended =~= prefix0.push(next_id));
                            assert(tree.spec_leafs() =~= leafs0.update(
                                self.path as int,
                                prefix0.push(next_id),
                            ) + spec_sibling_prefixes(prefix0, tasks@, next_id));
                            assert(path_ok(extended, roots)) by {
                                assert(path_ok(prefix0, roots));
                                assert(next_id < tasks@.len());
                            }
                            assert(tree.spec_leafs()[self.path as int] == extended);
                            assert forall|p: int|
                                0 <= p < tree.spec_leafs().len() implies path_ok(
                                #[trigger] tree.spec_leafs()[p],
                                roots,
                            ) by {
                                if p != self.path {
                                    assert(tree.spec_leafs()[p] == cur[p]);
                                }
                            }
                            assert(tasks@[next_id as int].state.spec_can_execute());
                        }
                    },
                }
            },
            None => {
                // first visit: classify the roots that are still pending
                let n = tree.roots;
                let mut i: usize = 0;
                while i < n
                    invariant
                        0 <= i <= n,
                        n == roots,
                        tasks@.len() == roots,
                        forall|j: int|
                            0 <= j < tasks@.len() ==> (
                            #[trigger] tasks@[j].state).spec_waiting_or_finished(),
                        tree.wf(),
                        tree.spec_roots() == roots,
                        tree.spec_nodes().len() == old(tree).spec_nodes().len(),
                        tree.spec_leafs() == old(tree).spec_leafs(),
                        forall|j: int|
                            0 <= j < i ==> (#[trigger] tree.spec_nodes()[j]) == (if old(tree).spec_nodes()[j] is Unvisited {
                                spec_classify(tasks@[j].state)
                            } else {
                                old(tree).spec_nodes()[j]
                            }),
                        forall|j: int|
                            i <= j < tree.spec_nodes().len() ==> (#[trigger] tree.spec_nodes()[j])
                                == old(tree).spec_nodes()[j],
                    decreases n - i,
                {
                    let is_unvisited = matches!(tree.nodes[i].state, NodeState::Unvisited);
                    if is_unvisited {
                        let ghost nodes_before = tree.spec_nodes();
                        let ns = task_state_to_node_state(&tasks[i].state);
                        tree.nodes[i].state = ns;
                        proof {
                            assert(tree.spec_nodes() =~= nodes_before.update(i as int, ns));
                            assert forall|j: int|
                                0 <= j < tree.spec_nodes().len() implies node_ok(
                                #[trigger] tree.spec_nodes()[j],
                                roots,
                                tree.spec_nodes().len(),
                            ) by {
                                if j != i {
                                    assert(tree.spec_nodes()[j] == nodes_before[j]);
                                }
                            }
                            assert(nodes_before[i as int] == old(tree).spec_nodes()[i as int]);
                            assert(old(tree).spec_nodes()[i as int] is Unvisited);
                        }
                    }
                    i = i + 1;
                }
                let root_idx = tree.unvisited_leafs[self.path].steps[0];
                proof {
                    assert(tree.spec_leafs()[self.path as int]
                        == tree.unvisited_leafs@[self.path as int].steps@);
                    assert(root_idx == old(tree).spec_leafs()[self.path as int][0]);
                    assert(path_ok(tree.spec_leafs()[self.path as int], roots));
                    assert(root_idx < roots);
                    assert(tree.spec_nodes()[root_idx as int]
                        == tree.nodes@[root_idx as int].state);
                }
                let discard = matches!(tree.nodes[root_idx].state, NodeState::Unreachable { .. });
                if discard {
                    self.close_path(tree);
                    return None;
                }
            },
        }
        // step along the (possibly just extended) prefix
        proof {
            assert(tree.wf());
            assert(tree.spec_leafs()[self.path as int] == tree.unvisited_leafs@[self.path as int].steps@);
        }
        let plen = tree.unvisited_leafs[self.path].steps.len();
        if self.depth < plen {
            let task_id = tree.unvisited_leafs[self.path].steps[self.depth];
            proof {
                assert(path_ok(tree.spec_leafs()[self.path as int], tree.spec_roots()));
                assert(task_id == tree.spec_leafs()[self.path as int][self.depth as int]);
                assert(task_id < tree.spec_roots());
            }
            self.depth = self.depth + 1;
            match self.at {
                Some(node_id) => {
                    proof {
                        assert(tree.spec_nodes()[node_id as int] == tree.nodes@[node_id as int].state);
                        assert(node_ok(
                            tree.spec_nodes()[node_id as int],
                            tree.spec_roots(),
                            tree.spec_nodes().len(),
                        ));
                        assert(tree.spec_nodes()[node_id as int] is Visited);
                    }
                    let st = tree.nodes[node_id].state;
                    match st {
                        NodeState::Visited { start, .. } => {
                            self.at = Some(start + task_id);
                        },
                        _ => {
                            // unreachable: the node was expanded above or
                            // was already expanded
                            proof {
                                assert(false);
                            }
                            self.finished = true;
                            return None;
                        },
                    }
                },
                None => {
                    self.at = Some(task_id);
                },
            }
            Some(task_id)
        } else {
            // the prefix is spent without a step to take; end the walk
            self.close_path(tree);
            None
        }
    }
}

} // verus!
