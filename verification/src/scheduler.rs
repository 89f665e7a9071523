use vstd::prelude::*;

verus! {

/// Where a task was scheduled from: the source position that a cycle trace reports.
#[derive(Clone, Copy)]
pub struct TaskLocation {
    pub file: &'static str,
    pub line: u32,
    pub column: u32,
}

/// A scheduled unit of work together with the place that scheduled it.
/// The work runs at most once: running it takes it out.
pub struct Task<F> {
    pub task: Option<F>,
    pub location: TaskLocation,
}

impl<F> Task<F> {
    pub fn new(location: TaskLocation, task: F) -> (t: Self)
        ensures
            t.task == Some(task),
            t.location == location,
    {
        Task { task: Some(task), location }
    }

    /// Takes the work out of the task; a second call finds nothing.
    pub fn run(&mut self) -> (work: Option<F>)
        ensures
            work == old(self).task,
            final(self).task is None,
            final(self).location == old(self).location,
    {
        let mut work: Option<F> = None;
        std::mem::swap(&mut work, &mut self.task);
        work
    }
}

/// A node of the tree that records which task scheduled which.
pub struct TracerTreeNode<F> {
    pub task: Task<F>,
    /// Id of the node whose run scheduled this one; 0 for a root.
    pub parent: usize,
    /// Distance from the root.
    pub level: usize,
}

/// Records, while the scheduler runs in traced mode, which task scheduled
/// which, so that a cycle can be reported as a chain of source locations.
/// Node ids start at 1; id 0 stands for "no parent".
pub struct TracerTree<F> {
    pub nodes: Vec<TracerTreeNode<F>>,
    pub next_level: Vec<usize>,
}

/// The node that id `id` names (ids are 1-based).
pub open spec fn node_at<F>(nodes: Seq<TracerTreeNode<F>>, id: int) -> TracerTreeNode<F> {
    nodes[id - 1]
}

/// Every node is a root at level 0, or hangs below an earlier node, one level deeper.
pub open spec fn nodes_wf<F>(nodes: Seq<TracerTreeNode<F>>) -> bool {
    forall|i: int|
        0 <= i < nodes.len() ==> {
            let n = #[trigger] nodes[i];
            ||| (n.parent == 0 && n.level == 0)
            ||| (1 <= n.parent <= i && n.level == nodes[n.parent - 1].level + 1)
        }
}

/// Ids that name a node of `nodes`.
pub open spec fn valid_ids<F>(nodes: Seq<TracerTreeNode<F>>, ids: Seq<usize>) -> bool {
    forall|k: int| 0 <= k < ids.len() ==> 1 <= #[trigger] ids[k] <= nodes.len()
}

/// The nodes that `insert(parent, tasks)` appends after `len` existing nodes.
pub open spec fn new_nodes<F>(tasks: Seq<Task<F>>, parent: usize, level: usize) -> Seq<TracerTreeNode<F>> {
    tasks.map_values(|t: Task<F>| TracerTreeNode { task: t, parent, level })
}

/// The ids `len + 1 ..= len + n`.
pub open spec fn id_range(len: int, n: int) -> Seq<usize> {
    Seq::new(n as nat, |k: int| (len + k + 1) as usize)
}

/// The locations met when walking from node `id` up to its root, node first.
pub open spec fn ancestry<F>(nodes: Seq<TracerTreeNode<F>>, id: int) -> Seq<TaskLocation>
    decreases id,
{
    if id < 1 || id > nodes.len() {
        Seq::empty()
    } else {
        let n = node_at(nodes, id);
        if n.parent == 0 || n.parent >= id {
            seq![n.task.location]
        } else {
            seq![n.task.location] + ancestry(nodes, n.parent as int)
        }
    }
}

impl<F> TracerTree<F> {
    pub open spec fn wf(&self) -> bool {
        &&& nodes_wf(self.nodes@)
        &&& valid_ids(self.nodes@, self.next_level@)
    }

    pub fn new() -> (t: Self)
        ensures
            t.wf(),
            t.nodes@.len() == 0,
            t.next_level@.len() == 0,
    {
        TracerTree { nodes: Vec::new(), next_level: Vec::new() }
    }

    /// Appends `tasks` as children of node `parent` (as roots when `parent` is 0)
    /// and queues their ids for the next level.
    pub fn insert(&mut self, parent: usize, tasks: Vec<Task<F>>)
        requires
            old(self).wf(),
            parent <= old(self).nodes@.len(),
        ensures
            final(self).wf(),
            final(self).nodes@ == old(self).nodes@ + new_nodes(
                tasks@,
                parent,
                if parent == 0 { 0 } else { (node_at(old(self).nodes@, parent as int).level + 1) as usize },
            ),
            final(self).next_level@ == old(self).next_level@ + id_range(
                old(self).nodes@.len() as int,
                tasks@.len() as int,
            ),
    {
        let ghost old_nodes = self.nodes@;
        let ghost old_next = self.next_level@;
        let ghost all = tasks@;
        let level: usize = if parent != 0 {
            let l = self.nodes[parent - 1].level;
            proof { self.lemma_level_below_id((parent - 1) as int); }
            l + 1
        } else {
            0
        };
        let mut tasks = tasks;
        let mut k: usize = 0;
        while tasks.len() > 0
            invariant
                parent <= old_nodes.len(),
                parent == 0 ==> level == 0,
                parent != 0 ==> level == old_nodes[parent - 1].level + 1,
                nodes_wf(old_nodes),
                valid_ids(old_nodes, old_next),
                k <= all.len(),
                tasks@ == all.subrange(k as int, all.len() as int),
                self.nodes@ == old_nodes + new_nodes(all.subrange(0, k as int), parent, level),
                self.next_level@ == old_next + id_range(old_nodes.len() as int, k as int),
                nodes_wf(self.nodes@),
                valid_ids(self.nodes@, self.next_level@),
            decreases tasks.len(),
        {
            let t = tasks.remove(0);
            self.nodes.push(TracerTreeNode { task: t, parent: parent, level: level });
            let node_id = self.nodes.len();
            self.next_level.push(node_id);
            k = k + 1;
            proof {
                assert(all.subrange(0, k as int) =~= all.subrange(0, k - 1).push(t));
                assert(new_nodes(all.subrange(0, k as int), parent, level) =~= new_nodes(
                    all.subrange(0, k - 1),
                    parent,
                    level,
                ).push(TracerTreeNode { task: t, parent, level }));
                assert(id_range(old_nodes.len() as int, k as int) =~= id_range(
                    old_nodes.len() as int,
                    k - 1,
                ).push(node_id));
                assert(tasks@ =~= all.subrange(k as int, all.len() as int));
                assert forall|i: int| 0 <= i < self.nodes@.len() implies {
                    let n = #[trigger] self.nodes@[i];
                    ||| (n.parent == 0 && n.level == 0)
                    ||| (1 <= n.parent <= i && n.level == self.nodes@[n.parent - 1].level + 1)
                } by {
                    if i < old_nodes.len() {
                        assert(self.nodes@[i] == old_nodes[i]);
                        let n = old_nodes[i];
                        if n.parent != 0 {
                            assert(self.nodes@[n.parent - 1] == old_nodes[n.parent - 1]);
                        }
                    } else if parent != 0 {
                        assert(self.nodes@[parent - 1] == old_nodes[parent - 1]);
                    }
                }
            }
        }
        proof {
            assert(all.subrange(0, all.len() as int) =~= all);
        }
    }

    /// Hands out the ids queued for the next level and starts a new, empty one.
    pub fn elements_on_next_level(&mut self) -> (ids: Vec<usize>)
        requires
            old(self).wf(),
        ensures
            final(self).wf(),
            ids@ == old(self).next_level@,
            final(self).next_level@.len() == 0,
            final(self).nodes@ == old(self).nodes@,
    {
        let mut ids: Vec<usize> = Vec::new();
        std::mem::swap(&mut ids, &mut self.next_level);
        ids
    }

    /// The node with id `id`, if there is one.
    pub fn get(&self, id: usize) -> (node: Option<&TracerTreeNode<F>>)
        requires
            id >= 1,
        ensures
            node is Some <==> id <= self.nodes@.len(),
            node is Some ==> *node->0 == node_at(self.nodes@, id as int),
    {
        if id - 1 < self.nodes.len() {
            Some(&self.nodes[id - 1])
        } else {
            None
        }
    }

    /// Takes the work out of node `id`, if there is such a node.
    pub fn take_task(&mut self, id: usize) -> (work: Option<F>)
        requires
            old(self).wf(),
            id >= 1,
        ensures
            final(self).wf(),
            final(self).next_level@ == old(self).next_level@,
            final(self).nodes@.len() == old(self).nodes@.len(),
            id <= old(self).nodes@.len() ==> {
                &&& work == node_at(old(self).nodes@, id as int).task.task
                &&& final(self).nodes@ == old(self).nodes@.update(
                    id - 1,
                    TracerTreeNode {
                        task: Task { task: None, location: node_at(old(self).nodes@, id as int).task.location },
                        ..node_at(old(self).nodes@, id as int)
                    },
                )
            },
            id > old(self).nodes@.len() ==> work is None && final(self).nodes@ == old(self).nodes@,
    {
        if id - 1 < self.nodes.len() {
            let ghost old_nodes = self.nodes@;
            let work = self.nodes[id - 1].task.run();
            proof {
                assert forall|i: int| 0 <= i < self.nodes@.len() implies
                    #[trigger] self.nodes@[i].parent == old_nodes[i].parent
                    && self.nodes@[i].level == old_nodes[i].level by {}
                assert(nodes_wf(self.nodes@)) by {
                    assert forall|i: int| 0 <= i < self.nodes@.len() implies {
                        let n = #[trigger] self.nodes@[i];
                        ||| (n.parent == 0 && n.level == 0)
                        ||| (1 <= n.parent <= i && n.level == self.nodes@[n.parent - 1].level + 1)
                    } by {
                        let n = old_nodes[i];
                        assert(old_nodes[i] == n);
                        if n.parent != 0 && n.parent <= i {
                            assert(self.nodes@[n.parent - 1].level == old_nodes[n.parent - 1].level);
                        }
                    }
                }
                assert(self.nodes@ =~= old_nodes.update(
                    id - 1,
                    TracerTreeNode {
                        task: Task { task: None, location: node_at(old_nodes, id as int).task.location },
                        ..node_at(old_nodes, id as int)
                    },
                ));
            }
            work
        } else {
            None
        }
    }

    /// The locations from node `from` up to its root: the chain of tasks
    /// that scheduled one another.
    pub fn build_trace(&self, from: usize) -> (trace: Vec<TaskLocation>)
        requires
            self.wf(),
            from >= 1,
        ensures
            trace@ == ancestry(self.nodes@, from as int),
    {
        let mut node_id: usize = from;
        let mut trace: Vec<TaskLocation> = Vec::new();
        loop
            invariant_except_break
                trace@ + ancestry(self.nodes@, node_id as int) == ancestry(self.nodes@, from as int),
            invariant
                self.wf(),
                node_id >= 1,
            ensures
                trace@ == ancestry(self.nodes@, from as int),
            decreases node_id,
        {
            let ghost before = trace@;
            match self.get(node_id) {
                Some(node) => {
                    trace.push(node.task.location);
                    let parent = node.parent;
                    proof {
                        let n = node_at(self.nodes@, node_id as int);
                        assert(n.parent == 0 || n.parent < node_id);
                    }
                    if parent == 0 {
                        proof {
                            assert(trace@ =~= before + ancestry(self.nodes@, node_id as int));
                            assert(trace@ =~= ancestry(self.nodes@, from as int));
                        }
                        break;
                    }
                    proof {
                        assert(before + ancestry(self.nodes@, node_id as int) =~= trace@ + ancestry(
                            self.nodes@,
                            parent as int,
                        ));
                    }
                    node_id = parent;
                },
                None => {
                    proof {
                        assert(trace@ =~= before + ancestry(self.nodes@, node_id as int));
                        assert(trace@ =~= ancestry(self.nodes@, from as int));
                    }
                    break;
                },
            }
        }
        trace
    }

    proof fn lemma_level_below_id(&self, i: int)
        requires
            nodes_wf(self.nodes@),
            0 <= i < self.nodes@.len(),
        ensures
            self.nodes@[i].level <= i,
        decreases i,
    {
        let n = self.nodes@[i];
        if n.parent != 0 {
            self.lemma_level_below_id(n.parent - 1);
        }
    }
}

} // verus!

verus! {

/// A traced run reports a cycle when it reaches this many levels.
pub const TRACED_PASS_LIMIT: u64 = 25;

/// After this many passes a run switches to traced mode.
pub const PLAIN_PASS_LIMIT: u64 = 100;

/// The frame counter of the reactive system: it advances at most once
/// between two resets, which the main loop performs when it is idle.
pub struct ReactiveFrame {
    frame: u64,
    is_updated: bool,
}

/// What `current_reactive_frame` does: the first request after a reset
/// starts a new frame and asks for a reset to be queued; later requests
/// get the same frame.
pub open spec fn frame_effect(f0: ReactiveFrame, f1: ReactiveFrame, res: (u64, bool)) -> bool {
    &&& res.1 == !f0.is_updated()
    &&& f1.frame() == if f0.is_updated() { f0.frame() } else { (f0.frame() + 1) as u64 }
    &&& f1.is_updated()
    &&& res.0 == f1.frame()
}

/// What `reset` does.
pub open spec fn reset_effect(f0: ReactiveFrame, f1: ReactiveFrame) -> bool {
    &&& f1.frame() == f0.frame()
    &&& !f1.is_updated()
}

/// Between two resets the frame advances at most once: every request gets
/// the same frame, and only the first asks for a reset.
pub proof fn law_frame_stable_until_reset(
    f0: ReactiveFrame,
    f1: ReactiveFrame,
    f2: ReactiveFrame,
    r1: (u64, bool),
    r2: (u64, bool),
)
    requires
        frame_effect(f0, f1, r1),
        frame_effect(f1, f2, r2),
    ensures
        r2.0 == r1.0,
        !r2.1,
{
}

/// After a reset the next request starts the following frame.
pub proof fn law_reset_starts_next_frame(
    f0: ReactiveFrame,
    f1: ReactiveFrame,
    f2: ReactiveFrame,
    r1: (u64, bool),
    r2: (u64, bool),
    f3: ReactiveFrame,
)
    requires
        frame_effect(f0, f1, r1),
        reset_effect(f1, f2),
        f2.frame() < u64::MAX,
        frame_effect(f2, f3, r2),
    ensures
        r2.0 == r1.0 + 1,
        r2.1,
{
}

impl ReactiveFrame {
    pub closed spec fn frame(&self) -> u64 {
        self.frame
    }

    pub closed spec fn is_updated(&self) -> bool {
        self.is_updated
    }

    /// A frame that was started is numbered from 1 on; frame 0 is the time
    /// before the first request, which every scheduler has already seen.
    pub open spec fn wf(&self) -> bool {
        self.is_updated() ==> self.frame() >= 1
    }

    pub fn new() -> (f: Self)
        ensures
            f.wf(),
            f.frame() == 0,
            !f.is_updated(),
    {
        ReactiveFrame { frame: 0, is_updated: false }
    }

    /// The current frame. The first call after a reset starts a new frame
    /// and asks (second result) for a reset to be queued on the main loop.
    pub fn current_reactive_frame(&mut self) -> (res: (u64, bool))
        requires
            old(self).wf(),
            !old(self).is_updated() ==> old(self).frame() < u64::MAX,
        ensures
            final(self).wf(),
            res.0 >= 1,
            frame_effect(*old(self), *final(self), res),
    {
        let mut start = false;
        if !self.is_updated {
            self.frame = self.frame + 1;
            self.is_updated = true;
            start = true;
        }
        (self.frame, start)
    }

    /// The number of the current frame.
    pub fn frame_number(&self) -> (f: u64)
        ensures
            f == self.frame(),
    {
        self.frame
    }

    /// Whether the next request would start a new frame.
    pub fn needs_new_frame(&self) -> (b: bool)
        ensures
            b == !self.is_updated(),
    {
        !self.is_updated
    }

    /// The main loop is idle: the next request starts a new frame.
    pub fn reset(&mut self)
        ensures
            final(self).wf(),
            reset_effect(*old(self), *final(self)),
    {
        self.is_updated = false;
    }
}

/// Queues the work of the reactive system and runs it in passes.
/// Every pass advances the pass counter, which batch gates compare against.
pub struct Scheduler<F> {
    notify_pass: u64,
    frame: u64,
    task_queue: Vec<Task<F>>,
}

/// What the main loop does next while a run is in progress.
pub enum RunStep<F> {
    /// Run this work, then ask again.
    Run(F),
    /// Nothing is left to run.
    Finished,
    /// The work keeps scheduling more work: the chain of locations that did.
    CycleDetected(Vec<TaskLocation>),
}

/// A run of queued tasks, from `Scheduler::begin_run` to `RunStep::Finished`.
/// It runs in plain passes first and, after `PLAIN_PASS_LIMIT` of them, in
/// traced passes that remember which task scheduled which.
pub struct TaskRun<F> {
    traced: bool,
    finished: bool,
    local_pass: u64,
    batch: Vec<Task<F>>,
    next: usize,
    tree: TracerTree<F>,
    level: Vec<usize>,
    level_next: usize,
    running: usize,
}

/// Every task holds its work.
pub open spec fn all_pending<F>(tasks: Seq<Task<F>>) -> bool {
    forall|i: int| 0 <= i < tasks.len() ==> (#[trigger] tasks[i]).task is Some
}

/// What `schedule(task, location, current_frame)` does: the task joins the
/// end of the queue, and a run is requested if the scheduler has not yet
/// requested one in `current_frame` (or a later frame).
pub open spec fn schedule_effect<F>(
    s0: Scheduler<F>,
    task: F,
    location: TaskLocation,
    current_frame: u64,
    s1: Scheduler<F>,
    start_run: bool,
) -> bool {
    &&& s1.wf()
    &&& s1.queue() == s0.queue().push(Task { task: Some(task), location })
    &&& start_run == (s0.frame() < current_frame)
    &&& s1.frame() == if start_run { current_frame } else { s0.frame() }
    &&& s1.pass() == s0.pass()
}

/// Scheduling twice within one frame requests one run: the second request
/// is not made.
pub proof fn law_one_run_request_per_frame<F>(
    s0: Scheduler<F>,
    s1: Scheduler<F>,
    s2: Scheduler<F>,
    t1: F,
    t2: F,
    l1: TaskLocation,
    l2: TaskLocation,
    frame: u64,
    r1: bool,
    r2: bool,
)
    requires
        schedule_effect(s0, t1, l1, frame, s1, r1),
        schedule_effect(s1, t2, l2, frame, s2, r2),
    ensures
        !r2,
        s2.queue() == s0.queue().push(Task { task: Some(t1), location: l1 }).push(
            Task { task: Some(t2), location: l2 },
        ),
{
}

impl<F> Scheduler<F> {
    pub closed spec fn pass(&self) -> u64 {
        self.notify_pass
    }

    pub closed spec fn frame(&self) -> u64 {
        self.frame
    }

    pub closed spec fn queue(&self) -> Seq<Task<F>> {
        self.task_queue@
    }

    pub open spec fn wf(&self) -> bool {
        &&& self.pass() >= 1
        &&& all_pending(self.queue())
    }

    /// A scheduler with nothing queued. Its first pass is 1: a fresh batch
    /// gate, which remembers pass 0, lets the first pass through.
    pub fn new() -> (s: Self)
        ensures
            s.wf(),
            s.pass() == 1,
            s.frame() == 0,
            s.queue().len() == 0,
    {
        Scheduler { notify_pass: 1, frame: 0, task_queue: Vec::new() }
    }

    /// The number of the current pass.
    pub fn notify_pass(&self) -> (p: u64)
        ensures
            p == self.pass(),
    {
        self.notify_pass
    }

    /// The number of queued tasks.
    pub fn queue_len(&self) -> (n: usize)
        ensures
            n == self.queue().len(),
    {
        self.task_queue.len()
    }

    /// Queues `task`. The result says whether a run must be requested from
    /// the main loop: once per reactive frame, on the first task of the frame.
    pub fn schedule(&mut self, task: F, location: TaskLocation, current_frame: u64) -> (start_run: bool)
        requires
            old(self).wf(),
        ensures
            schedule_effect(*old(self), task, location, current_frame, *final(self), start_run),
    {
        self.task_queue.push(Task::new(location, task));
        if self.frame < current_frame {
            self.frame = current_frame;
            true
        } else {
            false
        }
    }

    fn take_queue(&mut self) -> (tasks: Vec<Task<F>>)
        ensures
            tasks@ == old(self).task_queue@,
            final(self).task_queue@.len() == 0,
            final(self).notify_pass == old(self).notify_pass,
            final(self).frame == old(self).frame,
    {
        let mut tasks: Vec<Task<F>> = Vec::new();
        std::mem::swap(&mut tasks, &mut self.task_queue);
        tasks
    }
}

} // verus!

verus! {

/// Ids from position `from` on are strictly increasing.
pub open spec fn increasing_from(ids: Seq<usize>, from: int) -> bool {
    forall|i: int, j: int| from <= i < j < ids.len() ==> ids[i] < ids[j]
}

/// Every id of `a` from position `from` on is smaller than every id of `b`.
pub open spec fn below(a: Seq<usize>, from: int, b: Seq<usize>) -> bool {
    forall|i: int, j: int| from <= i < a.len() && 0 <= j < b.len() ==> #[trigger] a[i] < #[trigger] b[j]
}

/// Node `id` exists, still holds its work, and sits at level `lvl`.
pub open spec fn node_ok<F>(nodes: Seq<TracerTreeNode<F>>, id: usize, lvl: int) -> bool {
    &&& 1 <= id <= nodes.len()
    &&& node_at(nodes, id as int).task.task is Some
    &&& node_at(nodes, id as int).level == lvl
}

/// Every id of `ids` from position `from` on names a node that still holds its work, at level `lvl`.
pub open spec fn pending_ok<F>(nodes: Seq<TracerTreeNode<F>>, ids: Seq<usize>, from: int, lvl: int) -> bool {
    forall|k: int| from <= k < ids.len() ==> node_ok(nodes, #[trigger] ids[k], lvl)
}

proof fn lemma_pending_extend<F>(
    nodes: Seq<TracerTreeNode<F>>,
    extra: Seq<TracerTreeNode<F>>,
    ids: Seq<usize>,
    from: int,
    lvl: int,
)
    requires
        pending_ok(nodes, ids, from, lvl),
    ensures
        pending_ok(nodes + extra, ids, from, lvl),
{
    assert forall|k: int| from <= k < ids.len() implies node_ok(nodes + extra, #[trigger] ids[k], lvl) by {
        assert(node_ok(nodes, ids[k], lvl));
        assert((nodes + extra)[ids[k] - 1] == nodes[ids[k] - 1]);
    }
}

proof fn lemma_pending_update<F>(
    nodes: Seq<TracerTreeNode<F>>,
    x: int,
    n: TracerTreeNode<F>,
    ids: Seq<usize>,
    from: int,
    lvl: int,
)
    requires
        pending_ok(nodes, ids, from, lvl),
        0 <= x < nodes.len(),
        forall|k: int| from <= k < ids.len() ==> #[trigger] ids[k] != x + 1,
    ensures
        pending_ok(nodes.update(x, n), ids, from, lvl),
{
    assert forall|k: int| from <= k < ids.len() implies node_ok(nodes.update(x, n), #[trigger] ids[k], lvl) by {
        assert(node_ok(nodes, ids[k], lvl));
        assert(ids[k] != x + 1);
    }
}

impl<F> TaskRun<F> {
    pub closed spec fn is_traced(&self) -> bool {
        self.traced
    }

    pub closed spec fn is_finished(&self) -> bool {
        self.finished
    }

    /// Passes made so far in the current mode.
    pub closed spec fn local_pass(&self) -> u64 {
        self.local_pass
    }

    /// The tasks of the current plain pass and how many of them were handed out.
    pub closed spec fn batch(&self) -> Seq<Task<F>> {
        self.batch@
    }

    pub closed spec fn next(&self) -> int {
        self.next as int
    }

    /// The traced nodes, the ids of the current level and how many of them were
    /// handed out, the ids queued for the next level, and the node whose work
    /// was handed out last (0 for none).
    pub closed spec fn nodes(&self) -> Seq<TracerTreeNode<F>> {
        self.tree.nodes@
    }

    pub closed spec fn level(&self) -> Seq<usize> {
        self.level@
    }

    pub closed spec fn level_next(&self) -> int {
        self.level_next as int
    }

    pub closed spec fn next_level(&self) -> Seq<usize> {
        self.tree.next_level@
    }

    pub closed spec fn running(&self) -> usize {
        self.running
    }

    pub closed spec fn wf(&self) -> bool {
        &&& self.tree.wf()
        &&& !self.traced ==> {
            &&& self.next <= self.batch@.len()
            &&& forall|k: int| self.next <= k < self.batch@.len() ==> (#[trigger] self.batch@[k]).task is Some
            &&& 1 <= self.local_pass <= PLAIN_PASS_LIMIT + 1
            &&& self.tree.nodes@.len() == 0
            &&& self.tree.next_level@.len() == 0
        }
        &&& self.traced && !self.finished ==> self.traced_wf() && self.running != 0
    }

    /// The shape of a traced run in the middle of a step, when the work
    /// handed out last may already have been dealt with.
    closed spec fn in_traced_step(&self) -> bool {
        &&& self.tree.wf()
        &&& self.traced
        &&& !self.finished
        &&& self.traced_wf()
    }

    pub closed spec fn traced_wf(&self) -> bool {
        let nodes = self.tree.nodes@;
        let next = self.tree.next_level@;
        &&& self.level_next <= self.level@.len()
        &&& 1 <= self.local_pass < TRACED_PASS_LIMIT || (self.local_pass == 0 && self.level@.len() == 0)
        &&& increasing_from(self.level@, self.level_next as int)
        &&& increasing_from(next, 0)
        &&& below(self.level@, self.level_next as int, next)
        &&& pending_ok(nodes, self.level@, self.level_next as int, self.local_pass - 1)
        &&& pending_ok(nodes, next, 0, self.local_pass as int)
        &&& self.running != 0 ==> {
            &&& 1 <= self.running <= nodes.len()
            &&& node_at(nodes, self.running as int).level + 1 == self.local_pass
        }
    }

    /// The nodes and next-level ids once the tasks queued by the work handed
    /// out last are attached below it.
    pub closed spec fn attached_nodes(&self, queue: Seq<Task<F>>) -> Seq<TracerTreeNode<F>> {
        if self.running != 0 {
            self.tree.nodes@ + new_nodes(
                queue,
                self.running,
                (node_at(self.tree.nodes@, self.running as int).level + 1) as usize,
            )
        } else {
            self.tree.nodes@
        }
    }

    pub closed spec fn attached_next_level(&self, queue: Seq<Task<F>>) -> Seq<usize> {
        if self.running != 0 {
            self.tree.next_level@ + id_range(self.tree.nodes@.len() as int, queue.len() as int)
        } else {
            self.tree.next_level@
        }
    }

    /// How many traced nodes there are.
    pub fn traced_len(&self) -> (n: usize)
        ensures
            n == self.nodes().len(),
    {
        self.tree.nodes.len()
    }
}

/// The chain from a node up to its root has one entry more than the node's level.
pub proof fn lemma_ancestry_len<F>(nodes: Seq<TracerTreeNode<F>>, id: int)
    requires
        nodes_wf(nodes),
        1 <= id <= nodes.len(),
    ensures
        ancestry(nodes, id).len() == node_at(nodes, id).level + 1,
    decreases id,
{
    let n = node_at(nodes, id);
    assert(nodes[id - 1] == n);
    if n.parent != 0 {
        lemma_ancestry_len(nodes, n.parent as int);
    }
}


/// `t` once its work has been handed out.
pub open spec fn without_work<F>(t: Task<F>) -> Task<F> {
    Task { task: None, location: t.location }
}

/// `nodes` once the work of node `id` has been handed out.
pub open spec fn node_taken<F>(nodes: Seq<TracerTreeNode<F>>, id: int) -> Seq<TracerTreeNode<F>> {
    nodes.update(id - 1, TracerTreeNode { task: without_work(nodes[id - 1].task), ..nodes[id - 1] })
}

/// What a step of a traced run does. First the tasks queued by the work
/// handed out last are attached below its node (so nothing stays queued). Then the next node of the
/// current level is handed out; when the level is done, the next level
/// starts as a new pass, unless it is empty (the run is over) or it is the
/// `TRACED_PASS_LIMIT`-th (a cycle: its first node's chain is reported).
pub open spec fn traced_outcome<F>(
    s0: Scheduler<F>,
    run0: TaskRun<F>,
    s1: Scheduler<F>,
    run1: TaskRun<F>,
    r: RunStep<F>,
) -> bool {
    let nodes1 = run0.attached_nodes(s0.queue());
    let next1 = run0.attached_next_level(s0.queue());
    &&& run1.is_traced()
    &&& s1.frame() == s0.frame()
    &&& s1.queue() == Seq::<Task<F>>::empty()
    &&& if run0.level_next() < run0.level().len() {
        let id = run0.level()[run0.level_next()];
        &&& r == RunStep::Run(node_at(nodes1, id as int).task.task->0)
        &&& s1.pass() == s0.pass()
        &&& !run1.is_finished()
        &&& run1.level() == run0.level()
        &&& run1.level_next() == run0.level_next() + 1
        &&& run1.nodes() == node_taken(nodes1, id as int)
        &&& run1.next_level() == next1
        &&& run1.running() == id
        &&& run1.local_pass() == run0.local_pass()
    } else if next1.len() == 0 {
        &&& r is Finished
        &&& run1.is_finished()
        &&& s1.pass() == s0.pass()
    } else {
        &&& s1.pass() == s0.pass() + 1
        &&& if run0.local_pass() + 1 == TRACED_PASS_LIMIT {
            &&& r matches RunStep::CycleDetected(trace) && trace@ == ancestry(nodes1, next1[0] as int)
                && trace@.len() == TRACED_PASS_LIMIT
            &&& run1.is_finished()
        } else {
            &&& r == RunStep::Run(node_at(nodes1, next1[0] as int).task.task->0)
            &&& !run1.is_finished()
            &&& run1.level() == next1
            &&& run1.level_next() == 1
            &&& run1.nodes() == node_taken(nodes1, next1[0] as int)
            &&& run1.next_level().len() == 0
            &&& run1.running() == next1[0]
            &&& run1.local_pass() == run0.local_pass() + 1
        }
    }
}

/// What a step of a plain run does: hand out the next task of the current
/// pass; when the pass is done, finish if nothing was queued meanwhile, or
/// else start a new pass with what was queued (in traced mode once
/// `PLAIN_PASS_LIMIT` passes are exceeded), handing out its first task.
pub open spec fn plain_outcome<F>(
    s0: Scheduler<F>,
    run0: TaskRun<F>,
    s1: Scheduler<F>,
    run1: TaskRun<F>,
    r: RunStep<F>,
) -> bool {
    &&& s1.frame() == s0.frame()
    &&& if run0.next() < run0.batch().len() {
        &&& r == RunStep::Run(run0.batch()[run0.next()].task->0)
        &&& s1.pass() == s0.pass()
        &&& s1.queue() == s0.queue()
        &&& !run1.is_finished()
        &&& !run1.is_traced()
        &&& run1.batch() == run0.batch().update(run0.next(), without_work(run0.batch()[run0.next()]))
        &&& run1.next() == run0.next() + 1
        &&& run1.local_pass() == run0.local_pass()
    } else if s0.queue().len() == 0 {
        &&& r is Finished
        &&& run1.is_finished()
        &&& s1.pass() == s0.pass()
        &&& s1.queue() == s0.queue()
    } else {
        &&& r == RunStep::Run(s0.queue()[0].task->0)
        &&& s1.pass() == s0.pass() + 1
        &&& s1.queue().len() == 0
        &&& !run1.is_finished()
        &&& run1.is_traced() == (run0.local_pass() > PLAIN_PASS_LIMIT)
        &&& if run0.local_pass() > PLAIN_PASS_LIMIT {
            // the queued tasks become the roots of the trace, the first one handed out
            &&& run1.nodes() == node_taken(new_nodes(s0.queue(), 0, 0), 1)
            &&& run1.level() == id_range(0, s0.queue().len() as int)
            &&& run1.level_next() == 1
            &&& run1.next_level().len() == 0
            &&& run1.running() == 1
            &&& run1.local_pass() == 1
        } else {
            &&& run1.batch() == s0.queue().update(0, without_work(s0.queue()[0]))
            &&& run1.next() == 1
            &&& run1.local_pass() == run0.local_pass() + 1
        }
    }
}

impl<F> Scheduler<F> {
    /// Starts a run: takes what is queued as the first pass, which advances
    /// the pass counter.
    pub fn begin_run(&mut self) -> (run: TaskRun<F>)
        requires
            old(self).wf(),
            old(self).pass() < u64::MAX,
        ensures
            final(self).wf(),
            run.wf(),
            !run.is_traced(),
            !run.is_finished(),
            run.local_pass() == 1,
            run.batch() == old(self).queue(),
            run.next() == 0,
            final(self).queue().len() == 0,
            final(self).pass() == old(self).pass() + 1,
            final(self).frame() == old(self).frame(),
    {
        let batch = self.take_queue();
        self.notify_pass = self.notify_pass + 1;
        TaskRun {
            traced: false,
            finished: false,
            local_pass: 1,
            batch,
            next: 0,
            tree: TracerTree::new(),
            level: Vec::new(),
            level_next: 0,
            running: 0,
        }
    }
}

} // verus!

verus! {

impl<F> TaskRun<F> {
    /// Hands out the work of the `level_next`-th node of the current level.
    fn hand_out(&mut self) -> (work: F)
        requires
            old(self).in_traced_step(),
            old(self).running == 0,
            old(self).local_pass >= 1,
            old(self).level_next < old(self).level@.len(),
        ensures
            final(self).wf(),
            final(self).traced,
            !final(self).finished,
            work == node_at(old(self).tree.nodes@, old(self).level@[old(self).level_next as int] as int).task.task->0,
            final(self).level@ == old(self).level@,
            final(self).level_next == old(self).level_next + 1,
            final(self).tree.next_level@ == old(self).tree.next_level@,
            final(self).tree.nodes@ == node_taken(
                old(self).tree.nodes@,
                old(self).level@[old(self).level_next as int] as int,
            ),
            final(self).local_pass == old(self).local_pass,
            final(self).running == old(self).level@[old(self).level_next as int],
    {
        let i = self.level_next;
        let ghost lvl_next = i as int;
        let id = self.level[i];
        let ghost before = self.tree.nodes@;
        proof {
            assert(node_ok(before, self.level@[lvl_next], self.local_pass - 1));
            assert(self.level@.len() == self.level.len());
        }
        self.level_next = i + 1;
        let f = self.tree.take_task(id);
        proof {
            let n = TracerTreeNode {
                task: Task { task: None, location: node_at(before, id as int).task.location },
                ..node_at(before, id as int)
            };
            assert forall|k: int| lvl_next + 1 <= k < self.level@.len() implies #[trigger] self.level@[k] != id as int - 1 + 1 by {
                assert(self.level@[lvl_next] < self.level@[k]);
            }
            lemma_pending_update(before, id - 1, n, self.level@, lvl_next + 1, self.local_pass - 1);
            let next = self.tree.next_level@;
            assert forall|k: int| 0 <= k < next.len() implies #[trigger] next[k] != id as int - 1 + 1 by {
                assert(self.level@[lvl_next] < next[k]);
            }
            lemma_pending_update(before, id - 1, n, next, 0, self.local_pass as int);
        }
        self.running = id;
        f.unwrap()
    }

    /// Attaches `tasks`, queued while the last work ran, below its node.
    fn attach(&mut self, tasks: Vec<Task<F>>)
        requires
            old(self).wf(),
            old(self).traced,
            !old(self).finished,
            old(self).running != 0,
            all_pending(tasks@),
        ensures
            final(self).in_traced_step(),
            final(self).running == 0,
            final(self).tree.nodes@ == old(self).attached_nodes(tasks@),
            final(self).tree.next_level@ == old(self).attached_next_level(tasks@),
            final(self).level@ == old(self).level@,
            final(self).level_next == old(self).level_next,
            final(self).local_pass == old(self).local_pass,
    {
        let ghost q = tasks@;
        let ghost old_nodes = self.tree.nodes@;
        let ghost old_next = self.tree.next_level@;
        let ghost new_level = (node_at(old_nodes, self.running as int).level + 1) as usize;
        proof {
            self.tree.lemma_level_below_id(self.running - 1);
        }
        self.tree.insert(self.running, tasks);
        // node ids are positions in the tree, so they fit in a usize
        let node_count = self.tree.nodes.len();
        proof {
            let nodes = self.tree.nodes@;
            assert(nodes.len() == node_count);
            let next = self.tree.next_level@;
            let extra = new_nodes(q, self.running, new_level);
            assert(nodes == old_nodes + extra);
            lemma_pending_extend(old_nodes, extra, self.level@, self.level_next as int, self.local_pass - 1);
            lemma_pending_extend(old_nodes, extra, old_next, 0, self.local_pass as int);
            assert forall|k: int| 0 <= k < next.len() implies node_ok(nodes, #[trigger] next[k], self.local_pass as int) by {
                if k >= old_next.len() {
                    let j = k - old_next.len();
                    assert(next[k] == old_nodes.len() + j + 1);
                    assert(nodes[old_nodes.len() + j] == extra[j]);
                    assert(q[j].task is Some);
                } else {
                    assert(next[k] == old_next[k]);
                }
            }
            assert forall|a: int, b: int| 0 <= a < b < next.len() implies next[a] < next[b] by {
                if b >= old_next.len() && a < old_next.len() {
                    assert(next[a] == old_next[a]);
                    assert(node_ok(old_nodes, old_next[a], self.local_pass as int));
                }
            }
            assert forall|a: int, b: int|
                self.level_next <= a < self.level@.len() && 0 <= b < next.len() implies
                #[trigger] self.level@[a] < #[trigger] next[b] by {
                if b >= old_next.len() {
                    assert(node_ok(old_nodes, self.level@[a], self.local_pass - 1));
                } else {
                    assert(next[b] == old_next[b]);
                }
            }
        }
        self.running = 0;
    }
}

} // verus!

verus! {

impl<F> Scheduler<F> {
    /// A traced step once nothing is left to attach.
    fn advance_traced(&mut self, run: &mut TaskRun<F>) -> (r: RunStep<F>)
        requires
            old(self).wf(),
            old(run).in_traced_step(),
            old(run).running() == 0,
            old(self).pass() < u64::MAX,
        ensures
            final(self).wf(),
            final(run).wf(),
            final(run).is_traced(),
            final(self).frame() == old(self).frame(),
            final(self).queue() == old(self).queue(),
            if old(run).level_next() < old(run).level().len() {
                let id = old(run).level()[old(run).level_next()];
                &&& r == RunStep::Run(node_at(old(run).nodes(), id as int).task.task->0)
                &&& final(self).pass() == old(self).pass()
                &&& !final(run).is_finished()
                &&& final(run).level() == old(run).level()
                &&& final(run).level_next() == old(run).level_next() + 1
                &&& final(run).nodes() == node_taken(old(run).nodes(), id as int)
                &&& final(run).next_level() == old(run).next_level()
                &&& final(run).running() == id
                &&& final(run).local_pass() == old(run).local_pass()
            } else if old(run).next_level().len() == 0 {
                &&& r is Finished
                &&& final(run).is_finished()
                &&& final(self).pass() == old(self).pass()
            } else {
                &&& final(self).pass() == old(self).pass() + 1
                &&& if old(run).local_pass() + 1 == TRACED_PASS_LIMIT {
                    &&& r matches RunStep::CycleDetected(trace) && trace@ == ancestry(
                        old(run).nodes(),
                        old(run).next_level()[0] as int,
                    ) && trace@.len() == TRACED_PASS_LIMIT
                    &&& final(run).is_finished()
                } else {
                    let id = old(run).next_level()[0];
                    &&& r == RunStep::Run(node_at(old(run).nodes(), id as int).task.task->0)
                    &&& !final(run).is_finished()
                    &&& final(run).level() == old(run).next_level()
                    &&& final(run).level_next() == 1
                    &&& final(run).nodes() == node_taken(old(run).nodes(), id as int)
                    &&& final(run).next_level().len() == 0
                    &&& final(run).running() == id
                    &&& final(run).local_pass() == old(run).local_pass() + 1
                }
            },
    {
        if run.level_next < run.level.len() {
            let f = run.hand_out();
            return RunStep::Run(f);
        }
        let level = run.tree.elements_on_next_level();
        run.level = level;
        run.level_next = 0;
        if run.level.len() == 0 {
            run.finished = true;
            return RunStep::Finished;
        }
        self.notify_pass = self.notify_pass + 1;
        run.local_pass = run.local_pass + 1;
        if run.local_pass == TRACED_PASS_LIMIT {
            run.finished = true;
            proof {
                assert(node_ok(run.tree.nodes@, run.level@[0], run.local_pass - 1));
                lemma_ancestry_len(run.tree.nodes@, run.level@[0] as int);
            }
            let trace = run.tree.build_trace(run.level[0]);
            return RunStep::CycleDetected(trace);
        }
        let f = run.hand_out();
        RunStep::Run(f)
    }

    fn step_traced(&mut self, run: &mut TaskRun<F>) -> (r: RunStep<F>)
        requires
            old(self).wf(),
            old(run).wf(),
            old(run).is_traced(),
            !old(run).is_finished(),
            old(self).pass() < u64::MAX,
        ensures
            final(self).wf(),
            final(run).wf(),
            traced_outcome(*old(self), *old(run), *final(self), *final(run), r),
    {
        let ghost s0 = *self;
        let ghost run0 = *run;
        let tasks = self.take_queue();
        run.attach(tasks);
        assert(self.task_queue@ =~= Seq::<Task<F>>::empty());
        let ghost nodes1 = run0.attached_nodes(s0.queue());
        let ghost next1 = run0.attached_next_level(s0.queue());
        assert(run.tree.nodes@ == nodes1);
        assert(run.tree.next_level@ == next1);
        assert(run.level@ == run0.level@ && run.level_next == run0.level_next);
        assert(run.local_pass == run0.local_pass);
        assert(self.notify_pass == s0.notify_pass);
        let r = self.advance_traced(run);
        r
    }
}

} // verus!

verus! {

impl<F> TaskRun<F> {
    fn take_batch_task(&mut self) -> (work: F)
        requires
            old(self).wf(),
            !old(self).traced,
            old(self).next < old(self).batch@.len(),
        ensures
            final(self).wf(),
            !final(self).traced,
            final(self).finished == old(self).finished,
            work == old(self).batch@[old(self).next as int].task->0,
            final(self).batch@ == old(self).batch@.update(
                old(self).next as int,
                without_work(old(self).batch@[old(self).next as int]),
            ),
            final(self).next == old(self).next + 1,
            final(self).local_pass == old(self).local_pass,
    {
        let i = self.next;
        let ghost before = self.batch@;
        assert(before[i as int].task is Some);
        assert(self.batch@.len() == self.batch.len());
        let f = self.batch[i].run();
        self.next = i + 1;
        proof {
            assert forall|k: int| self.next <= k < self.batch@.len() implies (#[trigger] self.batch@[k]).task
                is Some by {
                assert(self.batch@[k] == before[k]);
            }
        }
        f.unwrap()
    }
}

impl<F> Scheduler<F> {
    fn step_plain(&mut self, run: &mut TaskRun<F>) -> (r: RunStep<F>)
        requires
            old(self).wf(),
            old(run).wf(),
            !old(run).is_traced(),
            !old(run).is_finished(),
            old(self).pass() < u64::MAX,
        ensures
            final(self).wf(),
            final(run).wf(),
            plain_outcome(*old(self), *old(run), *final(self), *final(run), r),
    {
        if run.next < run.batch.len() {
            let f = run.take_batch_task();
            return RunStep::Run(f);
        }
        if self.task_queue.len() == 0 {
            run.finished = true;
            return RunStep::Finished;
        }
        let tasks = self.take_queue();
        if run.local_pass > PLAIN_PASS_LIMIT {
            let ghost q = tasks@;
            run.traced = true;
            run.local_pass = 0;
            run.level = Vec::new();
            run.level_next = 0;
            run.running = 0;
            run.tree.insert(0, tasks);
            proof {
                let nodes = run.tree.nodes@;
                let next = run.tree.next_level@;
                assert(nodes == new_nodes(q, 0, 0));
                assert forall|k: int| 0 <= k < next.len() implies node_ok(nodes, #[trigger] next[k], 0) by {
                    assert(next[k] == k + 1);
                    assert(nodes[k] == new_nodes(q, 0, 0)[k]);
                }
                assert(run.in_traced_step());
                assert(node_at(nodes, 1).task == q[0]);
            }
            let r = self.advance_traced(run);
            return r;
        }
        self.notify_pass = self.notify_pass + 1;
        run.local_pass = run.local_pass + 1;
        run.batch = tasks;
        run.next = 0;
        let f = run.take_batch_task();
        RunStep::Run(f)
    }

    /// One step of a run: what the main loop does next. After `Run(work)`
    /// the main loop runs `work` (which may schedule more) and asks again.
    pub fn step(&mut self, run: &mut TaskRun<F>) -> (r: RunStep<F>)
        requires
            old(self).wf(),
            old(run).wf(),
            old(self).pass() < u64::MAX,
        ensures
            final(self).wf(),
            final(run).wf(),
            old(run).is_finished() ==> {
                &&& r is Finished
                &&& final(run).is_finished()
                &&& *final(self) == *old(self)
            },
            !old(run).is_finished() && !old(run).is_traced() ==> plain_outcome(
                *old(self),
                *old(run),
                *final(self),
                *final(run),
                r,
            ),
            !old(run).is_finished() && old(run).is_traced() ==> traced_outcome(
                *old(self),
                *old(run),
                *final(self),
                *final(run),
                r,
            ),
    {
        if run.finished {
            RunStep::Finished
        } else if run.traced {
            self.step_traced(run)
        } else {
            self.step_plain(run)
        }
    }
}

} // verus!

verus! {

/// A step never lowers the pass counter and raises it by at most one: every
/// pass gets its own number, which batch gates compare against.
pub proof fn law_step_advances_pass_by_at_most_one<F>(
    s0: Scheduler<F>,
    run0: TaskRun<F>,
    s1: Scheduler<F>,
    run1: TaskRun<F>,
    r: RunStep<F>,
)
    requires
        plain_outcome(s0, run0, s1, run1, r) || traced_outcome(s0, run0, s1, run1, r),
    ensures
        s0.pass() <= s1.pass() <= s0.pass() + 1,
        s1.frame() == s0.frame(),
{
}

/// A run that finishes leaves nothing queued: all scheduled work was handed out.
pub proof fn law_finished_run_leaves_nothing_queued<F>(
    s0: Scheduler<F>,
    run0: TaskRun<F>,
    s1: Scheduler<F>,
    run1: TaskRun<F>,
)
    requires
        plain_outcome(s0, run0, s1, run1, RunStep::Finished) || traced_outcome(
            s0,
            run0,
            s1,
            run1,
            RunStep::Finished,
        ),
    ensures
        s1.queue().len() == 0,
        run1.is_finished(),
{
}

/// A reported cycle is the chain of `TRACED_PASS_LIMIT` tasks that kept
/// scheduling one another, innermost first.
pub proof fn law_cycle_trace_has_limit_length<F>(
    s0: Scheduler<F>,
    run0: TaskRun<F>,
    s1: Scheduler<F>,
    run1: TaskRun<F>,
    trace: Vec<TaskLocation>,
)
    requires
        traced_outcome(s0, run0, s1, run1, RunStep::CycleDetected(trace)),
    ensures
        trace@.len() == TRACED_PASS_LIMIT,
        run1.is_finished(),
{
}

} // verus!

verus! {

/// A run keeps to its bounds: at most `PLAIN_PASS_LIMIT + 1` plain passes,
/// then fewer than `TRACED_PASS_LIMIT` traced levels before it finishes or
/// reports a cycle.
pub proof fn law_run_pass_bounds<F>(run: TaskRun<F>)
    requires
        run.wf(),
    ensures
        !run.is_traced() ==> 1 <= run.local_pass() <= PLAIN_PASS_LIMIT + 1,
        run.is_traced() && !run.is_finished() ==> run.local_pass() < TRACED_PASS_LIMIT,
{
}

/// The pass counter of a well-formed scheduler is never 0, the pass that a
/// fresh batch gate remembers.
pub proof fn law_pass_is_positive<F>(s: Scheduler<F>)
    requires
        s.wf(),
    ensures
        s.pass() >= 1,
{
}

/// The queue `b` still begins with everything that was queued in `a`.
pub open spec fn queue_kept<F>(a: Seq<Task<F>>, b: Seq<Task<F>>) -> bool {
    &&& a.len() <= b.len()
    &&& forall|i: int| 0 <= i < a.len() ==> #[trigger] b[i] == a[i]
}

/// Step `k` of a plain run, taken from scheduler `pre[k]` and run `runs[k]`
/// to scheduler `post[k]` and run `runs[k + 1]`, answered `results[k]`.
pub open spec fn plain_step_at<F>(
    pre: Seq<Scheduler<F>>,
    post: Seq<Scheduler<F>>,
    runs: Seq<TaskRun<F>>,
    results: Seq<RunStep<F>>,
    k: int,
) -> bool {
    plain_outcome(pre[k], runs[k], post[k], runs[k + 1], results[k])
}

/// Between steps `k` and `k + 1` the work that ran only scheduled more
/// tasks: the pass counter is unchanged and the queue only grew at its end.
pub open spec fn only_scheduled_between<F>(
    pre: Seq<Scheduler<F>>,
    post: Seq<Scheduler<F>>,
    k: int,
) -> bool {
    &&& pre[k + 1].pass() == post[k].pass()
    &&& queue_kept(post[k].queue(), pre[k + 1].queue())
}

/// A plain pass hands out its tasks one per step, in the order they were
/// queued, whatever the work schedules meanwhile; the pass counter stays put
/// and what is scheduled waits in the queue. The step after the last task
/// of the pass ends the run if nothing was queued, and otherwise starts the
/// next pass with everything that was queued, in order, under the next pass
/// number, handing out its first task.
pub proof fn law_plain_pass_in_queue_order<F>(
    pre: Seq<Scheduler<F>>,
    post: Seq<Scheduler<F>>,
    runs: Seq<TaskRun<F>>,
    results: Seq<RunStep<F>>,
)
    requires
        pre.len() == results.len(),
        post.len() == results.len(),
        runs.len() == results.len() + 1,
        runs[0].wf(),
        !runs[0].is_traced(),
        !runs[0].is_finished(),
        runs[0].next() + results.len() <= runs[0].batch().len() + 1,
        forall|k: int| 0 <= k < results.len() ==> #[trigger] plain_step_at(pre, post, runs, results, k),
        forall|k: int| 0 <= k < results.len() - 1 ==> #[trigger] only_scheduled_between(pre, post, k),
    ensures
        forall|k: int|
            0 <= k < results.len() && runs[0].next() + k < runs[0].batch().len() ==> #[trigger] results[k]
                == RunStep::Run(runs[0].batch()[runs[0].next() + k].task->0),
        forall|k: int|
            0 <= k < results.len() && runs[0].next() + k < runs[0].batch().len() ==> {
                &&& (#[trigger] post[k]).pass() == pre[0].pass()
                &&& queue_kept(pre[0].queue(), post[k].queue())
            },
        runs[0].next() + results.len() == runs[0].batch().len() + 1 ==> {
            let m = results.len() - 1;
            &&& queue_kept(pre[0].queue(), pre[m].queue())
            &&& pre[m].pass() == pre[0].pass()
            &&& pre[m].queue().len() == 0 ==> results[m] is Finished && runs[m + 1].is_finished()
            &&& pre[m].queue().len() > 0 ==> {
                &&& results[m] == RunStep::Run(pre[m].queue()[0].task->0)
                &&& post[m].pass() == pre[0].pass() + 1
                &&& !runs[m + 1].is_traced() ==> runs[m + 1].batch() == pre[m].queue().update(
                    0,
                    without_work(pre[m].queue()[0]),
                )
            }
        },
{
    let n = results.len() as int;
    let b = runs[0].batch().len() - runs[0].next();
    assert forall|k: int|
        0 <= k < n && runs[0].next() + k < runs[0].batch().len() implies #[trigger] results[k]
            == RunStep::Run(runs[0].batch()[runs[0].next() + k].task->0) && post[k].pass() == pre[0].pass()
            && queue_kept(pre[0].queue(), post[k].queue()) by {
        lemma_pass_position(pre, post, runs, results, k);
        assert(plain_step_at(pre, post, runs, results, k));
    }
    assert forall|k: int|
        0 <= k < n && runs[0].next() + k < runs[0].batch().len() implies {
            &&& (#[trigger] post[k]).pass() == pre[0].pass()
            &&& queue_kept(pre[0].queue(), post[k].queue())
        } by {
        lemma_pass_position(pre, post, runs, results, k);
        assert(plain_step_at(pre, post, runs, results, k));
    }
    if n == b + 1 {
        let m = n - 1;
        lemma_pass_position(pre, post, runs, results, m);
        assert(plain_step_at(pre, post, runs, results, m));
    }
}

proof fn lemma_pass_position<F>(
    pre: Seq<Scheduler<F>>,
    post: Seq<Scheduler<F>>,
    runs: Seq<TaskRun<F>>,
    results: Seq<RunStep<F>>,
    k: int,
)
    requires
        pre.len() == results.len(),
        post.len() == results.len(),
        runs.len() == results.len() + 1,
        !runs[0].is_traced(),
        !runs[0].is_finished(),
        runs[0].next() + results.len() <= runs[0].batch().len() + 1,
        forall|j: int| 0 <= j < results.len() ==> #[trigger] plain_step_at(pre, post, runs, results, j),
        forall|j: int| 0 <= j < results.len() - 1 ==> #[trigger] only_scheduled_between(pre, post, j),
        0 <= k < results.len(),
        runs[0].next() + k <= runs[0].batch().len(),
    ensures
        !runs[k].is_traced(),
        !runs[k].is_finished(),
        runs[k].next() == runs[0].next() + k,
        runs[k].batch().len() == runs[0].batch().len(),
        forall|j: int| runs[k].next() <= j < runs[k].batch().len() ==> runs[k].batch()[j] == runs[0].batch()[j],
        pre[k].pass() == pre[0].pass(),
        queue_kept(pre[0].queue(), pre[k].queue()),
    decreases k,
{
    if k > 0 {
        lemma_pass_position(pre, post, runs, results, k - 1);
        assert(plain_step_at(pre, post, runs, results, k - 1));
        assert(only_scheduled_between(pre, post, k - 1));
    }
}

/// Step `k` of a traced run, as in `plain_step_at`.
pub open spec fn traced_step_at<F>(
    pre: Seq<Scheduler<F>>,
    post: Seq<Scheduler<F>>,
    runs: Seq<TaskRun<F>>,
    results: Seq<RunStep<F>>,
    k: int,
) -> bool {
    traced_outcome(pre[k], runs[k], post[k], runs[k + 1], results[k])
}

/// A traced level hands out the work of its nodes one per step, in the
/// order of the level, each node once, whatever the work schedules
/// meanwhile (those tasks join the next level), and the pass counter stays
/// put. Each node's work is the one it held when the level began.
pub proof fn law_traced_level_in_order<F>(
    pre: Seq<Scheduler<F>>,
    post: Seq<Scheduler<F>>,
    runs: Seq<TaskRun<F>>,
    results: Seq<RunStep<F>>,
)
    requires
        pre.len() == results.len(),
        post.len() == results.len(),
        runs.len() == results.len() + 1,
        forall|k: int| 0 <= k < runs.len() ==> (#[trigger] runs[k]).wf(),
        runs[0].is_traced(),
        !runs[0].is_finished(),
        runs[0].level_next() + results.len() <= runs[0].level().len(),
        forall|k: int| 0 <= k < results.len() ==> #[trigger] traced_step_at(pre, post, runs, results, k),
        forall|k: int| 0 <= k < results.len() - 1 ==> (#[trigger] pre[k + 1]).pass() == post[k].pass(),
    ensures
        forall|k: int|
            0 <= k < results.len() ==> #[trigger] results[k] == RunStep::Run(
                node_at(runs[0].nodes(), runs[0].level()[runs[0].level_next() + k] as int).task.task->0,
            ),
        forall|k: int| 0 <= k < results.len() ==> (#[trigger] post[k]).pass() == pre[0].pass(),
        forall|k: int|
            0 <= k < results.len() ==> (#[trigger] runs[k + 1]).running() == runs[0].level()[runs[0].level_next() + k],
{
    let n = results.len() as int;
    assert forall|k: int| 0 <= k < n implies #[trigger] results[k] == RunStep::Run(
        node_at(runs[0].nodes(), runs[0].level()[runs[0].level_next() + k] as int).task.task->0,
    ) && post[k].pass() == pre[0].pass() && runs[k + 1].running() == runs[0].level()[runs[0].level_next() + k] by {
        lemma_level_position(pre, post, runs, results, k);
        assert(traced_step_at(pre, post, runs, results, k));
        let id = runs[0].level()[runs[0].level_next() + k];
        let q = pre[k].queue();
        assert(runs[k].attached_nodes(q)[id - 1] == runs[k].nodes()[id - 1]);
    }
    assert forall|k: int| 0 <= k < n implies (#[trigger] post[k]).pass() == pre[0].pass() by {
        lemma_level_position(pre, post, runs, results, k);
        assert(traced_step_at(pre, post, runs, results, k));
    }
    assert forall|k: int| 0 <= k < n implies (#[trigger] runs[k + 1]).running() == runs[0].level()[runs[0].level_next() + k] by {
        lemma_level_position(pre, post, runs, results, k);
        assert(traced_step_at(pre, post, runs, results, k));
    }
}

proof fn lemma_level_position<F>(
    pre: Seq<Scheduler<F>>,
    post: Seq<Scheduler<F>>,
    runs: Seq<TaskRun<F>>,
    results: Seq<RunStep<F>>,
    k: int,
)
    requires
        pre.len() == results.len(),
        post.len() == results.len(),
        runs.len() == results.len() + 1,
        forall|j: int| 0 <= j < runs.len() ==> (#[trigger] runs[j]).wf(),
        runs[0].is_traced(),
        !runs[0].is_finished(),
        runs[0].level_next() + results.len() <= runs[0].level().len(),
        forall|j: int| 0 <= j < results.len() ==> #[trigger] traced_step_at(pre, post, runs, results, j),
        forall|j: int| 0 <= j < results.len() - 1 ==> (#[trigger] pre[j + 1]).pass() == post[j].pass(),
        0 <= k < results.len(),
    ensures
        runs[k].is_traced(),
        !runs[k].is_finished(),
        runs[k].level() == runs[0].level(),
        runs[k].level_next() == runs[0].level_next() + k,
        forall|j: int|
            runs[k].level_next() <= j < runs[k].level().len() ==> node_at(
                runs[k].nodes(),
                #[trigger] runs[k].level()[j] as int,
            ) == node_at(runs[0].nodes(), runs[0].level()[j] as int),
        pre[k].pass() == pre[0].pass(),
    decreases k,
{
    if k > 0 {
        lemma_level_position(pre, post, runs, results, k - 1);
        assert(traced_step_at(pre, post, runs, results, k - 1));
        assert(runs[k - 1].wf());
        assert(runs[k].wf());
        let r0 = runs[k - 1];
        let q = pre[k - 1].queue();
        let id = r0.level()[r0.level_next()];
        assert(r0.traced_wf());
        assert forall|j: int| runs[k].level_next() <= j < runs[k].level().len() implies node_at(
            runs[k].nodes(),
            #[trigger] runs[k].level()[j] as int,
        ) == node_at(runs[0].nodes(), runs[0].level()[j] as int) by {
            let x = r0.level()[j];
            assert(node_ok(r0.nodes(), r0.level()[j], r0.local_pass() - 1));
            assert(r0.level()[r0.level_next() as int] < x);
            assert(r0.attached_nodes(q)[x - 1] == r0.nodes()[x - 1]);
        }
        if k - 1 < results.len() - 1 {
            assert((pre[k]).pass() == post[k - 1].pass());
        }
    }
}

/// How many passes a run has started: its plain passes, then, once traced,
/// the `PLAIN_PASS_LIMIT + 1` plain ones and its traced levels.
pub open spec fn passes_made<F>(run: TaskRun<F>) -> int {
    if !run.is_traced() {
        run.local_pass() as int
    } else {
        PLAIN_PASS_LIMIT + 1 + run.local_pass()
    }
}

/// Every pass of a run gets the next pass number: if the scheduler's pass
/// counter is `base` plus the passes the run has started (as it is right
/// after `begin_run`, with `base` the counter before it), a step keeps it so.
/// A run starts at most `PLAIN_PASS_LIMIT + 1` plain passes and then at most
/// `TRACED_PASS_LIMIT - 1` traced levels; when it ends the counter has grown
/// by at most one more, the level that revealed a cycle.
pub proof fn law_step_counts_passes<F>(
    s0: Scheduler<F>,
    run0: TaskRun<F>,
    s1: Scheduler<F>,
    run1: TaskRun<F>,
    r: RunStep<F>,
    base: int,
)
    requires
        run0.wf(),
        run1.wf(),
        !run0.is_finished(),
        s0.pass() == base + passes_made(run0),
        !run0.is_traced() ==> plain_outcome(s0, run0, s1, run1, r),
        run0.is_traced() ==> traced_outcome(s0, run0, s1, run1, r),
    ensures
        !run1.is_finished() ==> s1.pass() == base + passes_made(run1),
        !run1.is_finished() ==> passes_made(run1) <= PLAIN_PASS_LIMIT + TRACED_PASS_LIMIT,
        run1.is_finished() ==> s1.pass() <= base + PLAIN_PASS_LIMIT + TRACED_PASS_LIMIT + 1,
{
}

/// Step `k` of a run, plain or traced as the run is.
pub open spec fn step_at<F>(
    pre: Seq<Scheduler<F>>,
    post: Seq<Scheduler<F>>,
    runs: Seq<TaskRun<F>>,
    results: Seq<RunStep<F>>,
    k: int,
) -> bool {
    &&& !runs[k].is_traced() ==> plain_outcome(pre[k], runs[k], post[k], runs[k + 1], results[k])
    &&& runs[k].is_traced() ==> traced_outcome(pre[k], runs[k], post[k], runs[k + 1], results[k])
}

/// Over a whole run the pass counter numbers the passes: with `base` the
/// counter before `begin_run`, the work handed out by each step runs while
/// the counter is `base` plus the passes started so far (plain passes, then
/// traced levels), whatever the work schedules in between; it never goes
/// past `base + PLAIN_PASS_LIMIT + TRACED_PASS_LIMIT`, and a run that ends
/// leaves it at most one higher.
pub proof fn law_run_numbers_its_passes<F>(
    pre: Seq<Scheduler<F>>,
    post: Seq<Scheduler<F>>,
    runs: Seq<TaskRun<F>>,
    results: Seq<RunStep<F>>,
    base: int,
)
    requires
        pre.len() == results.len(),
        post.len() == results.len(),
        runs.len() == results.len() + 1,
        forall|k: int| 0 <= k < runs.len() ==> (#[trigger] runs[k]).wf(),
        forall|k: int| 0 <= k < results.len() ==> !(#[trigger] runs[k]).is_finished(),
        pre.len() > 0 ==> pre[0].pass() == base + passes_made(runs[0]),
        forall|k: int| 0 <= k < results.len() ==> #[trigger] step_at(pre, post, runs, results, k),
        forall|k: int| 0 <= k < results.len() - 1 ==> (#[trigger] pre[k + 1]).pass() == post[k].pass(),
    ensures
        forall|k: int| 0 <= k < results.len() ==> (#[trigger] pre[k]).pass() == base + passes_made(runs[k]),
        forall|k: int|
            0 <= k < results.len() && !runs[k + 1].is_finished() ==> (#[trigger] post[k]).pass() == base
                + passes_made(runs[k + 1]) && passes_made(runs[k + 1]) <= PLAIN_PASS_LIMIT + TRACED_PASS_LIMIT,
        forall|k: int| 0 <= k < results.len() ==> (#[trigger] post[k]).pass() <= base + PLAIN_PASS_LIMIT
            + TRACED_PASS_LIMIT + 1,
{
    assert forall|k: int| 0 <= k < results.len() implies (#[trigger] pre[k]).pass() == base + passes_made(runs[k]) by {
        lemma_run_pass(pre, post, runs, results, base, k);
    }
    assert forall|k: int| 0 <= k < results.len() implies {
        &&& !runs[k + 1].is_finished() ==> (#[trigger] post[k]).pass() == base + passes_made(runs[k + 1])
            && passes_made(runs[k + 1]) <= PLAIN_PASS_LIMIT + TRACED_PASS_LIMIT
        &&& post[k].pass() <= base + PLAIN_PASS_LIMIT + TRACED_PASS_LIMIT + 1
    } by {
        lemma_run_pass(pre, post, runs, results, base, k);
        assert(step_at(pre, post, runs, results, k));
        assert(runs[k].wf() && runs[k + 1].wf() && !runs[k].is_finished());
        law_step_counts_passes(pre[k], runs[k], post[k], runs[k + 1], results[k], base);
    }
}

proof fn lemma_run_pass<F>(
    pre: Seq<Scheduler<F>>,
    post: Seq<Scheduler<F>>,
    runs: Seq<TaskRun<F>>,
    results: Seq<RunStep<F>>,
    base: int,
    k: int,
)
    requires
        pre.len() == results.len(),
        post.len() == results.len(),
        runs.len() == results.len() + 1,
        forall|j: int| 0 <= j < runs.len() ==> (#[trigger] runs[j]).wf(),
        forall|j: int| 0 <= j < results.len() ==> !(#[trigger] runs[j]).is_finished(),
        pre.len() > 0 ==> pre[0].pass() == base + passes_made(runs[0]),
        forall|j: int| 0 <= j < results.len() ==> #[trigger] step_at(pre, post, runs, results, j),
        forall|j: int| 0 <= j < results.len() - 1 ==> (#[trigger] pre[j + 1]).pass() == post[j].pass(),
        0 <= k < results.len(),
    ensures
        pre[k].pass() == base + passes_made(runs[k]),
    decreases k,
{
    if k > 0 {
        lemma_run_pass(pre, post, runs, results, base, k - 1);
        assert(step_at(pre, post, runs, results, k - 1));
        assert(runs[k - 1].wf() && runs[k].wf() && !runs[k - 1].is_finished() && !runs[k].is_finished());
        law_step_counts_passes(pre[k - 1], runs[k - 1], post[k - 1], runs[k], results[k - 1], base);
        assert(pre[(k - 1) + 1].pass() == post[k - 1].pass());
    }
}

/// Whether a run is requested depends on the frames alone: scheduling
/// into two schedulers that stand at the same frame gives the same answer,
/// whatever their queues hold, and a request is made exactly when the
/// scheduler's frame is below the current one, which it then reaches.
pub proof fn law_run_request_depends_on_frame_only<F>(
    s0: Scheduler<F>,
    t0: Scheduler<F>,
    task: F,
    other: F,
    location: TaskLocation,
    other_location: TaskLocation,
    current_frame: u64,
    s1: Scheduler<F>,
    t1: Scheduler<F>,
    r_s: bool,
    r_t: bool,
)
    requires
        s0.frame() == t0.frame(),
        schedule_effect(s0, task, location, current_frame, s1, r_s),
        schedule_effect(t0, other, other_location, current_frame, t1, r_t),
    ensures
        r_s == r_t,
        r_s <==> s0.frame() < current_frame,
        s1.frame() >= current_frame,
        s1.frame() == t1.frame(),
{
}

/// Once a run was requested in a frame, no later scheduling in that frame
/// (or an earlier one) requests another, whatever happened in between (a run
/// begun, steps taken, the queue emptied), as long as the frame stands.
pub proof fn law_no_second_request_in_a_frame<F>(
    s0: Scheduler<F>,
    s1: Scheduler<F>,
    s2: Scheduler<F>,
    s3: Scheduler<F>,
    t1: F,
    t2: F,
    l1: TaskLocation,
    l2: TaskLocation,
    frame: u64,
    later: u64,
    r1: bool,
    r2: bool,
)
    requires
        schedule_effect(s0, t1, l1, frame, s1, r1),
        s2.frame() == s1.frame(),
        later <= frame,
        schedule_effect(s2, t2, l2, later, s3, r2),
    ensures
        !r2,
        s3.frame() == s1.frame(),
{
}

/// When a pass ends with tasks queued, the new pass hands out every one of
/// them, one per step, in the order they were queued, under the next pass
/// number, whatever the work schedules meanwhile: step `k` from the end of
/// the pass hands out `q[k]`, with `q` the queue when the pass ended.
pub proof fn law_new_pass_runs_whole_queue<F>(
    pre: Seq<Scheduler<F>>,
    post: Seq<Scheduler<F>>,
    runs: Seq<TaskRun<F>>,
    results: Seq<RunStep<F>>,
)
    requires
        pre.len() == results.len(),
        post.len() == results.len(),
        runs.len() == results.len() + 1,
        forall|k: int| 0 <= k < runs.len() ==> (#[trigger] runs[k]).wf(),
        !runs[0].is_traced(),
        !runs[0].is_finished(),
        runs[0].next() == runs[0].batch().len(),
        runs[0].local_pass() <= PLAIN_PASS_LIMIT,
        results.len() >= 1,
        all_pending(pre[0].queue()),
        results.len() <= pre[0].queue().len(),
        forall|k: int| 0 <= k < results.len() ==> #[trigger] plain_step_at(pre, post, runs, results, k),
        forall|k: int| 0 <= k < results.len() - 1 ==> #[trigger] only_scheduled_between(pre, post, k),
    ensures
        forall|k: int| 0 <= k < results.len() ==> #[trigger] results[k] == RunStep::Run(pre[0].queue()[k].task->0),
        forall|k: int| 0 <= k < results.len() ==> (#[trigger] post[k]).pass() == pre[0].pass() + 1,
{
    let n = results.len() as int;
    if n > 0 {
        let q = pre[0].queue();
        assert(plain_step_at(pre, post, runs, results, 0));
        assert(runs[1].wf());
        let pre1 = pre.subrange(1, n);
        let post1 = post.subrange(1, n);
        let runs1 = runs.subrange(1, n + 1);
        let results1 = results.subrange(1, n);
        assert forall|k: int| 0 <= k < results1.len() implies #[trigger] plain_step_at(
            pre1,
            post1,
            runs1,
            results1,
            k,
        ) by {
            assert(plain_step_at(pre, post, runs, results, k + 1));
        }
        assert forall|k: int| 0 <= k < results1.len() - 1 implies #[trigger] only_scheduled_between(
            pre1,
            post1,
            k,
        ) by {
            assert(only_scheduled_between(pre, post, k + 1));
        }
        if n > 1 {
            assert(only_scheduled_between(pre, post, 0));
        }
        law_plain_pass_in_queue_order(pre1, post1, runs1, results1);
        assert forall|k: int| 0 <= k < n implies #[trigger] results[k] == RunStep::Run(q[k].task->0) && post[k].pass()
            == pre[0].pass() + 1 by {
            if k > 0 {
                assert(results1[k - 1] == results[k]);
                assert(post1[k - 1] == post[k]);
                assert(runs1[0].batch()[runs1[0].next() + (k - 1)] == q.update(0, without_work(q[0]))[k]);
            }
        }
        assert forall|k: int| 0 <= k < n implies (#[trigger] post[k]).pass() == pre[0].pass() + 1 by {
            if k > 0 {
                assert(post1[k - 1] == post[k]);
                assert(post1[k - 1].pass() == pre1[0].pass());
            }
        }
    }
}

} // verus!
