use vstd::prelude::*;
use crate::queue::{Disconnected, JobQueue, QueueView, Received};

verus! {

/// Where one worker stands in its loop.
#[derive(PartialEq, Eq, Structural, Clone, Copy, Debug)]
pub enum WorkerState {
    /// Waiting for the next job.
    Waiting,
    /// Running a job it took from the queue.
    Executing,
    /// Its loop has ended, the pool having been released and drained; it no
    /// longer holds the receiving side.
    Stopped,
}

/// Whether a worker in state `w` still holds the receiving side.
pub open spec fn is_live(w: WorkerState) -> bool {
    w != WorkerState::Stopped
}

/// How many of the workers `s` still hold the receiving side.
pub open spec fn live_count(s: Seq<WorkerState>) -> nat
    decreases s.len(),
{
    if s.len() == 0 {
        0
    } else {
        live_count(s.drop_last()) + if is_live(s.last()) {
            1nat
        } else {
            0nat
        }
    }
}

/// Changing one worker's state changes the live count by that worker alone.
proof fn lemma_live_count_update(s: Seq<WorkerState>, i: int, w: WorkerState)
    requires
        0 <= i < s.len(),
    ensures
        live_count(s.update(i, w)) + (if is_live(s[i]) {
            1int
        } else {
            0int
        }) == live_count(s) + (if is_live(w) {
            1int
        } else {
            0int
        }),
    decreases s.len(),
{
    let t = s.update(i, w);
    if i == s.len() - 1 {
        assert(t.drop_last() =~= s.drop_last());
    } else {
        assert(t.drop_last() =~= s.drop_last().update(i, w));
        lemma_live_count_update(s.drop_last(), i, w);
    }
}

/// No worker of `s` is live exactly when the live count is zero.
pub proof fn lemma_live_count_zero(s: Seq<WorkerState>)
    ensures
        (live_count(s) == 0) <==> (forall|i: int| 0 <= i < s.len() ==> !is_live(#[trigger] s[i])),
    decreases s.len(),
{
    if s.len() > 0 {
        lemma_live_count_zero(s.drop_last());
        if live_count(s) == 0 {
            assert forall|i: int| 0 <= i < s.len() implies !is_live(#[trigger] s[i]) by {
                if i < s.len() - 1 {
                    assert(s[i] == s.drop_last()[i]);
                }
            }
        } else if forall|i: int| 0 <= i < s.len() ==> !is_live(#[trigger] s[i]) {
            assert forall|i: int| 0 <= i < s.drop_last().len() implies !is_live(
                #[trigger] s.drop_last()[i],
            ) by {
                assert(s.drop_last()[i] == s[i]);
            }
            assert(!is_live(s[s.len() - 1]));
        }
    }
}

/// The abstract state of a pool.
pub struct PoolView<J> {
    /// The job queue that the workers share.
    pub queue: QueueView<J>,
    /// Each worker's state, indexed by worker id.
    pub workers: Seq<WorkerState>,
    /// For each job handed out so far, in the order sent, the id of the one
    /// worker that received it.
    pub taken_by: Seq<nat>,
    /// How many jobs have faulted while running; each fault was caught and
    /// its worker went on serving the queue.
    pub faults: nat,
}

/// One call made on a pool, by a producer or by a worker.
pub enum Step<J> {
    /// A producer submits a job.
    Submit(J),
    /// The worker with this id asks for its next job.
    Take(nat),
    /// The worker with this id is done with its job, which faulted or not.
    Finish(nat, bool),
    /// The pool is released.
    Release,
}

impl<J> PoolView<J> {
    /// What holds of every state a pool can reach: at least one worker, one
    /// receiver per live worker, no more jobs handed out than sent, one
    /// recorded worker for each job handed out, and no worker stopped while
    /// the pool is open.
    pub open spec fn inv(self) -> bool {
        &&& self.workers.len() > 0
        &&& self.queue.received <= self.queue.sent.len()
        &&& self.queue.receivers == live_count(self.workers)
        &&& self.taken_by.len() == self.queue.received
        &&& forall|k: int|
            0 <= k < self.taken_by.len() ==> #[trigger] self.taken_by[k] < self.workers.len()
        &&& self.queue.sender_open ==> forall|i: int|
            0 <= i < self.workers.len() ==> is_live(#[trigger] self.workers[i])
    }

    /// Whether `st` may be made now: a worker asks for a job only while
    /// waiting, and reports one finished only while executing it.
    pub open spec fn enabled(self, st: Step<J>) -> bool {
        match st {
            Step::Submit(_) => true,
            Step::Take(id) => id < self.workers.len() && self.workers[id as int]
                == WorkerState::Waiting,
            Step::Finish(id, _) => id < self.workers.len() && self.workers[id as int]
                == WorkerState::Executing,
            Step::Release => true,
        }
    }

    /// The state after `st`.
    pub open spec fn after(self, st: Step<J>) -> PoolView<J> {
        match st {
            Step::Submit(job) => if self.queue.receivers > 0 {
                PoolView { queue: QueueView { sent: self.queue.sent.push(job), ..self.queue }, ..self }
            } else {
                self
            },
            Step::Take(id) => if self.queue.pending().len() > 0 {
                PoolView {
                    queue: QueueView { received: self.queue.received + 1, ..self.queue },
                    workers: self.workers.update(id as int, WorkerState::Executing),
                    taken_by: self.taken_by.push(id),
                    ..self
                }
            } else if self.queue.sender_open {
                self
            } else {
                PoolView {
                    queue: QueueView { receivers: (self.queue.receivers - 1) as nat, ..self.queue },
                    workers: self.workers.update(id as int, WorkerState::Stopped),
                    ..self
                }
            },
            Step::Finish(id, faulted) => PoolView {
                workers: self.workers.update(id as int, WorkerState::Waiting),
                faults: if faulted {
                    self.faults + 1
                } else {
                    self.faults
                },
                ..self
            },
            Step::Release => PoolView { queue: QueueView { sender_open: false, ..self.queue }, ..self },
        }
    }
}

/// Whether each of `steps` is enabled in turn, starting from `v`.
pub open spec fn runnable<J>(v: PoolView<J>, steps: Seq<Step<J>>) -> bool
    decreases steps.len(),
{
    steps.len() == 0 || (v.enabled(steps[0]) && runnable(v.after(steps[0]), steps.skip(1)))
}

/// The state reached from `v` by `steps`.
pub open spec fn run<J>(v: PoolView<J>, steps: Seq<Step<J>>) -> PoolView<J>
    decreases steps.len(),
{
    if steps.len() == 0 {
        v
    } else {
        run(v.after(steps[0]), steps.skip(1))
    }
}

/// The jobs that `steps` submit, in the order submitted.
pub open spec fn submissions<J>(steps: Seq<Step<J>>) -> Seq<J>
    decreases steps.len(),
{
    if steps.len() == 0 {
        Seq::empty()
    } else {
        match steps[0] {
            Step::Submit(job) => seq![job] + submissions(steps.skip(1)),
            _ => submissions(steps.skip(1)),
        }
    }
}

/// The dispatch state of a fixed-size worker pool: the shared job queue, the
/// state of each worker, and which worker took which job.
pub struct PoolState<J> {
    queue: JobQueue<J>,
    workers: Vec<WorkerState>,
    taken_by: Ghost<Seq<nat>>,
    faults: Ghost<nat>,
}

impl<J> View for PoolState<J> {
    type V = PoolView<J>;

    closed spec fn view(&self) -> PoolView<J> {
        PoolView {
            queue: self.queue@,
            workers: self.workers@,
            taken_by: self.taken_by@,
            faults: self.faults@,
        }
    }
}

impl<J> PoolState<J> {
    /// The pool's invariant: its queue is sound and its state satisfies `inv`.
    pub closed spec fn wf(&self) -> bool {
        &&& self.queue.wf()
        &&& self@.inv()
    }

    /// Whether a job submitted now would be accepted.
    pub open spec fn accepts_jobs(&self) -> bool {
        self@.queue.receivers > 0
    }

    /// A pool of `size` workers, all waiting, over an empty queue that each of
    /// them receives from.
    pub fn new(size: usize) -> (p: Self)
        requires
            size > 0,
        ensures
            p.wf(),
            p@.workers.len() == size,
            forall|i: int| 0 <= i < size ==> #[trigger] p@.workers[i] == WorkerState::Waiting,
            p@.queue.sent == Seq::<J>::empty(),
            p@.queue.received == 0,
            p@.queue.sender_open,
            p@.queue.receivers == size,
            p@.taken_by == Seq::<nat>::empty(),
            p@.faults == 0,
    {
        let mut workers: Vec<WorkerState> = Vec::with_capacity(size);
        let mut id: usize = 0;
        while id < size
            invariant
                id <= size,
                workers@.len() == id,
                live_count(workers@) == id,
                forall|i: int| 0 <= i < id ==> #[trigger] workers@[i] == WorkerState::Waiting,
            decreases size - id,
        {
            proof {
                assert(workers@.push(WorkerState::Waiting).drop_last() =~= workers@);
            }
            workers.push(WorkerState::Waiting);
            id = id + 1;
        }
        PoolState {
            queue: JobQueue::new(size),
            workers,
            taken_by: Ghost(Seq::empty()),
            faults: Ghost(0),
        }
    }

    /// Hands `job` to the queue; fails, giving it back, once no worker is left to run it.
    pub fn submit(&mut self, job: J) -> (r: Result<(), Disconnected<J>>)
        requires
            old(self).wf(),
        ensures
            final(self).wf(),
            r is Ok <==> old(self).accepts_jobs(),
            !old(self).accepts_jobs() ==> r == Err::<(), Disconnected<J>>(Disconnected(job)),
            final(self)@ == old(self)@.after(Step::Submit(job)),
    {
        proof {
            self.queue.lemma_received_within_sent();
        }
        self.queue.send(job)
    }

    /// Worker `id`, waiting, asks for its next job. It gets the head of the
    /// queue and starts executing it; or, with nothing pending, it keeps
    /// waiting while the pool is open, and stops (letting go of the queue)
    /// once the pool has been released.
    pub fn next_job(&mut self, id: usize) -> (r: Received<J>)
        requires
            old(self).wf(),
            id < old(self)@.workers.len(),
            old(self)@.workers[id as int] == WorkerState::Waiting,
        ensures
            final(self).wf(),
            old(self)@.queue.pending().len() > 0 ==> r == Received::Job(
                old(self)@.queue.pending()[0],
            ),
            old(self)@.queue.pending().len() == 0 && old(self)@.queue.sender_open ==> r is Empty,
            old(self)@.queue.pending().len() == 0 && !old(self)@.queue.sender_open ==> r is Closed,
            final(self)@ == old(self)@.after(Step::Take(id as nat)),
    {
        proof {
            self.queue.lemma_received_within_sent();
            lemma_live_count_update(self.workers@, id as int, WorkerState::Executing);
            lemma_live_count_update(self.workers@, id as int, WorkerState::Stopped);
        }
        let r = self.queue.receive();
        match r {
            Received::Job(_) => {
                self.workers.set(id, WorkerState::Executing);
                self.taken_by = Ghost(self.taken_by@.push(id as nat));
            },
            Received::Empty => {},
            Received::Closed => {
                self.queue.release_receiver();
                self.workers.set(id, WorkerState::Stopped);
            },
        }
        r
    }

    /// Worker `id` is done with its job and goes back to waiting. A job that
    /// faulted is counted, and its worker serves the queue as before: a fault
    /// never costs the pool a worker.
    pub fn job_finished(&mut self, id: usize, faulted: bool)
        requires
            old(self).wf(),
            id < old(self)@.workers.len(),
            old(self)@.workers[id as int] == WorkerState::Executing,
        ensures
            final(self).wf(),
            final(self)@ == old(self)@.after(Step::Finish(id as nat, faulted)),
    {
        proof {
            self.queue.lemma_received_within_sent();
            lemma_live_count_update(self.workers@, id as int, WorkerState::Waiting);
        }
        self.workers.set(id, WorkerState::Waiting);
        if faulted {
            self.faults = Ghost(self.faults@ + 1);
        }
    }

    /// The pool is released: no further job will be sent, and each worker
    /// stops once the queue has drained.
    pub fn release(&mut self)
        requires
            old(self).wf(),
        ensures
            final(self).wf(),
            final(self)@ == old(self)@.after(Step::Release),
    {
        proof {
            self.queue.lemma_received_within_sent();
        }
        self.queue.close();
    }

    /// The number of workers the pool was built with.
    pub fn size(&self) -> (n: usize)
        ensures
            n == self@.workers.len(),
    {
        self.workers.len()
    }

    /// The number of workers whose loop has not ended.
    pub fn live_workers(&self) -> (n: usize)
        requires
            self.wf(),
        ensures
            n == live_count(self@.workers),
    {
        self.queue.receivers()
    }

    /// The state of worker `id`.
    pub fn worker_state(&self, id: usize) -> (w: WorkerState)
        requires
            id < self@.workers.len(),
        ensures
            w == self@.workers[id as int],
    {
        self.workers[id]
    }

    /// How many submitted jobs no worker has taken yet.
    pub fn pending_len(&self) -> (n: usize)
        requires
            self.wf(),
        ensures
            n == self@.queue.pending().len(),
    {
        self.queue.pending_len()
    }

    /// Whether the pool has been released.
    pub fn is_released(&self) -> (b: bool)
        ensures
            b == !self@.queue.sender_open,
    {
        !self.queue.sender_open()
    }
}

/// Every submitted job is accounted for exactly once, whatever the order in
/// which producers submitted and workers took jobs: it was handed to exactly
/// one worker, or it still waits in the queue at its place in submission
/// order, never both. Once the pool is released and its queue has drained,
/// every submitted job has been handed to a worker.
pub proof fn lemma_each_job_once<J>(p: &PoolState<J>)
    requires
        p.wf(),
    ensures
        p@.taken_by.len() <= p@.queue.sent.len(),
        p@.queue.pending().len() == p@.queue.sent.len() - p@.taken_by.len(),
        forall|k: int|
            0 <= k < p@.taken_by.len() ==> #[trigger] p@.taken_by[k] < p@.workers.len(),
        forall|k: int|
            p@.taken_by.len() <= k < p@.queue.sent.len() ==> p@.queue.pending()[k
                - p@.taken_by.len()] == #[trigger] p@.queue.sent[k],
        !p@.queue.sender_open && p@.queue.pending().len() == 0 ==> p@.taken_by.len()
            == p@.queue.sent.len(),
{
    p.queue.lemma_received_within_sent();
}

/// Once every worker has stopped (the pool was released and its queue
/// drained), no worker is left to run a job: submitting fails with
/// `Disconnected`.
pub proof fn lemma_drained_pool_disconnects<J>(p: &PoolState<J>)
    requires
        p.wf(),
        forall|i: int| 0 <= i < p@.workers.len() ==> #[trigger] p@.workers[i]
            == WorkerState::Stopped,
    ensures
        !p.accepts_jobs(),
{
    lemma_live_count_zero(p@.workers);
}

/// While the pool is open its capacity is whole, whatever jobs were
/// submitted, taken, finished or faulted before: every one of its workers is
/// waiting or executing, each still holds the receiving side, and a job
/// submitted now is accepted.
pub proof fn lemma_open_pool_keeps_every_worker<J>(p: &PoolState<J>)
    requires
        p.wf(),
        p@.queue.sender_open,
    ensures
        forall|i: int|
            0 <= i < p@.workers.len() ==> (#[trigger] p@.workers[i] == WorkerState::Waiting
                || p@.workers[i] == WorkerState::Executing),
        live_count(p@.workers) == p@.workers.len(),
        p.accepts_jobs(),
{
    lemma_live_count_all_live(p@.workers);
}

/// When every worker of `s` is live, all of them count.
proof fn lemma_live_count_all_live(s: Seq<WorkerState>)
    requires
        forall|i: int| 0 <= i < s.len() ==> is_live(#[trigger] s[i]),
    ensures
        live_count(s) == s.len(),
    decreases s.len(),
{
    if s.len() > 0 {
        assert forall|i: int| 0 <= i < s.drop_last().len() implies is_live(
            #[trigger] s.drop_last()[i],
        ) by {
            assert(s.drop_last()[i] == s[i]);
        }
        lemma_live_count_all_live(s.drop_last());
        assert(is_live(s[s.len() - 1]));
    }
}

/// Every call a pool admits keeps its invariant.
pub proof fn lemma_step_keeps_inv<J>(v: PoolView<J>, st: Step<J>)
    requires
        v.inv(),
        v.enabled(st),
    ensures
        v.after(st).inv(),
        v.after(st).workers.len() == v.workers.len(),
{
    match st {
        Step::Take(id) => {
            lemma_live_count_update(v.workers, id as int, WorkerState::Executing);
            lemma_live_count_update(v.workers, id as int, WorkerState::Stopped);
            let w = v.after(st);
            if v.queue.pending().len() > 0 {
                assert forall|k: int| 0 <= k < w.taken_by.len() implies #[trigger] w.taken_by[k]
                    < w.workers.len() by {
                    if k < v.taken_by.len() {
                        assert(w.taken_by[k] == v.taken_by[k]);
                    }
                }
            }
        },
        Step::Finish(id, _) => {
            lemma_live_count_update(v.workers, id as int, WorkerState::Waiting);
        },
        _ => {},
    }
}

/// However producers' submissions, workers' takes and finishes and the
/// release interleave, every state reached keeps the invariant: each
/// submitted job is handed to one recorded worker or still pending in order
/// (see `lemma_each_job_once`), the pool keeps its size, and while it is
/// open none of its workers is lost.
pub proof fn lemma_run_keeps_inv<J>(v: PoolView<J>, steps: Seq<Step<J>>)
    requires
        v.inv(),
        runnable(v, steps),
    ensures
        run(v, steps).inv(),
        run(v, steps).workers.len() == v.workers.len(),
    decreases steps.len(),
{
    if steps.len() > 0 {
        lemma_step_keeps_inv(v, steps[0]);
        lemma_run_keeps_inv(v.after(steps[0]), steps.skip(1));
    }
}

/// While the pool is open, the jobs that any interleaving of producers
/// submits, mixed with any takes and finishes of the workers, all reach the
/// queue, each once, in the order the submissions happened: none is lost,
/// dropped or duplicated.
pub proof fn lemma_open_run_queues_every_submission<J>(v: PoolView<J>, steps: Seq<Step<J>>)
    requires
        v.inv(),
        v.queue.sender_open,
        runnable(v, steps),
        forall|i: int| 0 <= i < steps.len() ==> !(#[trigger] steps[i] is Release),
    ensures
        run(v, steps).queue.sent == v.queue.sent + submissions(steps),
        run(v, steps).queue.sender_open,
    decreases steps.len(),
{
    if steps.len() == 0 {
        assert(v.queue.sent + Seq::<J>::empty() =~= v.queue.sent);
    } else {
        let st = steps[0];
        let rest = steps.skip(1);
        lemma_step_keeps_inv(v, st);
        lemma_live_count_all_live(v.workers);
        assert forall|i: int| 0 <= i < rest.len() implies !(#[trigger] rest[i] is Release) by {
            assert(rest[i] == steps[i + 1]);
        }
        lemma_open_run_queues_every_submission(v.after(st), rest);
        match st {
            Step::Submit(job) => {
                assert(v.queue.sent.push(job) + submissions(rest) =~= v.queue.sent + (seq![job]
                    + submissions(rest)));
            },
            _ => {},
        }
    }
}

/// A worker that is executing a job takes no other job until it reports
/// that one finished, whatever the other workers and the producers do
/// meanwhile: a worker runs one job at a time.
pub proof fn lemma_busy_worker_takes_nothing<J>(v: PoolView<J>, steps: Seq<Step<J>>, w: nat)
    requires
        w < v.workers.len(),
        v.workers[w as int] == WorkerState::Executing,
        runnable(v, steps),
        forall|i: int| 0 <= i < steps.len() ==> !(#[trigger] steps[i] matches Step::Finish(id, _)
            && id == w),
    ensures
        run(v, steps).workers.len() == v.workers.len(),
        run(v, steps).workers[w as int] == WorkerState::Executing,
        v.taken_by.len() <= run(v, steps).taken_by.len(),
        run(v, steps).taken_by.subrange(0, v.taken_by.len() as int) == v.taken_by,
        forall|k: int|
            v.taken_by.len() <= k < run(v, steps).taken_by.len() ==> #[trigger] run(
                v,
                steps,
            ).taken_by[k] != w,
    decreases steps.len(),
{
    if steps.len() == 0 {
        assert(v.taken_by.subrange(0, v.taken_by.len() as int) =~= v.taken_by);
    } else {
        let st = steps[0];
        let rest = steps.skip(1);
        let u = v.after(st);
        assert(!(steps[0] matches Step::Finish(id, _) && id == w));
        assert forall|i: int| 0 <= i < rest.len() implies !(#[trigger] rest[i] matches Step::Finish(
            id,
            _,
        ) && id == w) by {
            assert(rest[i] == steps[i + 1]);
        }
        assert(u.workers.len() == v.workers.len());
        assert(u.workers[w as int] == WorkerState::Executing);
        lemma_busy_worker_takes_nothing(u, rest, w);
        let r = run(u, rest);
        assert(u.taken_by.len() <= v.taken_by.len() + 1);
        assert(u.taken_by.subrange(0, v.taken_by.len() as int) =~= v.taken_by);
        assert(r.taken_by.subrange(0, v.taken_by.len() as int) =~= v.taken_by) by {
            assert(r.taken_by.subrange(0, u.taken_by.len() as int) == u.taken_by);
            assert forall|k: int| 0 <= k < v.taken_by.len() implies r.taken_by[k] == v.taken_by[k] by {
                assert(r.taken_by.subrange(0, u.taken_by.len() as int)[k] == u.taken_by[k]);
                assert(u.taken_by.subrange(0, v.taken_by.len() as int)[k] == v.taken_by[k]);
            }
        }
        assert forall|k: int| v.taken_by.len() <= k < r.taken_by.len() implies #[trigger] r.taken_by[k]
            != w by {
            if k < u.taken_by.len() {
                assert(r.taken_by.subrange(0, u.taken_by.len() as int)[k] == u.taken_by[k]);
            }
        }
    }
}

/// Worker `w` taking and finishing `n` jobs in a row.
pub open spec fn serve_steps<J>(w: nat, n: nat) -> Seq<Step<J>>
    decreases n,
{
    if n == 0 {
        Seq::empty()
    } else {
        seq![Step::Take(w), Step::Finish(w, false)] + serve_steps(w, (n - 1) as nat)
    }
}

/// No submitted job is left behind: from any state, a single waiting worker
/// can take and run, one after another, every job pending, after which all
/// jobs ever submitted have been handed out, the last ones to that worker.
pub proof fn lemma_waiting_worker_drains_queue<J>(v: PoolView<J>, w: nat, n: nat)
    requires
        v.inv(),
        w < v.workers.len(),
        v.workers[w as int] == WorkerState::Waiting,
        n <= v.queue.pending().len(),
    ensures
        runnable(v, serve_steps(w, n)),
        run(v, serve_steps(w, n)).inv(),
        run(v, serve_steps(w, n)).queue.sent == v.queue.sent,
        run(v, serve_steps(w, n)).queue.received == v.queue.received + n,
        run(v, serve_steps(w, n)).workers[w as int] == WorkerState::Waiting,
        forall|k: int|
            v.taken_by.len() <= k < run(v, serve_steps(w, n)).taken_by.len() ==> #[trigger] run(
                v,
                serve_steps(w, n),
            ).taken_by[k] == w,
        n == v.queue.pending().len() ==> run(v, serve_steps(w, n)).queue.received
            == v.queue.sent.len(),
    decreases n,
{
    let steps = serve_steps::<J>(w, n);
    if n == 0 {
    } else {
        let rest = serve_steps::<J>(w, (n - 1) as nat);
        let u1 = v.after(Step::Take(w));
        let u2 = u1.after(Step::Finish(w, false));
        lemma_step_keeps_inv(v, Step::Take(w));
        lemma_step_keeps_inv(u1, Step::Finish(w, false));
        let mid = steps.skip(1);
        assert(steps[0] == Step::<J>::Take(w));
        assert(mid =~= seq![Step::<J>::Finish(w, false)] + rest);
        assert(mid[0] == Step::<J>::Finish(w, false));
        assert(mid.skip(1) =~= rest);
        assert(v.queue.pending().len() > 0);
        assert(u1.workers[w as int] == WorkerState::Executing);
        assert(u2.queue.pending().len() == v.queue.pending().len() - 1);
        lemma_waiting_worker_drains_queue(u2, w, (n - 1) as nat);
        assert(runnable(u1, mid));
        assert(run(u1, mid) == run(u2, rest));
        assert(run(v, steps) == run(u2, rest));
        let r = run(u2, rest);
        assert forall|k: int| v.taken_by.len() <= k < r.taken_by.len() implies #[trigger] r.taken_by[k]
            == w by {
            if k >= u2.taken_by.len() {
            } else {
                assert(k == v.taken_by.len());
                lemma_run_prefix_taken_by(u2, rest);
                assert(r.taken_by.subrange(0, u2.taken_by.len() as int)[k] == u2.taken_by[k]);
            }
        }
    }
}

/// A run only appends to the record of who took which job.
pub proof fn lemma_run_prefix_taken_by<J>(v: PoolView<J>, steps: Seq<Step<J>>)
    requires
        v.inv(),
        runnable(v, steps),
    ensures
        v.taken_by.len() <= run(v, steps).taken_by.len(),
        run(v, steps).taken_by.subrange(0, v.taken_by.len() as int) == v.taken_by,
    decreases steps.len(),
{
    if steps.len() == 0 {
        assert(v.taken_by.subrange(0, v.taken_by.len() as int) =~= v.taken_by);
    } else {
        let u = v.after(steps[0]);
        lemma_step_keeps_inv(v, steps[0]);
        lemma_run_prefix_taken_by(u, steps.skip(1));
        let r = run(u, steps.skip(1));
        assert(u.taken_by.subrange(0, v.taken_by.len() as int) =~= v.taken_by);
        assert forall|k: int| 0 <= k < v.taken_by.len() implies r.taken_by[k] == v.taken_by[k] by {
            assert(r.taken_by.subrange(0, u.taken_by.len() as int)[k] == u.taken_by[k]);
            assert(u.taken_by.subrange(0, v.taken_by.len() as int)[k] == v.taken_by[k]);
        }
        assert(r.taken_by.subrange(0, v.taken_by.len() as int) =~= v.taken_by);
    }
}

/// Workers `i` up to `n`, excluded, each asking for a job, in id order.
pub open spec fn takes_from<J>(i: nat, n: nat) -> Seq<Step<J>>
    decreases n - i,
{
    if i >= n {
        Seq::empty()
    } else {
        seq![Step::Take(i)] + takes_from((i + 1) as nat, n)
    }
}

/// A pool's workers run truly side by side: when workers `i` up to `n` are
/// all waiting and at least as many jobs are pending, each of them takes a
/// job in turn, and afterwards all of them are executing at once. From a new
/// pool of `size` workers (`i == 0`, `n == size`) that is `size` jobs running
/// together.
pub proof fn lemma_waiting_workers_run_together<J>(v: PoolView<J>, i: nat, n: nat)
    requires
        v.inv(),
        i <= n <= v.workers.len(),
        forall|j: int| i <= j < n ==> #[trigger] v.workers[j] == WorkerState::Waiting,
        n - i <= v.queue.pending().len(),
    ensures
        runnable(v, takes_from(i, n)),
        run(v, takes_from(i, n)).inv(),
        run(v, takes_from(i, n)).workers.len() == v.workers.len(),
        forall|j: int| i <= j < n ==> #[trigger] run(v, takes_from(i, n)).workers[j]
            == WorkerState::Executing,
        forall|j: int|
            0 <= j < v.workers.len() && !(i <= j < n) ==> #[trigger] run(
                v,
                takes_from(i, n),
            ).workers[j] == v.workers[j],
    decreases n - i,
{
    let steps = takes_from::<J>(i, n);
    if i < n {
        let rest = takes_from::<J>((i + 1) as nat, n);
        let u = v.after(Step::Take(i));
        assert(steps[0] == Step::<J>::Take(i));
        assert(steps.skip(1) =~= rest);
        assert(v.queue.pending().len() > 0);
        lemma_step_keeps_inv(v, Step::Take(i));
        assert(u.queue.pending().len() == v.queue.pending().len() - 1);
        assert forall|j: int| i + 1 <= j < n implies #[trigger] u.workers[j]
            == WorkerState::Waiting by {
            assert(v.workers[j] == WorkerState::Waiting);
        }
        lemma_waiting_workers_run_together(u, (i + 1) as nat, n);
        let r = run(u, rest);
        assert(run(v, steps) == r);
        assert forall|j: int| i <= j < n implies #[trigger] r.workers[j]
            == WorkerState::Executing by {
            if j == i {
                assert(u.workers[j] == WorkerState::Executing);
            }
        }
        assert forall|j: int| 0 <= j < v.workers.len() && !(i <= j < n) implies #[trigger] r.workers[j]
            == v.workers[j] by {
            assert(u.workers[j] == v.workers[j]);
        }
    }
}

} // verus!
