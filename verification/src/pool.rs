//! The worker-pool protocol: job submission, FIFO dispatch, the worker loop,
//! and the shutdown handshake.
//!
//! The pool is modelled as an explicit state machine. `ThreadPool` holds the
//! queue of pending messages, one record per worker, the log of invoked jobs
//! and the log of reported failures. Every operation of the protocol is an
//! executable function whose effect is pinned down by a spec-level transition
//! function on the pool's view, so that the protocol's laws can be stated and
//! proved once, over the transitions.

use vstd::multiset::Multiset;
use vstd::prelude::*;

verus! {

/// A unit of work as the pool sees it: an identity, plus the one bit of its
/// behaviour the pool reacts to — whether the invocation reports failure.
/// The work itself is the caller's code and runs outside this model.
#[derive(Clone, Copy, PartialEq, Eq, Structural, Debug)]
pub struct Job {
    pub id: u64,
    pub fails: bool,
}

/// The two-variant mailbox message: either a job to run, or the terminal
/// signal that tells one worker to exit.
#[derive(Clone, Copy, PartialEq, Eq, Structural, Debug)]
pub enum Message {
    NewJob(Job),
    Terminate,
}

/// A worker's lifecycle: idle and ready to dequeue, mid-invocation, or exited.
/// `Terminated` is absorbing: a terminated worker consumes no further message.
#[derive(Clone, Copy, PartialEq, Eq, Structural, Debug)]
pub enum WorkerState {
    Running,
    Executing(Job),
    Terminated,
}

/// One worker slot: its identity, whether its thread handle is still held by
/// the pool (it is taken exactly once, at join), and its lifecycle state.
#[derive(Clone, Copy, PartialEq, Eq, Structural, Debug)]
pub struct Worker {
    pub id: usize,
    pub handle_present: bool,
    pub state: WorkerState,
}

/// A job-failure report: which worker observed it and which job failed.
/// Failures are logged, never propagated — a failing job cannot take its
/// worker down.
#[derive(Clone, Copy, PartialEq, Eq, Structural, Debug)]
pub struct FailureRecord {
    pub worker_id: usize,
    pub job_id: u64,
}

/// What one teardown did: how many shutdown signals it sent and how many
/// worker threads it joined.
#[derive(Clone, Copy, PartialEq, Eq, Structural, Debug)]
pub struct ShutdownReport {
    pub signals_sent: usize,
    pub workers_joined: usize,
}

/// The ids of the jobs in `q`, in queue order.
pub open spec fn job_ids(q: Seq<Message>) -> Seq<u64>
    decreases q.len(),
{
    if q.len() == 0 {
        Seq::empty()
    } else {
        match q[0] {
            Message::NewJob(j) => seq![j.id] + job_ids(q.drop_first()),
            Message::Terminate => job_ids(q.drop_first()),
        }
    }
}

/// How many terminal signals `q` holds.
pub open spec fn terminate_count(q: Seq<Message>) -> nat
    decreases q.len(),
{
    if q.len() == 0 {
        0
    } else {
        match q[0] {
            Message::NewJob(_) => terminate_count(q.drop_first()),
            Message::Terminate => 1 + terminate_count(q.drop_first()),
        }
    }
}

/// Whether `q` holds a terminal signal at all — what a blocked worker is
/// guaranteed to reach.
pub open spec fn has_terminate(q: Seq<Message>) -> bool {
    terminate_count(q) > 0
}

/// The ids of the jobs a worker invokes when it consumes `q` from the front,
/// stopping at the first terminal signal.
pub open spec fn run_log(q: Seq<Message>) -> Seq<u64>
    decreases q.len(),
{
    if q.len() == 0 {
        Seq::empty()
    } else {
        match q[0] {
            Message::NewJob(j) => seq![j.id] + run_log(q.drop_first()),
            Message::Terminate => Seq::empty(),
        }
    }
}

/// The failures that the same consumption reports, under worker identity `w`.
pub open spec fn failure_log(q: Seq<Message>, w: usize) -> Seq<FailureRecord>
    decreases q.len(),
{
    if q.len() == 0 {
        Seq::empty()
    } else {
        match q[0] {
            Message::NewJob(j) => if j.fails {
                seq![FailureRecord { worker_id: w, job_id: j.id }] + failure_log(
                    q.drop_first(),
                    w,
                )
            } else {
                failure_log(q.drop_first(), w)
            },
            Message::Terminate => Seq::empty(),
        }
    }
}

/// What remains of `q` after its first terminal signal (empty if there is
/// none).
pub open spec fn after_first_terminate(q: Seq<Message>) -> Seq<Message>
    decreases q.len(),
{
    if q.len() == 0 {
        Seq::empty()
    } else {
        match q[0] {
            Message::NewJob(_) => after_first_terminate(q.drop_first()),
            Message::Terminate => q.drop_first(),
        }
    }
}

/// A queue of `n` terminal signals and nothing else.
pub open spec fn terminates(n: nat) -> Seq<Message> {
    Seq::new(n, |i: int| Message::Terminate)
}

/// A measure that orders a worker's states within one queue length: a
/// mid-invocation worker finishes its job before it dequeues again.
pub open spec fn state_weight(s: WorkerState) -> nat {
    match s {
        WorkerState::Executing(_) => 1,
        _ => 0,
    }
}

/// A queue of jobs followed by `k` terminal signals: one worker consuming it
/// runs exactly those jobs, in order, and leaves `k - 1` signals behind.
pub proof fn lemma_run_log_jobs_then_terminates(jq: Seq<Message>, k: nat)
    requires
        !has_terminate(jq),
        k >= 1,
    ensures
        run_log(jq + terminates(k)) == job_ids(jq),
        after_first_terminate(jq + terminates(k)) == terminates((k - 1) as nat),
        forall|w: usize| failure_log(jq + terminates(k), w) == failure_log(jq, w),
    decreases jq.len(),
{
    let q = jq + terminates(k);
    if jq.len() == 0 {
        assert(q =~= terminates(k));
        assert(q[0] is Terminate);
        assert(run_log(q) =~= job_ids(jq));
        assert(q.drop_first() =~= terminates((k - 1) as nat));
        assert(forall|w: usize| failure_log(q, w) =~= failure_log(jq, w));
    } else {
        assert(!(jq[0] is Terminate)) by {
            if jq[0] is Terminate {
                assert(terminate_count(jq) >= 1);
            }
        }
        let j = jq[0]->NewJob_0;
        assert(q[0] == jq[0]);
        assert(q.drop_first() =~= jq.drop_first() + terminates(k));
        assert(terminate_count(jq) == terminate_count(jq.drop_first()));
        lemma_run_log_jobs_then_terminates(jq.drop_first(), k);
        assert(run_log(q) =~= job_ids(jq));
        assert forall|w: usize| failure_log(q, w) == failure_log(jq, w) by {
            assert(failure_log(q.drop_first(), w) == failure_log(jq.drop_first(), w));
            assert(failure_log(q, w) =~= failure_log(jq, w));
        }
    }
}

/// The mathematical state of a pool.
pub struct PoolView {
    pub workers: Seq<Worker>,
    pub queue: Seq<Message>,
    pub executed: Seq<u64>,
    pub failures: Seq<FailureRecord>,
}

/// The pool: a fixed set of workers, the FIFO message queue, and the two
/// observation logs (jobs invoked, failures reported).
pub struct ThreadPool {
    pub workers: Vec<Worker>,
    pub queue: Vec<Message>,
    pub executed: Vec<u64>,
    pub failures: Vec<FailureRecord>,
}

impl View for ThreadPool {
    type V = PoolView;

    open spec fn view(&self) -> PoolView {
        PoolView {
            workers: self.workers@,
            queue: self.queue@,
            executed: self.executed@,
            failures: self.failures@,
        }
    }
}

impl PoolView {
    /// Well-formedness: at least one worker, workers are numbered by their
    /// slot, and a worker whose handle is gone has already terminated.
    pub open spec fn wf(self) -> bool {
        &&& self.workers.len() >= 1
        &&& forall|i: int|
            0 <= i < self.workers.len() ==> {
                &&& (#[trigger] self.workers[i]).id == i
                &&& (!self.workers[i].handle_present ==> self.workers[i].state is Terminated)
            }
    }

    /// The channel stays open as long as some worker can still dequeue:
    /// once every worker has terminated, sends are dropped (and logged).
    pub open spec fn channel_open(self) -> bool {
        exists|i: int|
            0 <= i < self.workers.len() && !((#[trigger] self.workers[i]).state is Terminated)
    }

    /// Submission: enqueue the job at the back while the channel is open;
    /// after teardown the send fails and the message is lost.
    pub open spec fn step_submit(self, job: Job) -> PoolView {
        if self.channel_open() {
            PoolView { queue: self.queue.push(Message::NewJob(job)), ..self }
        } else {
            self
        }
    }

    /// One dequeue by worker `w`: the front message leaves the queue and is
    /// delivered to that worker alone — a job puts it mid-invocation, the
    /// terminal signal ends it.
    pub open spec fn step_receive(self, w: int) -> PoolView
        recommends
            0 <= w < self.workers.len(),
            self.workers[w].state is Running,
            self.queue.len() > 0,
    {
        let st = match self.queue[0] {
            Message::NewJob(j) => WorkerState::Executing(j),
            Message::Terminate => WorkerState::Terminated,
        };
        PoolView {
            workers: self.workers.update(w, (Worker { state: st, ..self.workers[w] })),
            queue: self.queue.drop_first(),
            ..self
        }
    }

    /// Worker `w` finishes the job it holds: the invocation is appended to
    /// the execution log, a failure is appended to the failure log, and the
    /// worker is idle again either way — a failing job never ends its worker.
    pub open spec fn step_complete(self, w: int) -> PoolView
        recommends
            0 <= w < self.workers.len(),
            self.workers[w].state is Executing,
    {
        let j = self.workers[w].state->Executing_0;
        PoolView {
            workers: self.workers.update(
                w,
                (Worker { state: WorkerState::Running, ..self.workers[w] }),
            ),
            executed: self.executed.push(j.id),
            failures: if j.fails {
                self.failures.push(FailureRecord { worker_id: self.workers[w].id, job_id: j.id })
            } else {
                self.failures
            },
            ..self
        }
    }

    /// Worker `w` runs until it terminates: it finishes any job it holds,
    /// then dequeues and runs jobs until it meets a terminal signal. A worker
    /// facing an empty queue stays as it is — in the running pool it would
    /// block there until a message arrives.
    pub open spec fn step_run_worker(self, w: int) -> PoolView
        decreases self.queue.len(), state_weight(self.workers[w].state),
    {
        if 0 <= w < self.workers.len() {
            match self.workers[w].state {
                WorkerState::Terminated => self,
                WorkerState::Executing(_) => self.step_complete(w).step_run_worker(w),
                WorkerState::Running => if self.queue.len() > 0 {
                    self.step_receive(w).step_run_worker(w)
                } else {
                    self
                },
            }
        } else {
            self
        }
    }

    /// How many workers from slot `w` on still have their thread handle held
    /// by the pool — the number of terminal signals a teardown from `w` sends.
    pub open spec fn handles_from(self, w: int) -> nat
        decreases self.workers.len() - w,
    {
        if 0 <= w < self.workers.len() {
            (if self.workers[w].handle_present {
                1nat
            } else {
                0nat
            }) + self.handles_from(w + 1)
        } else {
            0
        }
    }

    /// Take worker `w`'s thread handle: joining a second time is a no-op, so
    /// the slot is simply marked empty.
    pub open spec fn clear_handle(self, w: int) -> PoolView {
        PoolView {
            workers: self.workers.update(
                w,
                (Worker { handle_present: false, ..self.workers[w] }),
            ),
            ..self
        }
    }

    /// The teardown protocol from slot `w` on, in construction order: for
    /// each worker whose handle is still held, send one terminal signal, wait
    /// until that worker's thread has run to its end, and take the handle. A
    /// worker that already gave up its handle is skipped.
    pub open spec fn step_shutdown(self, w: int) -> PoolView
        decreases self.workers.len() - w,
        via Self::step_shutdown_decreases
    {
        if 0 <= w < self.workers.len() {
            if self.workers[w].handle_present {
                let sent = PoolView { queue: self.queue.push(Message::Terminate), ..self };
                sent.step_run_worker(w).clear_handle(w).step_shutdown(w + 1)
            } else {
                self.step_shutdown(w + 1)
            }
        } else {
            self
        }
    }

    #[via_fn]
    proof fn step_shutdown_decreases(self, w: int) {
        if 0 <= w < self.workers.len() && self.workers[w].handle_present {
            let sent = PoolView { queue: self.queue.push(Message::Terminate), ..self };
            lemma_run_worker_len(sent, w);
        }
    }
}

/// Appending a message changes the count of terminal signals by exactly that
/// message's contribution.
pub proof fn lemma_terminate_count_snoc(q: Seq<Message>, m: Message)
    ensures
        terminate_count(q.push(m)) == terminate_count(q) + (if m is Terminate {
            1nat
        } else {
            0nat
        }),
    decreases q.len(),
{
    if q.len() == 0 {
        assert(q.push(m)[0] == m);
        assert(q.push(m).drop_first() =~= Seq::<Message>::empty());
        assert(terminate_count(Seq::<Message>::empty()) == 0);
    } else {
        assert(q.push(m)[0] == q[0]);
        assert(q.push(m).drop_first() =~= q.drop_first().push(m));
        lemma_terminate_count_snoc(q.drop_first(), m);
    }
}

/// A worker's run touches only that worker's own state, the queue and the
/// logs: every other worker, and the worker's identity and handle, are left
/// alone; an already-terminated worker changes nothing at all; and a worker
/// that still runs terminates as soon as the queue guarantees it a terminal
/// signal.
pub proof fn lemma_run_worker_frame(v: PoolView, w: int)
    requires
        v.wf(),
        0 <= w < v.workers.len(),
    ensures
        v.step_run_worker(w).wf(),
        v.step_run_worker(w).workers.len() == v.workers.len(),
        forall|i: int|
            0 <= i < v.workers.len() && i != w ==> v.step_run_worker(w).workers[i]
                == v.workers[i],
        v.step_run_worker(w).workers[w].id == v.workers[w].id,
        v.step_run_worker(w).workers[w].handle_present == v.workers[w].handle_present,
        v.workers[w].state is Terminated ==> v.step_run_worker(w) == v,
        !(v.workers[w].state is Terminated) && has_terminate(v.queue) ==> v.step_run_worker(
            w,
        ).workers[w].state is Terminated,
    decreases v.queue.len(), state_weight(v.workers[w].state),
{
    match v.workers[w].state {
        WorkerState::Terminated => {},
        WorkerState::Executing(_) => {
            let v2 = v.step_complete(w);
            assert(v2.wf());
            assert(v.step_run_worker(w) == v2.step_run_worker(w));
            lemma_run_worker_frame(v2, w);
            assert forall|i: int| 0 <= i < v.workers.len() && i != w implies (
            #[trigger] v.step_run_worker(w).workers[i]) == v.workers[i] by {
                assert(v2.step_run_worker(w).workers[i] == v2.workers[i]);
                assert(v2.workers[i] == v.workers[i]);
            }
        },
        WorkerState::Running => {
            if v.queue.len() > 0 {
                let v2 = v.step_receive(w);
                assert(v2.wf());
                assert(v.step_run_worker(w) == v2.step_run_worker(w));
                if v.queue[0] is NewJob {
                    assert(terminate_count(v.queue) == terminate_count(v.queue.drop_first()));
                }
                lemma_run_worker_frame(v2, w);
                assert forall|i: int| 0 <= i < v.workers.len() && i != w implies (
                #[trigger] v.step_run_worker(w).workers[i]) == v.workers[i] by {
                    assert(v2.step_run_worker(w).workers[i] == v2.workers[i]);
                    assert(v2.workers[i] == v.workers[i]);
                }
            } else {
                assert(terminate_count(v.queue) == 0);
            }
        },
    }
}

/// What a running worker's run does, exactly: it invokes, in queue order, the
/// jobs ahead of the first terminal signal; logs their failures under its own
/// identity; consumes the queue through that signal; and terminates.
pub proof fn lemma_run_worker_drains(v: PoolView, w: int)
    requires
        v.wf(),
        0 <= w < v.workers.len(),
        v.workers[w].state is Running,
        has_terminate(v.queue),
    ensures
        v.step_run_worker(w).executed == v.executed + run_log(v.queue),
        v.step_run_worker(w).failures == v.failures + failure_log(v.queue, v.workers[w].id),
        v.step_run_worker(w).queue == after_first_terminate(v.queue),
        v.step_run_worker(w).workers[w].state is Terminated,
    decreases v.queue.len(),
{
    assert(v.queue.len() > 0) by {
        if v.queue.len() == 0 {
            assert(terminate_count(v.queue) == 0);
        }
    }
    let v2 = v.step_receive(w);
    match v.queue[0] {
        Message::Terminate => {
            assert(v2.step_run_worker(w) == v2);
            assert(run_log(v.queue) == Seq::<u64>::empty());
            assert(v.executed + run_log(v.queue) =~= v.executed);
            assert(v.failures + failure_log(v.queue, v.workers[w].id) =~= v.failures);
        },
        Message::NewJob(j) => {
            assert(terminate_count(v.queue) == terminate_count(v.queue.drop_first()));
            assert(v2.wf());
            assert(v2.workers[w].state is Executing);
            let v3 = v2.step_complete(w);
            assert(v3.wf());
            assert(v.step_run_worker(w) == v2.step_run_worker(w));
            assert(v2.step_run_worker(w) == v3.step_run_worker(w));
            lemma_run_worker_drains(v3, w);
            assert(v3.executed + run_log(v.queue.drop_first()) =~= v.executed + run_log(
                v.queue,
            ));
            if j.fails {
                assert(v3.failures + failure_log(v.queue.drop_first(), v.workers[w].id)
                    =~= v.failures + failure_log(v.queue, v.workers[w].id));
            } else {
                assert(v3.failures + failure_log(v.queue.drop_first(), v.workers[w].id)
                    =~= v.failures + failure_log(v.queue, v.workers[w].id));
            }
        },
    }
}

/// The teardown law from slot `w` on, strengthened for induction: the queue
/// holds jobs ahead of `k` pending terminal signals, and no remaining worker
/// is mid-invocation. If some remaining worker still runs, teardown invokes
/// exactly the queued jobs, in order; if none does, it invokes nothing.
proof fn lemma_shutdown_runs_jobs_from(v: PoolView, w: int, jq: Seq<Message>, k: nat)
    requires
        v.wf(),
        0 <= w <= v.workers.len(),
        v.queue == jq + terminates(k),
        !has_terminate(jq),
        forall|i: int|
            w <= i < v.workers.len() ==> !((#[trigger] v.workers[i]).state is Executing),
    ensures
        (exists|i: int|
            w <= i < v.workers.len() && (#[trigger] v.workers[i]).state is Running)
            ==> v.step_shutdown(w).executed == v.executed + job_ids(jq),
        !(exists|i: int|
            w <= i < v.workers.len() && (#[trigger] v.workers[i]).state is Running)
            ==> v.step_shutdown(w).executed == v.executed,
    decreases v.workers.len() - w,
{
    if w == v.workers.len() {
        assert(v.step_shutdown(w) == v);
    } else if !v.workers[w].handle_present {
        assert(v.workers[w].state is Terminated);
        assert(v.step_shutdown(w) == v.step_shutdown(w + 1));
        lemma_shutdown_runs_jobs_from(v, w + 1, jq, k);
    } else {
        let sent = PoolView { queue: v.queue.push(Message::Terminate), ..v };
        assert(sent.queue =~= jq + terminates(k + 1));
        lemma_terminate_count_snoc(v.queue, Message::Terminate);
        assert(sent.wf());
        lemma_run_worker_frame(sent, w);
        let ran = sent.step_run_worker(w);
        let v2 = ran.clear_handle(w);
        assert(v.step_shutdown(w) == v2.step_shutdown(w + 1));
        assert(ran.workers[w].state is Terminated);
        assert(v2.wf()) by {
            assert(forall|i: int|
                0 <= i < v2.workers.len() ==> (#[trigger] v2.workers[i]) == if i == w {
                    (Worker { handle_present: false, ..ran.workers[w] })
                } else {
                    ran.workers[i]
                });
        }
        assert(forall|i: int|
            w + 1 <= i < v2.workers.len() ==> (#[trigger] v2.workers[i]) == v.workers[i]);
        match v.workers[w].state {
            WorkerState::Executing(_) => {
                assert(false);
            },
            WorkerState::Terminated => {
                assert(ran == sent);
                lemma_shutdown_runs_jobs_from(v2, w + 1, jq, (k + 1) as nat);
                if exists|i: int|
                    w <= i < v.workers.len() && (#[trigger] v.workers[i]).state is Running {
                    let i0 = choose|i: int|
                        w <= i < v.workers.len() && (#[trigger] v.workers[i]).state is Running;
                    assert(i0 != w);
                    assert(v2.workers[i0].state is Running);
                    assert(exists|i: int|
                        w + 1 <= i < v2.workers.len() && (#[trigger] v2.workers[i]).state
                            is Running);
                }
                if exists|i: int|
                    w + 1 <= i < v2.workers.len() && (#[trigger] v2.workers[i]).state
                        is Running {
                    let i0 = choose|i: int|
                        w + 1 <= i < v2.workers.len() && (#[trigger] v2.workers[i]).state
                            is Running;
                    assert(v.workers[i0].state is Running);
                    assert(exists|i: int|
                        w <= i < v.workers.len() && (#[trigger] v.workers[i]).state
                            is Running);
                }
            },
            WorkerState::Running => {
                lemma_run_worker_drains(sent, w);
                lemma_run_log_jobs_then_terminates(jq, (k + 1) as nat);
                assert(ran.executed == v.executed + job_ids(jq));
                assert(v2.queue == terminates(k));
                assert(v2.queue =~= Seq::<Message>::empty() + terminates(k));
                assert(terminate_count(Seq::<Message>::empty()) == 0);
                lemma_shutdown_runs_jobs_from(v2, w + 1, Seq::empty(), k);
                assert(job_ids(Seq::<Message>::empty()) == Seq::<u64>::empty());
                assert(v2.executed + Seq::<u64>::empty() =~= v2.executed);
                assert(v2.step_shutdown(w + 1).executed == v2.executed);
                assert(v.workers[w].state is Running);
            },
        }
    }
}

/// The teardown law: begun with no terminal signal pending, no worker
/// mid-invocation and at least one worker still running, teardown invokes
/// every queued job exactly once, in submission order, and nothing else —
/// the execution log grows by exactly the queued job ids.
pub proof fn lemma_shutdown_runs_every_job(v: PoolView)
    requires
        v.wf(),
        !has_terminate(v.queue),
        forall|i: int|
            0 <= i < v.workers.len() ==> !((#[trigger] v.workers[i]).state is Executing),
        exists|i: int|
            0 <= i < v.workers.len() && (#[trigger] v.workers[i]).state is Running,
    ensures
        v.step_shutdown(0).executed == v.executed + job_ids(v.queue),
{
    assert(v.queue =~= v.queue + terminates(0));
    lemma_shutdown_runs_jobs_from(v, 0, v.queue, 0);
}

/// While every worker from slot `w` on still has its handle, teardown has one
/// signal to send per remaining slot.
proof fn lemma_handles_from_all_present(v: PoolView, w: int)
    requires
        0 <= w <= v.workers.len(),
        forall|i: int|
            w <= i < v.workers.len() ==> (#[trigger] v.workers[i]).handle_present,
    ensures
        v.handles_from(w) == v.workers.len() - w,
    decreases v.workers.len() - w,
{
    if w < v.workers.len() {
        lemma_handles_from_all_present(v, w + 1);
    }
}

/// The immediate-teardown law: a freshly built pool of `n` workers, nothing
/// queued, tears down by sending exactly `n` terminal signals — one per held
/// handle — and invokes nothing. Together with teardown's own contract (every
/// worker terminated, every handle released, one join per signal), nothing is
/// leaked and nothing hangs.
pub proof fn lemma_fresh_teardown(v: PoolView, n: nat)
    requires
        n >= 1,
        v.workers.len() == n,
        forall|i: int|
            0 <= i < n ==> {
                &&& (#[trigger] v.workers[i]).id == i
                &&& v.workers[i].handle_present
                &&& v.workers[i].state is Running
            },
        v.queue == Seq::<Message>::empty(),
        v.executed == Seq::<u64>::empty(),
    ensures
        v.handles_from(0) == n,
        v.step_shutdown(0).executed == Seq::<u64>::empty(),
{
    lemma_handles_from_all_present(v, 0);
    assert(v.wf());
    assert(terminate_count(v.queue) == 0);
    assert(v.workers[0].state is Running);
    lemma_shutdown_runs_every_job(v);
    assert(job_ids(v.queue) =~= Seq::<u64>::empty());
    assert(v.executed + job_ids(v.queue) =~= Seq::<u64>::empty());
}

/// A failing job is local to its own invocation: completing it logs the
/// invocation and the failure, leaves the queue untouched, and returns its
/// worker to the running state, as ready for the next message as after a
/// succeeding job — it can dequeue again the moment a message is there.
pub proof fn lemma_failure_is_local(v: PoolView, w: int)
    requires
        v.wf(),
        0 <= w < v.workers.len(),
        v.workers[w].state is Executing,
    ensures
        v.step_complete(w).wf(),
        v.step_complete(w).workers[w].state is Running,
        v.step_complete(w).queue == v.queue,
        v.step_complete(w).executed == v.executed.push(v.workers[w].state->Executing_0.id),
        forall|i: int|
            0 <= i < v.workers.len() && i != w ==> (#[trigger] v.step_complete(w).workers[i])
                == v.workers[i],
{
}

/// What worker state `s` contributes to the in-flight accounting: the job it
/// holds mid-invocation, if any.
pub open spec fn state_jobs(s: WorkerState) -> Multiset<u64> {
    match s {
        WorkerState::Executing(j) => Multiset::empty().insert(j.id),
        _ => Multiset::empty(),
    }
}

/// The jobs held mid-invocation across all workers, each counted at the one
/// worker that holds it.
pub open spec fn in_flight(ws: Seq<Worker>) -> Multiset<u64>
    decreases ws.len(),
{
    if ws.len() == 0 {
        Multiset::empty()
    } else {
        in_flight(ws.drop_first()).add(state_jobs(ws[0].state))
    }
}

/// Every job the pool has admitted, each counted exactly once, wherever it
/// now stands: already invoked, held by exactly one worker, or still queued.
pub open spec fn accounted(v: PoolView) -> Multiset<u64> {
    v.executed.to_multiset().add(in_flight(v.workers)).add(job_ids(v.queue).to_multiset())
}

/// Replacing one worker changes the in-flight jobs by exactly the difference
/// between the old and the new state's contribution.
proof fn lemma_in_flight_update(ws: Seq<Worker>, w: int, x: Worker)
    requires
        0 <= w < ws.len(),
    ensures
        in_flight(ws.update(w, x)).add(state_jobs(ws[w].state)) == in_flight(ws).add(
            state_jobs(x.state),
        ),
    decreases ws.len(),
{
    broadcast use vstd::multiset::group_multiset_axioms;

    let u = ws.update(w, x);
    if w == 0 {
        assert(u[0] == x);
        assert(u.drop_first() =~= ws.drop_first());
        assert(in_flight(u) == in_flight(u.drop_first()).add(state_jobs(x.state)));
        assert(in_flight(ws) == in_flight(ws.drop_first()).add(state_jobs(ws[0].state)));
        assert(in_flight(u).add(state_jobs(ws[0].state)) =~= in_flight(ws).add(
            state_jobs(x.state),
        ));
    } else {
        assert(u.drop_first() =~= ws.drop_first().update(w - 1, x));
        assert(u[0] == ws[0]);
        lemma_in_flight_update(ws.drop_first(), w - 1, x);
        assert(ws.drop_first()[w - 1] == ws[w]);
        assert(in_flight(u) == in_flight(u.drop_first()).add(state_jobs(ws[0].state)));
        assert(in_flight(ws) == in_flight(ws.drop_first()).add(state_jobs(ws[0].state)));
        assert(in_flight(u.drop_first()) == in_flight(ws.drop_first().update(w - 1, x)));
        let rest_u = in_flight(u.drop_first());
        let rest_w = in_flight(ws.drop_first());
        assert forall|a: u64|
            in_flight(u).add(state_jobs(ws[w].state)).count(a) == in_flight(ws).add(
                state_jobs(x.state),
            ).count(a) by {
            assert(rest_u.add(state_jobs(ws[w].state)).count(a) == rest_w.add(
                state_jobs(x.state),
            ).count(a));
        }
        assert(in_flight(u).add(state_jobs(ws[w].state)) =~= in_flight(ws).add(
            state_jobs(x.state),
        ));
    }
}

/// Appending a job to the queue appends its id to the queued job ids.
proof fn lemma_job_ids_snoc(q: Seq<Message>, m: Message)
    ensures
        job_ids(q.push(m)) == if m is NewJob {
            job_ids(q).push(m->NewJob_0.id)
        } else {
            job_ids(q)
        },
    decreases q.len(),
{
    if q.len() == 0 {
        assert(q.push(m)[0] == m);
        assert(q.push(m).drop_first() =~= Seq::<Message>::empty());
        assert(job_ids(q.push(m).drop_first()) =~= Seq::<u64>::empty());
        assert(job_ids(q) =~= Seq::<u64>::empty());
        if m is NewJob {
            assert(job_ids(q.push(m)) =~= job_ids(q).push(m->NewJob_0.id));
        }
    } else {
        assert(q.push(m)[0] == q[0]);
        assert(q.push(m).drop_first() =~= q.drop_first().push(m));
        lemma_job_ids_snoc(q.drop_first(), m);
        assert(job_ids(q.push(m).drop_first()) == job_ids(q.drop_first().push(m)));
        if m is NewJob {
            assert(job_ids(q.push(m)) =~= job_ids(q).push(m->NewJob_0.id));
        }
    }
}

/// Delivery adds nothing and loses nothing: an accepted submission adds the
/// job to the account exactly once, and neither a dequeue nor a completion
/// changes the account at all. Together: every admitted job is invoked by
/// exactly one worker, with no duplication and no loss.
pub proof fn lemma_submit_accounts(v: PoolView, job: Job)
    requires
        v.channel_open(),
    ensures
        accounted(v.step_submit(job)) == accounted(v).insert(job.id),
{
    broadcast use vstd::seq_lib::group_to_multiset_ensures;
    broadcast use vstd::multiset::group_multiset_axioms;

    lemma_job_ids_snoc(v.queue, Message::NewJob(job));
    assert(accounted(v.step_submit(job)) =~= accounted(v).insert(job.id));
}

/// A dequeue moves the front message into exactly one worker: the account of
/// admitted jobs is unchanged.
pub proof fn lemma_receive_accounts(v: PoolView, w: int)
    requires
        v.wf(),
        0 <= w < v.workers.len(),
        v.workers[w].state is Running,
        v.queue.len() > 0,
    ensures
        accounted(v.step_receive(w)) == accounted(v),
{
    broadcast use vstd::seq_lib::group_to_multiset_ensures;
    broadcast use vstd::multiset::group_multiset_axioms;

    let r = v.step_receive(w);
    match v.queue[0] {
        Message::NewJob(j) => {
            lemma_in_flight_update(
                v.workers,
                w,
                (Worker { state: WorkerState::Executing(j), ..v.workers[w] }),
            );
            assert(job_ids(v.queue) == seq![j.id] + job_ids(v.queue.drop_first()));
            vstd::seq_lib::lemma_multiset_commutative(seq![j.id], job_ids(v.queue.drop_first()));
            let mjob = Multiset::<u64>::empty().insert(j.id);
            assert(seq![j.id].to_multiset() =~= mjob) by {
                assert(seq![j.id] =~= Seq::<u64>::empty().push(j.id));
            }
            assert(job_ids(v.queue).to_multiset() == mjob.add(job_ids(r.queue).to_multiset()));
            assert(state_jobs(v.workers[w as int].state) =~= Multiset::<u64>::empty());
            assert(in_flight(r.workers).add(Multiset::<u64>::empty()) =~= in_flight(r.workers));
            assert(in_flight(r.workers) == in_flight(v.workers).add(mjob));
            assert(accounted(r) =~= accounted(v));
        },
        Message::Terminate => {
            lemma_in_flight_update(
                v.workers,
                w,
                (Worker { state: WorkerState::Terminated, ..v.workers[w] }),
            );
            assert(job_ids(v.queue) == job_ids(v.queue.drop_first()));
            assert(state_jobs(v.workers[w as int].state) =~= Multiset::<u64>::empty());
            assert(in_flight(r.workers).add(Multiset::<u64>::empty()) =~= in_flight(r.workers));
            assert(in_flight(v.workers).add(Multiset::<u64>::empty()) =~= in_flight(v.workers));
            assert(in_flight(r.workers) == in_flight(v.workers));
            assert(accounted(r) =~= accounted(v));
        },
    }
}

/// A completion moves the held job from its worker into the execution log:
/// the account of admitted jobs is unchanged.
pub proof fn lemma_complete_accounts(v: PoolView, w: int)
    requires
        v.wf(),
        0 <= w < v.workers.len(),
        v.workers[w].state is Executing,
    ensures
        accounted(v.step_complete(w)) == accounted(v),
{
    broadcast use vstd::seq_lib::group_to_multiset_ensures;
    broadcast use vstd::multiset::group_multiset_axioms;

    let j = v.workers[w].state->Executing_0;
    let r = v.step_complete(w);
    lemma_in_flight_update(
        v.workers,
        w,
        (Worker { state: WorkerState::Running, ..v.workers[w] }),
    );
    let mjob = Multiset::<u64>::empty().insert(j.id);
    assert(state_jobs(v.workers[w].state) =~= mjob);
    assert(in_flight(v.workers).add(Multiset::<u64>::empty()) =~= in_flight(v.workers));
    assert(in_flight(r.workers).add(mjob) == in_flight(v.workers));
    assert(r.executed.to_multiset() =~= v.executed.to_multiset().insert(j.id));
    assert(accounted(v.step_complete(w)) =~= accounted(v));
}

/// A worker's run never changes how many worker slots the pool has.
pub proof fn lemma_run_worker_len(v: PoolView, w: int)
    ensures
        v.step_run_worker(w).workers.len() == v.workers.len(),
    decreases v.queue.len(), state_weight(v.workers[w].state),
{
    if 0 <= w < v.workers.len() {
        match v.workers[w].state {
            WorkerState::Terminated => {},
            WorkerState::Executing(_) => {
                lemma_run_worker_len(v.step_complete(w), w);
            },
            WorkerState::Running => {
                if v.queue.len() > 0 {
                    lemma_run_worker_len(v.step_receive(w), w);
                }
            },
        }
    }
}

impl ThreadPool {
    /// Construct a pool of `size` workers, every one idle with its thread
    /// handle held, an empty queue and empty logs. A zero worker count is a
    /// programming error and is excluded up front, before anything is built.
    pub fn new(size: usize) -> (pool: ThreadPool)
        requires
            size >= 1,
        ensures
            pool@.wf(),
            pool@.workers.len() == size,
            forall|i: int|
                0 <= i < size ==> {
                    &&& (#[trigger] pool@.workers[i]).id == i
                    &&& pool@.workers[i].handle_present
                    &&& pool@.workers[i].state is Running
                },
            pool@.queue == Seq::<Message>::empty(),
            pool@.executed == Seq::<u64>::empty(),
            pool@.failures == Seq::<FailureRecord>::empty(),
    {
        let mut workers: Vec<Worker> = Vec::with_capacity(size);
        let mut id: usize = 0;
        while id < size
            invariant
                id <= size,
                workers@.len() == id,
                forall|i: int|
                    0 <= i < id ==> {
                        &&& (#[trigger] workers@[i]).id == i
                        &&& workers@[i].handle_present
                        &&& workers@[i].state is Running
                    },
            decreases size - id,
        {
            workers.push(Worker { id, handle_present: true, state: WorkerState::Running });
            id = id + 1;
        }
        ThreadPool { workers, queue: Vec::new(), executed: Vec::new(), failures: Vec::new() }
    }

    /// Whether some worker has not yet terminated, i.e. the queue's consumer
    /// side is still alive.
    pub fn channel_open(&self) -> (open: bool)
        ensures
            open == self@.channel_open(),
    {
        let mut i: usize = 0;
        while i < self.workers.len()
            invariant
                i <= self.workers@.len(),
                forall|k: int|
                    0 <= k < i ==> (#[trigger] self.workers@[k]).state is Terminated,
            decreases self.workers@.len() - i,
        {
            match self.workers[i].state {
                WorkerState::Terminated => {},
                _ => {
                    return true;
                },
            }
            i = i + 1;
        }
        false
    }

    /// Submit a job: wrap it as `NewJob` and push it on the FIFO queue.
    /// Fire-and-forget — the caller gets no completion signal. A send after
    /// every worker has gone is the "channel closed" case: it is dropped
    /// (the surrounding program logs it) and nothing else changes.
    pub fn execute(&mut self, job: Job)
        requires
            old(self)@.wf(),
        ensures
            final(self)@ == old(self)@.step_submit(job),
            final(self)@.wf(),
    {
        if self.channel_open() {
            self.queue.push(Message::NewJob(job));
        }
    }

    /// One iteration of a worker's dequeue: under exclusive access to the
    /// shared consumer, take the front message, release, and act on it. The
    /// job itself is not run here — it runs outside the critical section, in
    /// `worker_complete` — so a slow job never blocks the other workers.
    pub fn worker_receive(&mut self, w: usize)
        requires
            old(self)@.wf(),
            w < old(self)@.workers.len(),
            old(self)@.workers[w as int].state is Running,
            old(self)@.queue.len() > 0,
        ensures
            final(self)@ == old(self)@.step_receive(w as int),
            final(self)@.wf(),
    {
        let msg = self.queue.remove(0);
        match msg {
            Message::NewJob(j) => {
                self.workers[w].state = WorkerState::Executing(j);
            },
            Message::Terminate => {
                self.workers[w].state = WorkerState::Terminated;
            },
        }
        proof {
            assert(self@.queue =~= old(self)@.queue.drop_first());
            assert(self@ =~= old(self)@.step_receive(w as int));
        }
    }

    /// Worker `w` runs the job it dequeued, to completion. The invocation is
    /// logged; if the job reports failure, the failure is logged with the
    /// worker's identity; and the worker returns to its idle state in every
    /// case — a failing job only fails its own invocation.
    pub fn worker_complete(&mut self, w: usize)
        requires
            old(self)@.wf(),
            w < old(self)@.workers.len(),
            old(self)@.workers[w as int].state is Executing,
        ensures
            final(self)@ == old(self)@.step_complete(w as int),
            final(self)@.wf(),
    {
        let j = match self.workers[w].state {
            WorkerState::Executing(j) => j,
            _ => {
                proof {
                    assert(false);
                }
                Job { id: 0, fails: false }
            },
        };
        self.executed.push(j.id);
        if j.fails {
            self.failures.push(FailureRecord { worker_id: self.workers[w].id, job_id: j.id });
        }
        self.workers[w].state = WorkerState::Running;
        proof {
            assert(self@ =~= old(self)@.step_complete(w as int));
        }
    }

    /// The body of one worker's thread, run to its end: finish any held job,
    /// then keep dequeuing — run each job, stop at the first terminal signal.
    /// The queue must hold a terminal signal (unless the worker has already
    /// terminated); without one the thread would block forever, which is what
    /// joining a worker during teardown must never do.
    pub fn run_worker(&mut self, w: usize)
        requires
            old(self)@.wf(),
            w < old(self)@.workers.len(),
            !(old(self)@.workers[w as int].state is Terminated) ==> has_terminate(
                old(self)@.queue,
            ),
        ensures
            final(self)@ == old(self)@.step_run_worker(w as int),
            final(self)@.wf(),
            final(self)@.workers[w as int].state is Terminated,
    {
        loop
            invariant
                self@.wf(),
                w < self@.workers.len(),
                old(self)@.step_run_worker(w as int) == self@.step_run_worker(w as int),
                !(self@.workers[w as int].state is Terminated) ==> has_terminate(self@.queue),
            decreases self@.queue.len(), state_weight(self@.workers[w as int].state),
        {
            let ghost before = self@;
            match self.workers[w].state {
                WorkerState::Terminated => {
                    proof {
                        assert(self@.step_run_worker(w as int) == self@);
                    }
                    return ;
                },
                WorkerState::Executing(_) => {
                    proof {
                        assert(before.step_run_worker(w as int) == before.step_complete(
                            w as int,
                        ).step_run_worker(w as int));
                    }
                    self.worker_complete(w);
                },
                WorkerState::Running => {
                    proof {
                        assert(self@.queue.len() > 0) by {
                            if self@.queue.len() == 0 {
                                assert(terminate_count(self@.queue) == 0);
                            }
                        }
                        assert(before.step_run_worker(w as int) == before.step_receive(
                            w as int,
                        ).step_run_worker(w as int));
                        if before.queue[0] is NewJob {
                            assert(terminate_count(before.queue) == terminate_count(
                                before.queue.drop_first(),
                            ));
                        }
                    }
                    self.worker_receive(w);
                },
            }
        }
    }

    /// Teardown, driven exactly once when the pool's owning scope ends: for
    /// each worker in construction order whose thread handle is still held,
    /// send one terminal signal, wait until that worker's thread has run to
    /// its end, and take the handle; a worker whose handle is already gone is
    /// skipped. When it returns every worker has terminated, no handle is
    /// held, and the report counts exactly one signal sent and one thread
    /// joined per handle that was held.
    pub fn shutdown(&mut self) -> (report: ShutdownReport)
        requires
            old(self)@.wf(),
        ensures
            final(self)@ == old(self)@.step_shutdown(0),
            final(self)@.wf(),
            final(self)@.workers.len() == old(self)@.workers.len(),
            forall|i: int|
                0 <= i < final(self)@.workers.len() ==> {
                    &&& (#[trigger] final(self)@.workers[i]).state is Terminated
                    &&& !final(self)@.workers[i].handle_present
                },
            report.signals_sent == old(self)@.handles_from(0),
            report.workers_joined == old(self)@.handles_from(0),
    {
        let mut signals: usize = 0;
        let mut joined: usize = 0;
        let mut w: usize = 0;
        let n: usize = self.workers.len();
        while w < n
            invariant
                self@.wf(),
                n == self@.workers.len(),
                n == old(self)@.workers.len(),
                w <= n,
                old(self)@.step_shutdown(0) == self@.step_shutdown(w as int),
                forall|i: int|
                    w <= i < n ==> (#[trigger] self@.workers[i]) == old(self)@.workers[i],
                forall|i: int|
                    0 <= i < w ==> {
                        &&& (#[trigger] self@.workers[i]).state is Terminated
                        &&& !self@.workers[i].handle_present
                    },
                signals == joined,
                signals <= w,
                signals + old(self)@.handles_from(w as int) == old(self)@.handles_from(0),
            decreases n - w,
        {
            let ghost pre = self@;
            proof {
                assert(old(self)@.handles_from(w as int) == (if old(self)@.workers[
                    w as int
                ].handle_present {
                    1nat
                } else {
                    0nat
                }) + old(self)@.handles_from(w as int + 1));
            }
            if self.workers[w].handle_present {
                self.queue.push(Message::Terminate);
                let ghost sent = self@;
                proof {
                    assert(sent == (PoolView {
                        queue: pre.queue.push(Message::Terminate),
                        ..pre
                    }));
                    lemma_terminate_count_snoc(pre.queue, Message::Terminate);
                    assert(pre.step_shutdown(w as int) == sent.step_run_worker(
                        w as int,
                    ).clear_handle(w as int).step_shutdown(w as int + 1));
                    lemma_run_worker_frame(sent, w as int);
                }
                self.run_worker(w);
                let ghost ran = self@;
                self.workers[w].handle_present = false;
                signals = signals + 1;
                joined = joined + 1;
                proof {
                    assert(ran == sent.step_run_worker(w as int));
                    assert(self@ == ran.clear_handle(w as int));
                    assert(old(self)@.step_shutdown(0) == self@.step_shutdown(w as int + 1));
                    assert forall|i: int| w + 1 <= i < n implies (#[trigger] self@.workers[i])
                        == old(self)@.workers[i] by {
                        assert(self@.workers[i] == ran.workers[i]);
                        assert(ran.workers[i] == sent.workers[i]);
                        assert(sent.workers[i] == pre.workers[i]);
                    }
                    assert forall|i: int| 0 <= i < w + 1 implies {
                        &&& (#[trigger] self@.workers[i]).state is Terminated
                        &&& !self@.workers[i].handle_present
                    } by {
                        if i < w {
                            assert(self@.workers[i] == ran.workers[i]);
                            assert(ran.workers[i] == sent.workers[i]);
                            assert(sent.workers[i] == pre.workers[i]);
                        } else {
                            assert(ran.workers[w as int].state is Terminated);
                        }
                    }
                }
            } else {
                proof {
                    assert(pre.step_shutdown(w as int) == pre.step_shutdown(w as int + 1));
                }
            }
            w = w + 1;
        }
        proof {
            assert(self@.step_shutdown(n as int) == self@);
            assert(old(self)@.handles_from(n as int) == 0);
        }
        ShutdownReport { signals_sent: signals, workers_joined: joined }
    }
}

} // verus!
