//! The worker pool: a shared FIFO queue of control signals, a fixed set of
//! worker slots, and the two-phase shutdown protocol.

use vstd::prelude::*;

verus! {

/// The state of one worker slot. A worker's identity is its index in the
/// pool's worker vector; a worker never re-enters `Running` after
/// `Terminated`.
#[derive(Clone, Copy, PartialEq, Eq, Structural, Debug)]
pub enum WorkerState {
    Running,
    Terminated,
}

/// The message transported through the shared queue: either one unit of
/// work, moved by value and never shared, or the instruction to stop.
/// One transport type for both avoids a second channel or a polling flag.
pub enum ControlSignal<T> {
    Run(T),
    Stop,
}

/// The payloads of the `Run` signals of `q`, in queue order.
pub open spec fn run_items<T>(q: Seq<ControlSignal<T>>) -> Seq<T>
    decreases q.len(),
{
    if q.len() == 0 {
        Seq::empty()
    } else {
        match q[0] {
            ControlSignal::Run(work) => seq![work] + run_items(q.drop_first()),
            ControlSignal::Stop => run_items(q.drop_first()),
        }
    }
}

/// How many `Stop` signals `q` holds.
pub open spec fn stop_count<T>(q: Seq<ControlSignal<T>>) -> nat
    decreases q.len(),
{
    if q.len() == 0 {
        0
    } else {
        (if q[0] is Stop {
            1nat
        } else {
            0nat
        }) + stop_count(q.drop_first())
    }
}

/// No `Run` signal stands behind a `Stop` signal: once stop signals have
/// been broadcast, nothing but stop signals follows them.
pub open spec fn stops_at_back<T>(q: Seq<ControlSignal<T>>) -> bool {
    forall|i: int, j: int|
        #![trigger q[i], q[j]]
        0 <= i <= j < q.len() && q[i] is Stop ==> q[j] is Stop
}

/// How many workers of `ws` are still running.
pub open spec fn running_count(ws: Seq<WorkerState>) -> nat
    decreases ws.len(),
{
    if ws.len() == 0 {
        0
    } else {
        (if ws[0] is Running {
            1nat
        } else {
            0nat
        }) + running_count(ws.drop_first())
    }
}

/// The mathematical model of a pool: the worker states, the pending queue,
/// whether shutdown has been initiated, and the full history of submitted
/// and of handed-out work items.
#[verifier::ext_equal]
pub struct PoolModel<T> {
    pub workers: Seq<WorkerState>,
    pub queue: Seq<ControlSignal<T>>,
    pub stopping: bool,
    pub submitted: Seq<T>,
    pub executed: Seq<T>,
}

impl<T> PoolModel<T> {
    /// The protocol invariant. Every constructor establishes it and every
    /// operation preserves it:
    /// - the pool never has zero worker slots;
    /// - the submission history is exactly the execution history followed
    ///   by the work still queued, so nothing is duplicated, reordered or
    ///   dropped while the pool is alive;
    /// - no work is enqueued behind a stop signal;
    /// - stop signals exist only once shutdown has begun, and from then on
    ///   there are at least as many of them as there are running workers,
    ///   so no wait on a worker can outlast the queue.
    pub open spec fn wf(self) -> bool {
        &&& self.workers.len() >= 1
        &&& self.submitted == self.executed + run_items(self.queue)
        &&& stops_at_back(self.queue)
        &&& !self.stopping ==> stop_count(self.queue) == 0
        &&& self.stopping ==> stop_count(self.queue) >= running_count(self.workers)
    }
}

/// The dispatcher: owns the fixed set of worker slots and the shared queue,
/// and accounts for every work item that passes through.
pub struct ThreadPool<T> {
    workers: Vec<WorkerState>,
    queue: Vec<ControlSignal<T>>,
    stopping: bool,
    submitted: Ghost<Seq<T>>,
    executed: Ghost<Seq<T>>,
}

impl<T> View for ThreadPool<T> {
    type V = PoolModel<T>;

    closed spec fn view(&self) -> PoolModel<T> {
        PoolModel {
            workers: self.workers@,
            queue: self.queue@,
            stopping: self.stopping,
            submitted: self.submitted@,
            executed: self.executed@,
        }
    }
}

proof fn lemma_running_count_push(ws: Seq<WorkerState>, w: WorkerState)
    ensures
        running_count(ws.push(w)) == running_count(ws) + (if w is Running {
            1nat
        } else {
            0nat
        }),
    decreases ws.len(),
{
    let p = ws.push(w);
    assert(p.len() == ws.len() + 1);
    assert(running_count(p) == (if p[0] is Running {
        1nat
    } else {
        0nat
    }) + running_count(p.drop_first()));
    if ws.len() == 0 {
        assert(p[0] == w);
        assert(p.drop_first() =~= Seq::<WorkerState>::empty());
        assert(running_count(Seq::<WorkerState>::empty()) == 0);
    } else {
        lemma_running_count_push(ws.drop_first(), w);
        assert(p.drop_first() =~= ws.drop_first().push(w));
        assert(p[0] == ws[0]);
        assert(running_count(ws) == (if ws[0] is Running {
            1nat
        } else {
            0nat
        }) + running_count(ws.drop_first()));
    }
}

proof fn lemma_running_count_le_len(ws: Seq<WorkerState>)
    ensures
        running_count(ws) <= ws.len(),
    decreases ws.len(),
{
    if ws.len() > 0 {
        lemma_running_count_le_len(ws.drop_first());
    }
}

proof fn lemma_running_count_positive(ws: Seq<WorkerState>, i: int)
    requires
        0 <= i < ws.len(),
        ws[i] is Running,
    ensures
        running_count(ws) >= 1,
    decreases ws.len(),
{
    if i > 0 {
        assert(ws.drop_first()[i - 1] == ws[i]);
        lemma_running_count_positive(ws.drop_first(), i - 1);
    }
}

proof fn lemma_running_count_update(ws: Seq<WorkerState>, i: int)
    requires
        0 <= i < ws.len(),
        ws[i] is Running,
    ensures
        running_count(ws.update(i, WorkerState::Terminated)) == running_count(ws) - 1,
    decreases ws.len(),
{
    let u = ws.update(i, WorkerState::Terminated);
    assert(running_count(u) == (if u[0] is Running {
        1nat
    } else {
        0nat
    }) + running_count(u.drop_first()));
    if i == 0 {
        assert(u.drop_first() =~= ws.drop_first());
    } else {
        lemma_running_count_update(ws.drop_first(), i - 1);
        assert(u.drop_first() =~= ws.drop_first().update(i - 1, WorkerState::Terminated));
        assert(u[0] == ws[0]);
    }
}

proof fn lemma_running_count_zero(ws: Seq<WorkerState>)
    ensures
        running_count(ws) == 0 <==> (forall|i: int| 0 <= i < ws.len() ==> ws[i] is Terminated),
    decreases ws.len(),
{
    if ws.len() > 0 {
        lemma_running_count_zero(ws.drop_first());
        assert(forall|i: int|
            0 <= i < ws.drop_first().len() ==> ws.drop_first()[i] == ws[i + 1]);
        if ws[0] is Terminated && (forall|i: int|
            0 <= i < ws.drop_first().len() ==> ws.drop_first()[i] is Terminated) {
            assert(forall|i: int| 0 <= i < ws.len() ==> ws[i] is Terminated) by {
                assert(forall|i: int|
                    1 <= i < ws.len() ==> ws[i] == ws.drop_first()[i - 1]);
            }
        }
    }
}

proof fn lemma_run_items_push<T>(q: Seq<ControlSignal<T>>, s: ControlSignal<T>)
    ensures
        run_items(q.push(s)) == (match s {
            ControlSignal::Run(work) => run_items(q).push(work),
            ControlSignal::Stop => run_items(q),
        }),
    decreases q.len(),
{
    let p = q.push(s);
    if q.len() == 0 {
        assert(p[0] == s);
        assert(p.drop_first() =~= Seq::<ControlSignal<T>>::empty());
        assert(run_items(Seq::<ControlSignal<T>>::empty()) =~= Seq::<T>::empty());
        assert(run_items(q) =~= Seq::<T>::empty());
        match s {
            ControlSignal::Run(work) => {
                assert(run_items(p) =~= seq![work] + run_items(p.drop_first()));
                assert(run_items(p) =~= run_items(q).push(work));
            },
            ControlSignal::Stop => {
                assert(run_items(p) =~= run_items(p.drop_first()));
                assert(run_items(p) =~= run_items(q));
            },
        }
    } else {
        lemma_run_items_push(q.drop_first(), s);
        assert(p.drop_first() =~= q.drop_first().push(s));
        assert(p[0] == q[0]);
        match q[0] {
            ControlSignal::Run(head) => {
                match s {
                    ControlSignal::Run(work) => {
                        assert(run_items(p) =~= run_items(q).push(work));
                    },
                    ControlSignal::Stop => {
                        assert(run_items(p) =~= run_items(q));
                    },
                }
            },
            ControlSignal::Stop => {},
        }
    }
}

proof fn lemma_stop_count_push<T>(q: Seq<ControlSignal<T>>, s: ControlSignal<T>)
    ensures
        stop_count(q.push(s)) == stop_count(q) + (if s is Stop {
            1nat
        } else {
            0nat
        }),
    decreases q.len(),
{
    let p = q.push(s);
    assert(stop_count(p) == (if p[0] is Stop {
        1nat
    } else {
        0nat
    }) + stop_count(p.drop_first()));
    if q.len() == 0 {
        assert(p[0] == s);
        assert(p.drop_first() =~= Seq::<ControlSignal<T>>::empty());
        assert(stop_count(Seq::<ControlSignal<T>>::empty()) == 0);
    } else {
        lemma_stop_count_push(q.drop_first(), s);
        assert(p.drop_first() =~= q.drop_first().push(s));
        assert(p[0] == q[0]);
        assert(stop_count(q) == (if q[0] is Stop {
            1nat
        } else {
            0nat
        }) + stop_count(q.drop_first()));
    }
}

proof fn lemma_stop_count_le_len<T>(q: Seq<ControlSignal<T>>)
    ensures
        stop_count(q) <= q.len(),
    decreases q.len(),
{
    if q.len() > 0 {
        lemma_stop_count_le_len(q.drop_first());
    }
}

proof fn lemma_stop_count_zero_no_stops<T>(q: Seq<ControlSignal<T>>)
    requires
        stop_count(q) == 0,
    ensures
        forall|i: int| 0 <= i < q.len() ==> !(q[i] is Stop),
    decreases q.len(),
{
    if q.len() > 0 {
        lemma_stop_count_zero_no_stops(q.drop_first());
        assert(forall|i: int|
            1 <= i < q.len() ==> q[i] == q.drop_first()[i - 1]);
    }
}

proof fn lemma_run_items_all_stops<T>(q: Seq<ControlSignal<T>>)
    requires
        forall|i: int| 0 <= i < q.len() ==> q[i] is Stop,
    ensures
        run_items(q) == Seq::<T>::empty(),
    decreases q.len(),
{
    if q.len() > 0 {
        assert(q.drop_first()[0] == q[1] || q.drop_first().len() == 0);
        assert(forall|i: int|
            0 <= i < q.drop_first().len() ==> q.drop_first()[i] == q[i + 1]);
        lemma_run_items_all_stops::<T>(q.drop_first());
    }
}

/// Every element of a queue is either work or a stop signal, so the length
/// splits into the two counts.
proof fn lemma_queue_len_split<T>(q: Seq<ControlSignal<T>>)
    ensures
        q.len() == run_items(q).len() + stop_count(q),
    decreases q.len(),
{
    if q.len() > 0 {
        lemma_queue_len_split(q.drop_first());
    }
}

proof fn lemma_stops_at_back_drop_first<T>(q: Seq<ControlSignal<T>>)
    requires
        q.len() > 0,
        stops_at_back(q),
    ensures
        stops_at_back(q.drop_first()),
{
    let d = q.drop_first();
    assert forall|i: int, j: int|
        0 <= i <= j < d.len() && d[i] is Stop implies d[j] is Stop by {
        assert(d[i] == q[i + 1]);
        assert(d[j] == q[j + 1]);
    }
}

proof fn lemma_stops_at_back_push_stop<T>(q: Seq<ControlSignal<T>>)
    requires
        stops_at_back(q),
    ensures
        stops_at_back(q.push(ControlSignal::Stop)),
{
    let p = q.push(ControlSignal::<T>::Stop);
    assert forall|i: int, j: int|
        0 <= i <= j < p.len() && p[i] is Stop implies p[j] is Stop by {
        if j < q.len() {
            assert(p[i] == q[i]);
            assert(p[j] == q[j]);
        } else {
            assert(p[j] == ControlSignal::<T>::Stop);
        }
    }
}

proof fn lemma_stops_at_back_push_run<T>(q: Seq<ControlSignal<T>>, work: T)
    requires
        stop_count(q) == 0,
    ensures
        stops_at_back(q.push(ControlSignal::Run(work))),
{
    let p = q.push(ControlSignal::Run(work));
    lemma_stop_count_zero_no_stops(q);
    assert forall|i: int, j: int|
        0 <= i <= j < p.len() && p[i] is Stop implies p[j] is Stop by {
        if i < q.len() {
            assert(p[i] == q[i]);
        } else {
            assert(p[i] == ControlSignal::Run(work));
        }
    }
}

impl<T> ThreadPool<T> {
    /// Creates a pool of `worker_count` workers, all running, sharing one
    /// empty queue. A pool with zero capacity is a configuration defect,
    /// not a runtime condition: zero is excluded outright.
    pub fn new(worker_count: usize) -> (pool: ThreadPool<T>)
        requires
            worker_count >= 1,
        ensures
            pool@.wf(),
            pool@.workers.len() == worker_count,
            running_count(pool@.workers) == worker_count,
            !pool@.stopping,
            pool@.queue == Seq::<ControlSignal<T>>::empty(),
            pool@.submitted == Seq::<T>::empty(),
            pool@.executed == Seq::<T>::empty(),
    {
        let mut workers: Vec<WorkerState> = Vec::new();
        for i in 0..worker_count
            invariant
                workers@.len() == i,
                running_count(workers@) == i,
        {
            proof {
                lemma_running_count_push(workers@, WorkerState::Running);
            }
            workers.push(WorkerState::Running);
        }
        let pool = ThreadPool {
            workers,
            queue: Vec::new(),
            stopping: false,
            submitted: Ghost(Seq::empty()),
            executed: Ghost(Seq::empty()),
        };
        proof {
            assert(pool@.submitted =~= pool@.executed + run_items(pool@.queue));
        }
        pool
    }

    /// Enqueues one unit of work on the shared queue, behind everything
    /// already pending. Submitting after disposal has begun would hand work
    /// to a transport that is being torn down; that is a programming error
    /// and is excluded outright.
    pub fn execute(&mut self, work: T)
        requires
            old(self)@.wf(),
            !old(self)@.stopping,
        ensures
            final(self)@.wf(),
            final(self)@ == (PoolModel {
                queue: old(self)@.queue.push(ControlSignal::Run(work)),
                submitted: old(self)@.submitted.push(work),
                ..old(self)@
            }),
    {
        proof {
            lemma_run_items_push(self.queue@, ControlSignal::Run(work));
            lemma_stop_count_push(self.queue@, ControlSignal::Run(work));
            lemma_stops_at_back_push_run(self.queue@, work);
            assert((self.executed@ + run_items(self.queue@)).push(work) =~= self.executed@
                + run_items(self.queue@).push(work));
        }
        self.submitted = Ghost(self.submitted@.push(work));
        self.queue.push(ControlSignal::Run(work));
    }

    /// One worker's dequeue, the only blocking point of the protocol: the
    /// worker at `worker` removes the signal at the front of the queue. Work
    /// is handed back to be executed synchronously by that worker and is
    /// recorded in the execution history; a stop signal terminates the
    /// worker instead. Only a running worker dequeues, and only from a
    /// non-empty queue (in the running system, an empty queue means the
    /// worker stays blocked).
    pub fn step(&mut self, worker: usize) -> (r: Option<T>)
        requires
            old(self)@.wf(),
            worker < old(self)@.workers.len(),
            old(self)@.workers[worker as int] is Running,
            old(self)@.queue.len() > 0,
        ensures
            final(self)@.wf(),
            match old(self)@.queue[0] {
                ControlSignal::Run(work) => r == Some(work) && final(self)@ == (PoolModel {
                    queue: old(self)@.queue.drop_first(),
                    executed: old(self)@.executed.push(work),
                    ..old(self)@
                }),
                ControlSignal::Stop => r is None && final(self)@ == (PoolModel {
                    queue: old(self)@.queue.drop_first(),
                    workers: old(self)@.workers.update(
                        worker as int,
                        WorkerState::Terminated,
                    ),
                    ..old(self)@
                }),
            },
    {
        let ghost q0 = self.queue@;
        let ghost e0 = self.executed@;
        let signal = self.queue.remove(0);
        proof {
            assert(q0.remove(0) =~= q0.drop_first());
            lemma_stops_at_back_drop_first(q0);
        }
        match signal {
            ControlSignal::Run(work) => {
                proof {
                    assert(run_items(q0) == seq![work] + run_items(q0.drop_first()));
                    assert(e0 + run_items(q0) =~= e0.push(work) + run_items(q0.drop_first()));
                    assert(stop_count(q0) == stop_count(q0.drop_first()));
                }
                self.executed = Ghost(self.executed@.push(work));
                proof {
                    assert(self@ =~= (PoolModel {
                        queue: q0.drop_first(),
                        executed: e0.push(work),
                        ..old(self)@
                    }));
                }
                Some(work)
            },
            ControlSignal::Stop => {
                proof {
                    assert(run_items(q0) == run_items(q0.drop_first()));
                    assert(stop_count(q0) == 1 + stop_count(q0.drop_first()));
                    lemma_running_count_update(self.workers@, worker as int);
                }
                self.workers[worker] = WorkerState::Terminated;
                proof {
                    assert(self@ =~= (PoolModel {
                        queue: q0.drop_first(),
                        workers: old(self)@.workers.update(
                            worker as int,
                            WorkerState::Terminated,
                        ),
                        ..old(self)@
                    }));
                }
                None
            },
        }
    }

    /// Records that a worker's thread died while executing a work item: the
    /// failure terminates only that worker's slot, never the pool, which
    /// from then on runs with one slot of capacity fewer.
    pub fn worker_failed(&mut self, worker: usize)
        requires
            old(self)@.wf(),
            worker < old(self)@.workers.len(),
            old(self)@.workers[worker as int] is Running,
        ensures
            final(self)@.wf(),
            final(self)@ == (PoolModel {
                workers: old(self)@.workers.update(worker as int, WorkerState::Terminated),
                ..old(self)@
            }),
    {
        proof {
            lemma_running_count_update(self.workers@, worker as int);
        }
        self.workers[worker] = WorkerState::Terminated;
        proof {
            assert(self@ =~= (PoolModel {
                workers: old(self)@.workers.update(worker as int, WorkerState::Terminated),
                ..old(self)@
            }));
        }
    }

    /// First phase of disposal: enqueues exactly one `Stop` per worker
    /// before any waiting begins. Signalling and waiting one worker at a
    /// time could let a busy worker swallow a stop signal meant for another
    /// while the dispatcher waits forever on that other worker; the
    /// broadcast rules that out.
    pub fn broadcast_stop(&mut self)
        requires
            old(self)@.wf(),
            !old(self)@.stopping,
        ensures
            final(self)@.wf(),
            final(self)@.stopping,
            final(self)@.workers == old(self)@.workers,
            final(self)@.submitted == old(self)@.submitted,
            final(self)@.executed == old(self)@.executed,
            run_items(final(self)@.queue) == run_items(old(self)@.queue),
            stop_count(final(self)@.queue) == old(self)@.workers.len(),
            final(self)@.queue.len() == old(self)@.queue.len() + old(self)@.workers.len(),
    {
        let ghost q0 = self.queue@;
        let ghost w0 = self.workers@;
        let ghost s0 = self.submitted@;
        let ghost e0 = self.executed@;
        proof {
            lemma_stop_count_zero_no_stops(q0);
        }
        let n = self.workers.len();
        let mut i: usize = 0;
        while i < n
            invariant
                i <= n,
                n == w0.len(),
                self.workers@ == w0,
                self.submitted@ == s0,
                self.executed@ == e0,
                !self.stopping,
                self.queue@.len() == q0.len() + i,
                run_items(self.queue@) == run_items(q0),
                stop_count(self.queue@) == i,
                stops_at_back(self.queue@),
            decreases n - i,
        {
            proof {
                lemma_run_items_push(self.queue@, ControlSignal::<T>::Stop);
                lemma_stop_count_push(self.queue@, ControlSignal::<T>::Stop);
                lemma_stops_at_back_push_stop(self.queue@);
            }
            self.queue.push(ControlSignal::Stop);
            i += 1;
        }
        self.stopping = true;
        proof {
            lemma_running_count_le_len(w0);
        }
    }

    /// The lowest-indexed worker that is still running, if there is one. In
    /// the model it stands for "some idle worker": which idle worker wins a
    /// given dequeue is unspecified, and nothing here depends on the choice.
    fn first_running(&self) -> (r: Option<usize>)
        ensures
            match r {
                Some(w) => w < self@.workers.len() && self@.workers[w as int] is Running,
                None => running_count(self@.workers) == 0,
            },
    {
        let mut i: usize = 0;
        while i < self.workers.len()
            invariant
                i <= self@.workers.len(),
                forall|j: int| 0 <= j < i ==> !(self@.workers[j] is Running),
            decreases self@.workers.len() - i,
        {
            if self.workers[i] == WorkerState::Running {
                return Some(i);
            }
            i += 1;
        }
        proof {
            assert(forall|j: int| 0 <= j < self@.workers.len() ==> self@.workers[j] is Terminated);
            lemma_running_count_zero(self@.workers);
        }
        None
    }

    /// Second phase of disposal: dequeues signal after signal, on behalf of
    /// whichever worker is still running, until every worker has terminated.
    /// Because the queue only ever shrinks, the wait ends after finitely
    /// many steps; because the stop signals stand behind all pending work,
    /// every pending unit is finished, in submission order, before the first
    /// worker exits — as long as at least one worker is still alive to do
    /// the finishing.
    pub fn drain(&mut self) -> (finished: Vec<T>)
        requires
            old(self)@.wf(),
            old(self)@.stopping,
        ensures
            final(self)@.wf(),
            final(self)@.stopping,
            final(self)@.workers.len() == old(self)@.workers.len(),
            final(self)@.submitted == old(self)@.submitted,
            forall|i: int|
                0 <= i < final(self)@.workers.len() ==> final(self)@.workers[i] is Terminated,
            final(self)@.executed == old(self)@.executed + finished@,
            finished@ + run_items(final(self)@.queue) == run_items(old(self)@.queue),
            running_count(old(self)@.workers) > 0 ==> finished@ == run_items(old(self)@.queue),
            stop_count(final(self)@.queue) + running_count(old(self)@.workers)
                == stop_count(old(self)@.queue),
    {
        let ghost q0 = self.queue@;
        let ghost w0 = self.workers@;
        let ghost s0 = self.submitted@;
        let ghost e0 = self.executed@;
        let ghost r0 = running_count(w0);
        let mut finished: Vec<T> = Vec::new();
        loop
            invariant
                self@.wf(),
                self@.stopping,
                self@.workers.len() == w0.len(),
                self@.submitted == s0,
                self@.executed == e0 + finished@,
                finished@ + run_items(self@.queue) == run_items(q0),
                running_count(self@.workers) <= r0,
                running_count(self@.workers) < r0 ==> run_items(self@.queue) == Seq::<T>::empty(),
                stop_count(self@.queue) + r0 == stop_count(q0) + running_count(self@.workers),
            ensures
                running_count(self@.workers) == 0,
            decreases self@.queue.len(),
        {
            let next = self.first_running();
            match next {
                None => {
                    break;
                },
                Some(w) => {
                    proof {
                        lemma_running_count_positive(self.workers@, w as int);
                        lemma_stop_count_le_len(self.queue@);
                    }
                    let ghost qpre = self.queue@;
                    let ghost wpre = self.workers@;
                    let ghost fpre = finished@;
                    let r = self.step(w);
                    match r {
                        Some(work) => {
                            proof {
                                assert(qpre[0] == ControlSignal::Run(work));
                                let tail = qpre.drop_first();
                                assert(run_items(qpre) == seq![work] + run_items(tail));
                                assert((e0 + fpre).push(work) =~= e0 + fpre.push(work));
                                assert(fpre.push(work) + run_items(tail) =~= fpre + (seq![work]
                                    + run_items(tail)));
                                assert(stop_count(qpre) == stop_count(qpre.drop_first()));
                            }
                            finished.push(work);
                        },
                        None => {
                            proof {
                                assert(qpre[0] is Stop);
                                assert(forall|j: int| 0 <= j < qpre.len() ==> qpre[j] is Stop);
                                lemma_run_items_all_stops(qpre);
                                assert(run_items(qpre) == run_items(qpre.drop_first()));
                                assert(stop_count(qpre) == 1 + stop_count(qpre.drop_first()));
                                lemma_running_count_update(wpre, w as int);
                                assert(fpre + run_items(self@.queue) == run_items(q0));
                            }
                        },
                    }
                },
            }
        }
        proof {
            lemma_running_count_zero(self.workers@);
            if r0 > 0 {
                assert(run_items(self.queue@) == Seq::<T>::empty());
                assert(finished@ + Seq::<T>::empty() =~= finished@);
            }
        }
        finished
    }

    /// Disposes of the pool: the two-phase shutdown. One `Stop` per worker
    /// is broadcast, and only then does the waiting begin. Disposal always
    /// terminates; when at least one worker is still alive it finishes every
    /// pending unit of work, in submission order, so that at the end the
    /// execution history is exactly the submission history; and when no
    /// worker has failed, the queue is left completely empty — every stop
    /// signal was consumed by exactly one worker.
    pub fn dispose(&mut self) -> (finished: Vec<T>)
        requires
            old(self)@.wf(),
            !old(self)@.stopping,
        ensures
            final(self)@.wf(),
            final(self)@.stopping,
            final(self)@.workers.len() == old(self)@.workers.len(),
            final(self)@.submitted == old(self)@.submitted,
            forall|i: int|
                0 <= i < final(self)@.workers.len() ==> final(self)@.workers[i] is Terminated,
            final(self)@.executed == old(self)@.executed + finished@,
            finished@ + run_items(final(self)@.queue) == run_items(old(self)@.queue),
            running_count(old(self)@.workers) > 0 ==> finished@ == run_items(old(self)@.queue)
                && final(self)@.executed == old(self)@.submitted,
            stop_count(final(self)@.queue) + running_count(old(self)@.workers)
                == old(self)@.workers.len(),
            running_count(old(self)@.workers) == old(self)@.workers.len()
                ==> final(self)@.queue.len() == 0,
    {
        let ghost r0 = running_count(self.workers@);
        let ghost n0 = self.workers@.len();
        self.broadcast_stop();
        let finished = self.drain();
        proof {
            lemma_queue_len_split(self.queue@);
            if r0 > 0 {
                assert(run_items(self.queue@).len() == 0);
                assert(run_items(self.queue@) =~= Seq::<T>::empty());
                assert(self.executed@ + Seq::<T>::empty() =~= self.executed@);
            }
        }
        finished
    }

    /// How many worker slots the pool was constructed with; fixed for the
    /// pool's whole lifetime.
    pub fn worker_count(&self) -> (n: usize)
        ensures
            n == self@.workers.len(),
    {
        self.workers.len()
    }

    /// How many workers are still running.
    pub fn running_workers(&self) -> (n: usize)
        ensures
            n == running_count(self@.workers),
    {
        let mut n: usize = 0;
        let mut i: usize = 0;
        while i < self.workers.len()
            invariant
                i <= self@.workers.len(),
                n <= i,
                n == running_count(self@.workers.take(i as int)),
            decreases self@.workers.len() - i,
        {
            proof {
                assert(self@.workers.take(i + 1) =~= self@.workers.take(i as int).push(
                    self@.workers[i as int],
                ));
                lemma_running_count_push(self@.workers.take(i as int), self@.workers[i as int]);
            }
            if self.workers[i] == WorkerState::Running {
                n += 1;
            }
            i += 1;
        }
        proof {
            assert(self@.workers.take(self@.workers.len() as int) =~= self@.workers);
        }
        n
    }

    /// Whether the worker at `worker` is still running.
    pub fn worker_is_running(&self, worker: usize) -> (r: bool)
        requires
            worker < self@.workers.len(),
        ensures
            r == (self@.workers[worker as int] is Running),
    {
        self.workers[worker] == WorkerState::Running
    }

    /// How many control signals are pending in the shared queue.
    pub fn queue_len(&self) -> (n: usize)
        ensures
            n == self@.queue.len(),
    {
        self.queue.len()
    }

    /// Whether disposal has begun: once true, no further work may be
    /// submitted.
    pub fn is_stopping(&self) -> (r: bool)
        ensures
            r == self@.stopping,
    {
        self.stopping
    }
}

/// Exactly-once, in-order hand-off. In every pool state this interface can
/// reach, the executed items are exactly the first `executed.len()` items
/// ever submitted, in submission order, and the queued work is exactly the
/// remainder, in order: no unit of work is duplicated, reordered, or
/// silently dropped while the pool is alive.
pub proof fn lemma_exactly_once_in_order<T>(m: PoolModel<T>)
    requires
        m.wf(),
    ensures
        m.executed == m.submitted.take(m.executed.len() as int),
        run_items(m.queue) == m.submitted.skip(m.executed.len() as int),
{
    assert(m.executed =~= (m.executed + run_items(m.queue)).take(m.executed.len() as int));
    assert(run_items(m.queue) =~= (m.executed + run_items(m.queue)).skip(
        m.executed.len() as int,
    ));
}

} // verus!
