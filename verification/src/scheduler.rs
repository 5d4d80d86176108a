//! The sending side of a waiter manager.
use vstd::prelude::*;

use crate::error::ProcessResult;
use crate::task::Task;
use crate::waiter::{Lock, Reply};

verus! {

/// A task that came back because the worker it was sent to has stopped.
pub struct Stopped<T>(pub T);

/// What is left to do once a task was sent: nothing if the worker took it. If
/// not, a transaction that would have waited is answered at once with the
/// result that it came with, and any other task is dropped.
pub open spec fn answer_to_refusal<C, R, D>(
    outcome: Result<(), Stopped<Task<C, R, D>>>,
) -> Option<Reply<C, R>> {
    match outcome {
        Err(Stopped(Task::WaitFor { cb, pr, .. })) => Some(Reply { cb, pr }),
        _ => None,
    }
}

/// Makes the tasks for a waiter manager and holds the queue, of type `S`, that
/// they are sent through.
#[derive(Clone)]
pub struct Scheduler<S>(S);

impl<S> Scheduler<S> {
    /// The queue that tasks are sent through.
    pub closed spec fn spec_queue(&self) -> S {
        self.0
    }

    /// A scheduler that sends through this queue.
    pub fn new(scheduler: S) -> (r: Self)
        ensures
            r.spec_queue() == scheduler,
    {
        Scheduler(scheduler)
    }

    /// The queue that tasks are sent through.
    pub fn queue(&self) -> (queue: &S)
        ensures
            *queue == self.spec_queue(),
    {
        &self.0
    }

    /// Draws the consequences of sending a task, given what the queue said:
    /// whether the task was taken, and whom to answer if it was not.
    pub fn notify_scheduler<C, R, D>(&self, outcome: Result<(), Stopped<Task<C, R, D>>>) -> (r: (
        bool,
        Option<Reply<C, R>>,
    ))
        ensures
            r.0 == outcome is Ok,
            r.1 == answer_to_refusal(outcome),
            match outcome {
                Err(Stopped(Task::WaitFor { cb, pr, .. })) => {
                    &&& r.1 matches Some(reply)
                    &&& reply.cb == cb
                    &&& reply.pr == pr
                },
                _ => r.1 is None,
            },
    {
        match outcome {
            Ok(()) => (true, None),
            Err(Stopped(Task::WaitFor { cb, pr, .. })) => (false, Some(Reply { cb, pr })),
            Err(_) => (false, None),
        }
    }

    /// The task that makes a transaction wait for `lock`.
    pub fn wait_for<C, R, D>(
        &self,
        start_ts: u64,
        cb: C,
        pr: ProcessResult<R>,
        lock: Lock,
        is_first_lock: bool,
    ) -> (task: Task<C, R, D>)
        ensures
            task == (Task::<C, R, D>::WaitFor { start_ts, cb, pr, lock, is_first_lock }),
    {
        Task::WaitFor { start_ts, cb, pr, lock, is_first_lock }
    }

    /// The task that wakes up those who wait for locks of `lock_ts` with these
    /// hashes.
    pub fn wake_up<C, R, D>(&self, lock_ts: u64, hashes: Vec<u64>, commit_ts: u64) -> (task: Task<
        C,
        R,
        D,
    >)
        ensures
            task == (Task::<C, R, D>::WakeUp { lock_ts, hashes, commit_ts }),
    {
        Task::WakeUp { lock_ts, hashes, commit_ts }
    }

    /// The task that gives `cb` the wait-for graph.
    pub fn dump_wait_table<C, R, D>(&self, cb: D) -> (task: Task<C, R, D>)
        ensures
            task == (Task::<C, R, D>::Dump { cb }),
    {
        Task::Dump { cb }
    }

    /// The task that tells a transaction of the deadlock it is in.
    pub fn deadlock<C, R, D>(&self, txn_ts: u64, lock: Lock, deadlock_key_hash: u64) -> (task: Task<
        C,
        R,
        D,
    >)
        ensures
            task == (Task::<C, R, D>::Deadlock { start_ts: txn_ts, lock, deadlock_key_hash }),
    {
        Task::Deadlock { start_ts: txn_ts, lock, deadlock_key_hash }
    }
}

} // verus!
