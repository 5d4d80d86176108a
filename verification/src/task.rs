//! The requests that a waiter manager serves.
use vstd::prelude::*;

use crate::decimal;
use crate::decimal::push_decimal;
use crate::error::ProcessResult;
use crate::waiter::Lock;

verus! {

/// A request to the waiter manager.
///
/// `C` is the type of the callbacks of transactions, `R` that of the values
/// that their commands hand back, and `D` that of the callbacks that are given
/// the wait-for graph.
pub enum Task<C, R, D> {
    /// The transaction `start_ts` is to wait for `lock`.
    WaitFor { start_ts: u64, cb: C, pr: ProcessResult<R>, lock: Lock, is_first_lock: bool },
    /// The transaction `lock_ts` released its locks with these hashes and
    /// committed at `commit_ts`.
    WakeUp { lock_ts: u64, hashes: Vec<u64>, commit_ts: u64 },
    /// The wait-for graph is asked for.
    Dump { cb: D },
    /// Waiting for `lock` got the transaction `start_ts` into a deadlock.
    Deadlock { start_ts: u64, lock: Lock, deadlock_key_hash: u64 },
}

/// What a task reads like in a log.
pub open spec fn task_text<C, R, D>(task: Task<C, R, D>) -> Seq<char> {
    match task {
        Task::WaitFor { start_ts, lock, .. } => "txn:"@ + decimal::decimal(start_ts as nat)
            + " waiting for "@ + decimal::decimal(lock.ts as nat) + ":"@ + decimal::decimal(
            lock.hash as nat,
        ),
        Task::WakeUp { lock_ts, .. } => "waking up txns waiting for "@ + decimal::decimal(
            lock_ts as nat,
        ),
        Task::Dump { .. } => "dump"@,
        Task::Deadlock { start_ts, .. } => "txn:"@ + decimal::decimal(start_ts as nat)
            + " deadlock"@,
    }
}

impl<C, R, D> Task<C, R, D> {
    /// What the task reads like in a log.
    pub fn to_string(&self) -> (text: String)
        ensures
            text@ == task_text(*self),
            match *self {
                Task::WaitFor { start_ts, lock, .. } => text@ == "txn:"@ + decimal::decimal(
                    start_ts as nat,
                ) + " waiting for "@ + decimal::decimal(lock.ts as nat) + ":"@ + decimal::decimal(
                    lock.hash as nat,
                ),
                Task::WakeUp { lock_ts, .. } => text@ == "waking up txns waiting for "@
                    + decimal::decimal(lock_ts as nat),
                Task::Dump { .. } => text@ == "dump"@,
                Task::Deadlock { start_ts, .. } => text@ == "txn:"@ + decimal::decimal(
                    start_ts as nat,
                ) + " deadlock"@,
            },
    {
        let mut text = String::new();
        match self {
            Task::WaitFor { start_ts, lock, .. } => {
                text.append("txn:");
                push_decimal(&mut text, *start_ts);
                text.append(" waiting for ");
                push_decimal(&mut text, lock.ts);
                text.append(":");
                push_decimal(&mut text, lock.hash);
            },
            Task::WakeUp { lock_ts, .. } => {
                text.append("waking up txns waiting for ");
                push_decimal(&mut text, *lock_ts);
            },
            Task::Dump { .. } => {
                text.append("dump");
            },
            Task::Deadlock { start_ts, .. } => {
                text.append("txn:");
                push_decimal(&mut text, *start_ts);
                text.append(" deadlock");
            },
        }
        assert(text@ =~= task_text(*self));
        text
    }
}

} // verus!
