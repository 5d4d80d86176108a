//! Locks, the transactions that wait for them, and how a waiter is answered.
use vstd::prelude::*;

use crate::error::{MvccError, ProcessResult, StorageError, TxnError};

verus! {

/// A lock: the start timestamp of the transaction that holds it, and the hash
/// of the locked key.
#[derive(Clone, Copy, Debug, PartialEq, Eq, Structural)]
pub struct Lock {
    pub ts: u64,
    pub hash: u64,
}

/// A transaction that waits for a lock.
///
/// `cb` is the callback that the transaction's client is waiting on, and `pr`
/// the result to run it with should the wait time out.
pub struct Waiter<C, R> {
    pub start_ts: u64,
    pub cb: C,
    pub pr: ProcessResult<R>,
    pub lock: Lock,
}

/// Waiters for locks of one transaction.
pub type Waiters<C, R> = Vec<Waiter<C, R>>;

/// A callback together with the result it is to be run with.
pub struct Reply<C, R> {
    pub cb: C,
    pub pr: ProcessResult<R>,
}

/// One edge of the wait-for graph: `txn` waits for `wait_for_txn`, which holds
/// the lock on the key with hash `key_hash`.
#[derive(Clone, Copy, Debug, PartialEq, Eq, Structural)]
pub struct WaitForEntry {
    pub txn: u64,
    pub wait_for_txn: u64,
    pub key_hash: u64,
}

/// The edge of the wait-for graph that `waiter` stands for.
pub open spec fn entry_of<C, R>(waiter: Waiter<C, R>) -> WaitForEntry {
    WaitForEntry {
        txn: waiter.start_ts,
        wait_for_txn: waiter.lock.ts,
        key_hash: waiter.lock.hash,
    }
}

/// `reply` runs `waiter`'s callback with a write conflict against the
/// transaction that held the lock and committed at `commit_ts`.
pub open spec fn is_conflict_reply<C, R>(
    reply: Reply<C, R>,
    waiter: Waiter<C, R>,
    commit_ts: u64,
) -> bool {
    &&& reply.cb == waiter.cb
    &&& reply.pr matches ProcessResult::Failed { err: StorageError::Txn(TxnError::Mvcc(err)) }
    &&& err matches MvccError::WriteConflict {
        start_ts,
        conflict_start_ts,
        conflict_commit_ts,
        key,
        primary,
    }
    &&& start_ts == waiter.start_ts
    &&& conflict_start_ts == waiter.lock.ts
    &&& conflict_commit_ts == commit_ts
    &&& key@ == Seq::<u8>::empty()
    &&& primary@ == Seq::<u8>::empty()
}

/// The reply that runs `waiter`'s callback with the deadlock that was found
/// when the transaction `start_ts` started to wait.
pub open spec fn deadlock_reply<C, R>(
    start_ts: u64,
    waiter: Waiter<C, R>,
    deadlock_key_hash: u64,
) -> Reply<C, R> {
    Reply {
        cb: waiter.cb,
        pr: ProcessResult::Failed {
            err: StorageError::Mvcc(
                MvccError::Deadlock {
                    start_ts,
                    lock_ts: waiter.lock.ts,
                    key_hash: waiter.lock.hash,
                    deadlock_key_hash,
                },
            ),
        },
    }
}

/// The reply that runs `waiter`'s callback with the result it came with.
pub open spec fn own_reply<C, R>(waiter: Waiter<C, R>) -> Reply<C, R> {
    Reply { cb: waiter.cb, pr: waiter.pr }
}

/// Answers a waiter whose lock was released by a transaction that committed
/// at `commit_ts`: it has to start over, so it is told of a write conflict.
///
/// `commit_ts` may be smaller than the waiter's for-update timestamp, in which
/// case the client has to fetch a newer timestamp before it tries again. Were
/// the latest commit timestamp kept somewhere, it could be handed out here and
/// save the client that step.
pub fn wake_up_waiter<C, R>(waiter: Waiter<C, R>, commit_ts: u64) -> (reply: Reply<C, R>)
    ensures
        is_conflict_reply(reply, waiter, commit_ts),
        reply.cb == waiter.cb,
        ({
            &&& reply.pr matches ProcessResult::Failed {
                err: StorageError::Txn(TxnError::Mvcc(err)),
            }
            &&& err matches MvccError::WriteConflict {
                start_ts,
                conflict_start_ts,
                conflict_commit_ts,
                key,
                primary,
            }
            &&& start_ts == waiter.start_ts
            &&& conflict_start_ts == waiter.lock.ts
            &&& conflict_commit_ts == commit_ts
            &&& key@.len() == 0
            &&& primary@.len() == 0
        }),
{
    let mvcc_err = MvccError::WriteConflict {
        start_ts: waiter.start_ts,
        conflict_start_ts: waiter.lock.ts,
        conflict_commit_ts: commit_ts,
        key: Vec::new(),
        primary: Vec::new(),
    };
    let pr = ProcessResult::Failed { err: StorageError::from(TxnError::from(mvcc_err)) };
    Reply { cb: waiter.cb, pr }
}

} // verus!
