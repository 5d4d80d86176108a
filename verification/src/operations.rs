//! What each operation comes to, in terms of what it is given and of what is in
//! the table.
use vstd::multiset::Multiset;
use vstd::prelude::*;

use crate::decimal;
use crate::error::{MvccError, ProcessResult, StorageError, TxnError};
use crate::laws;
use crate::manager;
use crate::manager::{Action, ManagerView};
use crate::pool;
use crate::scheduler;
use crate::scheduler::Stopped;
use crate::task;
use crate::task::Task;
use crate::wait_table;
use crate::wait_table::{TableView, WaitTable};
use crate::waiter;
use crate::waiter::{Lock, Reply, WaitForEntry, Waiter};

verus! {

/// A transaction that is to wait joins the end of the queue for the holder of
/// the lock, and nothing else changes. The deadlock detector is asked about
/// this very transaction and lock, unless it is the first lock, and the wait is
/// given the set timeout.
pub proof fn waiting_files_detects_and_times<S, C, R, D>(
    pre: ManagerView<S, C, R>,
    waiter: Waiter<C, R>,
    is_first_lock: bool,
    post: ManagerView<S, C, R>,
    actions: Seq<Action<C, R, D>>,
)
    requires
        manager::serves(
            pre,
            Task::<C, R, D>::WaitFor {
                start_ts: waiter.start_ts,
                cb: waiter.cb,
                pr: waiter.pr,
                lock: waiter.lock,
                is_first_lock,
            },
            post,
            actions,
        ),
    ensures
        post.table.contains_key(waiter.lock.ts),
        post.table[waiter.lock.ts].last() == waiter,
        post.table[waiter.lock.ts].drop_last() == if pre.table.contains_key(waiter.lock.ts) {
            pre.table[waiter.lock.ts]
        } else {
            Seq::empty()
        },
        post.table.remove(waiter.lock.ts) == pre.table.remove(waiter.lock.ts),
        post.detector_scheduler == pre.detector_scheduler,
        post.wait_for_lock_timeout == pre.wait_for_lock_timeout,
        post.wake_up_delay_duration == pre.wake_up_delay_duration,
        actions.len() == if is_first_lock {
            1nat
        } else {
            2
        },
        !is_first_lock ==> {
            &&& actions[0] matches Action::Detect { start_ts, lock }
            &&& start_ts == waiter.start_ts
            &&& lock.ts == waiter.lock.ts
            &&& lock.hash == waiter.lock.hash
        },
        ({
            &&& actions.last() matches Action::TimeOutLater { delay, start_ts, lock }
            &&& delay == pre.wait_for_lock_timeout
            &&& start_ts == waiter.start_ts
            &&& lock.ts == waiter.lock.ts
            &&& lock.hash == waiter.lock.hash
        }),
        forall|i: int|
            0 <= i < actions.len() ==> (#[trigger] actions[i] matches Action::Detect {
                start_ts,
                lock,
            } ==> start_ts == waiter.start_ts && lock == waiter.lock),
{
    assert(post.table[waiter.lock.ts].drop_last() =~= if pre.table.contains_key(waiter.lock.ts) {
        pre.table[waiter.lock.ts]
    } else {
        Seq::empty()
    });
    assert(post.table.remove(waiter.lock.ts) =~= pre.table.remove(waiter.lock.ts));
}

/// A wake-up answers those who wait for the transaction `lock_ts` on a key with
/// one of the hashes, each as often as it waits and nobody else. They have
/// their turn in the order of their start timestamps. In its turn a waiter is
/// taken off the deadlock detector and then failed with a write conflict
/// against `lock_ts` and `commit_ts`: at once if no delay is set, else after as
/// many delays as there were turns before.
pub proof fn wake_up_answers_the_ready<S, C, R, D>(
    pre: ManagerView<S, C, R>,
    lock_ts: u64,
    hashes: Vec<u64>,
    commit_ts: u64,
    post: ManagerView<S, C, R>,
    actions: Seq<Action<C, R, D>>,
)
    requires
        pre.wf(),
        manager::can_serve(pre, Task::<C, R, D>::WakeUp { lock_ts, hashes, commit_ts }),
        manager::serves(pre, Task::<C, R, D>::WakeUp { lock_ts, hashes, commit_ts }, post, actions),
    ensures
        exists|order: Seq<Waiter<C, R>>|
            #![trigger order.to_multiset()]
            {
                &&& forall|w: Waiter<C, R>| #[trigger]
                    order.to_multiset().count(w) == if pre.table.contains_key(lock_ts)
                        && hashes@.contains(w.lock.hash) {
                        pre.table[lock_ts].to_multiset().count(w)
                    } else {
                        0
                    }
                &&& forall|i: int, j: int|
                    0 <= i <= j < order.len() ==> order[i].start_ts <= order[j].start_ts
                &&& actions.len() == 2 * order.len()
                &&& forall|i: int|
                    #![trigger order[i]]
                    0 <= i < order.len() ==> {
                        &&& order[i].lock.ts == lock_ts
                        &&& actions[2 * i] matches Action::CleanUpWaitFor { start_ts, lock }
                        &&& start_ts == order[i].start_ts
                        &&& lock.ts == lock_ts
                        &&& lock.hash == order[i].lock.hash
                        &&& pre.wake_up_delay_duration > 0 ==> {
                            &&& actions[2 * i + 1] matches Action::WakeUpLater {
                                delay,
                                waiter,
                                commit_ts: at,
                            }
                            &&& delay == pre.wake_up_delay_duration * i
                            &&& waiter == order[i]
                            &&& at == commit_ts
                        }
                        &&& pre.wake_up_delay_duration == 0 ==> {
                            &&& actions[2 * i + 1] matches Action::ExecuteCallback(reply)
                            &&& reply.cb == order[i].cb
                            &&& reply.pr matches ProcessResult::Failed {
                                err: StorageError::Txn(TxnError::Mvcc(err)),
                            }
                            &&& err matches MvccError::WriteConflict {
                                start_ts: failed,
                                conflict_start_ts,
                                conflict_commit_ts,
                                key,
                                primary,
                            }
                            &&& failed == order[i].start_ts
                            &&& conflict_start_ts == lock_ts
                            &&& conflict_commit_ts == commit_ts
                            &&& key@.len() == 0
                            &&& primary@.len() == 0
                        }
                    }
            },
{
    broadcast use vstd::seq_lib::group_to_multiset_ensures;

    let wanted = hashes@.to_set();
    let duration = pre.wake_up_delay_duration;
    let ready = wait_table::ready(pre.table, lock_ts, wanted);
    let order = choose|order: Seq<Waiter<C, R>>|
        {
            &&& manager::is_wake_up_order(order, ready)
            &&& #[trigger] manager::wakes_up_in_turn(actions, duration, order, commit_ts)
        };
    wait_table::lemma_released(pre.table, lock_ts, wanted);
    assert(order.len() == order.to_multiset().len());
    assert(ready.len() == ready.to_multiset().len());
    assert forall|i: int| 0 <= i < order.len() implies (#[trigger] order[i]).lock.ts == lock_ts by {
        let w = order[i];
        assert(order.contains(w));
        assert(ready.to_multiset().count(w) > 0);
        assert(pre.table[lock_ts].contains(w));
        let k = pre.table[lock_ts].index_of(w);
        assert(pre.table[lock_ts][k].lock.ts == lock_ts);
    }
    assert forall|i: int| #![trigger order[i]] 0 <= i < order.len() implies 0 <= duration * i
        <= u64::MAX by {
        let n = order.len();
        assert(duration * i <= duration * (n - 1)) by (nonlinear_arith)
            requires
                i <= n - 1,
        ;
        assert(0 <= duration * i) by (nonlinear_arith)
            requires
                0 <= i,
        ;
    }
    assert forall|w: Waiter<C, R>| #[trigger]
        order.to_multiset().count(w) == if pre.table.contains_key(lock_ts) && hashes@.contains(
            w.lock.hash,
        ) {
            pre.table[lock_ts].to_multiset().count(w)
        } else {
            0
        } by {
        assert(ready.to_multiset().count(w) == order.to_multiset().count(w));
    }
}

/// A wake-up leaves in the table those who are not answered: for `lock_ts` those
/// who wait on a key with another hash, and for any other transaction all.
pub proof fn wake_up_keeps_the_others<S, C, R, D>(
    pre: ManagerView<S, C, R>,
    lock_ts: u64,
    hashes: Vec<u64>,
    commit_ts: u64,
    post: ManagerView<S, C, R>,
    actions: Seq<Action<C, R, D>>,
)
    requires
        manager::serves(pre, Task::<C, R, D>::WakeUp { lock_ts, hashes, commit_ts }, post, actions),
    ensures
        post.table.remove(lock_ts) == pre.table.remove(lock_ts),
        post.table.contains_key(lock_ts) <==> (pre.table.contains_key(lock_ts) && exists|i: int|
            0 <= i < pre.table[lock_ts].len() && !hashes@.contains(
                (#[trigger] pre.table[lock_ts][i]).lock.hash,
            )),
        post.table.contains_key(lock_ts) ==> forall|w: Waiter<C, R>| #[trigger]
            post.table[lock_ts].to_multiset().count(w) == if hashes@.contains(w.lock.hash) {
                0
            } else {
                pre.table[lock_ts].to_multiset().count(w)
            },
        post.detector_scheduler == pre.detector_scheduler,
        post.wait_for_lock_timeout == pre.wait_for_lock_timeout,
        post.wake_up_delay_duration == pre.wake_up_delay_duration,
{
    wait_table::lemma_released(pre.table, lock_ts, hashes@.to_set());
}

/// A deadlock ends the first wait of the transaction for the lock. The one action
/// is to fail its callback with a deadlock that names the transaction, the lock
/// and the key that closes the cycle. Nothing happens if there is no such wait.
pub proof fn deadlock_is_reported<S, C, R, D>(
    pre: ManagerView<S, C, R>,
    start_ts: u64,
    lock: Lock,
    deadlock_key_hash: u64,
    post: ManagerView<S, C, R>,
    actions: Seq<Action<C, R, D>>,
)
    requires
        pre.wf(),
        manager::serves(
            pre,
            Task::<C, R, D>::Deadlock { start_ts, lock, deadlock_key_hash },
            post,
            actions,
        ),
    ensures
        post.detector_scheduler == pre.detector_scheduler,
        post.wait_for_lock_timeout == pre.wait_for_lock_timeout,
        post.wake_up_delay_duration == pre.wake_up_delay_duration,
        forall|i: int|
            #![trigger pre.table[lock.ts][i]]
            {
                &&& pre.table.contains_key(lock.ts)
                &&& 0 <= i < pre.table[lock.ts].len()
                &&& pre.table[lock.ts][i].start_ts == start_ts
                &&& pre.table[lock.ts][i].lock.hash == lock.hash
                &&& forall|j: int|
                    0 <= j < i ==> (#[trigger] pre.table[lock.ts][j]).start_ts != start_ts
                        || pre.table[lock.ts][j].lock.hash != lock.hash
            } ==> {
                &&& post.table == if pre.table[lock.ts].len() == 1 {
                    pre.table.remove(lock.ts)
                } else {
                    pre.table.insert(lock.ts, pre.table[lock.ts].remove(i))
                }
                &&& actions.len() == 1
                &&& actions[0] matches Action::ExecuteCallback(reply)
                &&& reply.cb == pre.table[lock.ts][i].cb
                &&& reply.pr matches ProcessResult::Failed {
                    err: StorageError::Mvcc(
                        MvccError::Deadlock {
                            start_ts: failed,
                            lock_ts,
                            key_hash,
                            deadlock_key_hash: closing,
                        },
                    ),
                }
                &&& failed == start_ts
                &&& lock_ts == lock.ts
                &&& key_hash == lock.hash
                &&& closing == deadlock_key_hash
            },
        (pre.table.contains_key(lock.ts) && exists|i: int|
            0 <= i < pre.table[lock.ts].len() && (#[trigger] pre.table[lock.ts][i]).start_ts
                == start_ts && pre.table[lock.ts][i].lock.hash == lock.hash) ==> actions.len() == 1,
        !(pre.table.contains_key(lock.ts) && exists|i: int|
            0 <= i < pre.table[lock.ts].len() && (#[trigger] pre.table[lock.ts][i]).start_ts
                == start_ts && pre.table[lock.ts][i].lock.hash == lock.hash) ==> actions.len() == 0
            && post == pre,
{
    wait_table::lemma_removed(pre.table, start_ts, lock);
}

/// A timeout ends the first wait of the transaction for the lock. The deadlock
/// detector is told that this wait is over, and the callback that the
/// transaction came with is run with the result that it came with, whatever that
/// is. Nothing happens if there is no such wait.
pub proof fn timeout_answers_with_own_result<C, R, D>(
    table: TableView<C, R>,
    start_ts: u64,
    lock: Lock,
    left: TableView<C, R>,
    actions: Seq<Action<C, R, D>>,
)
    requires
        left == wait_table::removed(table, start_ts, lock),
        actions == manager::timeout_actions::<C, R, D>(table, start_ts, lock),
    ensures
        forall|i: int|
            #![trigger table[lock.ts][i]]
            {
                &&& table.contains_key(lock.ts)
                &&& 0 <= i < table[lock.ts].len()
                &&& table[lock.ts][i].start_ts == start_ts
                &&& table[lock.ts][i].lock.hash == lock.hash
                &&& forall|j: int|
                    0 <= j < i ==> (#[trigger] table[lock.ts][j]).start_ts != start_ts
                        || table[lock.ts][j].lock.hash != lock.hash
            } ==> {
                &&& left == if table[lock.ts].len() == 1 {
                    table.remove(lock.ts)
                } else {
                    table.insert(lock.ts, table[lock.ts].remove(i))
                }
                &&& actions.len() == 2
                &&& actions[0] matches Action::CleanUpWaitFor { start_ts: over, lock: freed }
                &&& over == start_ts
                &&& freed == lock
                &&& actions[1] matches Action::ExecuteCallback(reply)
                &&& reply.cb == table[lock.ts][i].cb
                &&& reply.pr == table[lock.ts][i].pr
            },
        (table.contains_key(lock.ts) && exists|i: int|
            0 <= i < table[lock.ts].len() && (#[trigger] table[lock.ts][i]).start_ts == start_ts
                && table[lock.ts][i].lock.hash == lock.hash) ==> actions.len() == 2,
        !(table.contains_key(lock.ts) && exists|i: int|
            0 <= i < table[lock.ts].len() && (#[trigger] table[lock.ts][i]).start_ts == start_ts
                && table[lock.ts][i].lock.hash == lock.hash) ==> actions.len() == 0 && left
            == table,
{
    wait_table::lemma_removed(table, start_ts, lock);
}

/// Whoever is answered as [`waiter::wake_up_waiter`] says is failed: the callback
/// it came with is run with a write conflict between its own start timestamp and
/// that of the holder of its lock.
pub proof fn woken_waiter_is_failed<C, R>(
    reply: Reply<C, R>,
    waiter: Waiter<C, R>,
    commit_ts: u64,
)
    requires
        waiter::is_conflict_reply(reply, waiter, commit_ts),
    ensures
        reply.cb == waiter.cb,
        ({
            &&& reply.pr matches ProcessResult::Failed {
                err: StorageError::Txn(TxnError::Mvcc(err)),
            }
            &&& err matches MvccError::WriteConflict {
                start_ts,
                conflict_start_ts,
                conflict_commit_ts,
                key,
                primary,
            }
            &&& start_ts == waiter.start_ts
            &&& conflict_start_ts == waiter.lock.ts
            &&& conflict_commit_ts == commit_ts
            &&& key@.len() == 0
            &&& primary@.len() == 0
        }),
{
}

/// Of what `s` is mapped to, a value occurs as often as things in `s` that are
/// mapped to it.
proof fn lemma_count_mapped<T, U>(
    s: Seq<T>,
    f: spec_fn(T) -> U,
    u: U,
    p: spec_fn(T) -> bool,
)
    requires
        forall|x: T| #[trigger] p(x) == (f(x) == u),
    ensures
        s.map_values(f).to_multiset().count(u) == s.to_multiset().filter(p).len(),
    decreases s.len(),
{
    broadcast use vstd::seq_lib::group_to_multiset_ensures;

    if s.len() == 0 {
        assert(s.map_values(f) =~= Seq::empty());
        assert(s.to_multiset().filter(p) =~= Multiset::empty());
    } else {
        let front = s.drop_last();
        let x = s.last();
        lemma_count_mapped(front, f, u, p);
        assert(s =~= front.push(x));
        assert(s.map_values(f) =~= front.map_values(f).push(f(x)));
        let before = front.to_multiset().filter(p);
        if p(x) {
            assert(s.to_multiset().filter(p) =~= before.insert(x));
        } else {
            assert(s.to_multiset().filter(p) =~= before);
        }
    }
}

/// What is joined comes from one of the visited lists.
proof fn lemma_joined_source<T>(m: Map<u64, Seq<T>>, keys: Seq<u64>, n: int) -> (r: (int, int))
    requires
        0 <= n < pool::joined(m, keys).len(),
    ensures
        0 <= r.0 < keys.len(),
        0 <= r.1 < m[keys[r.0]].len(),
        pool::joined(m, keys)[n] == m[keys[r.0]][r.1],
    decreases keys.len(),
{
    let front = pool::joined(m, keys.drop_last());
    if n < front.len() {
        lemma_joined_source(m, keys.drop_last(), n)
    } else {
        (keys.len() - 1, n - front.len())
    }
}

/// A visited list is joined as a whole.
proof fn lemma_joined_row<T>(m: Map<u64, Seq<T>>, keys: Seq<u64>, k: int) -> (at: int)
    requires
        0 <= k < keys.len(),
    ensures
        0 <= at,
        at + m[keys[k]].len() <= pool::joined(m, keys).len(),
        forall|i: int|
            0 <= i < m[keys[k]].len() ==> #[trigger] pool::joined(m, keys)[at + i]
                == m[keys[k]][i],
    decreases keys.len(),
{
    let front = pool::joined(m, keys.drop_last());
    if k < keys.len() - 1 {
        let at = lemma_joined_row(m, keys.drop_last(), k);
        assert forall|i: int| 0 <= i < m[keys[k]].len() implies #[trigger] pool::joined(m, keys)[at
            + i] == m[keys[k]][i] by {
            assert(pool::joined(m, keys)[at + i] == front[at + i]);
        }
        at
    } else {
        front.len() as int
    }
}

/// Those who wait for one transaction stand in a row in the wait-for graph, in
/// the order in which they wait, each with its own start timestamp, that of the
/// holder of its lock and the hash of the key.
pub proof fn graph_has_each_wait<C, R>(
    entries: Seq<WaitForEntry>,
    table: TableView<C, R>,
    ts: u64,
)
    requires
        manager::is_graph_of(entries, table),
        table.contains_key(ts),
    ensures
        exists|at: int|
            #![trigger entries.skip(at)]
            {
                &&& 0 <= at
                &&& at + table[ts].len() <= entries.len()
                &&& forall|i: int|
                    #![trigger table[ts][i]]
                    0 <= i < table[ts].len() ==> {
                        &&& entries[at + i].txn == table[ts][i].start_ts
                        &&& entries[at + i].wait_for_txn == table[ts][i].lock.ts
                        &&& entries[at + i].key_hash == table[ts][i].lock.hash
                    }
            },
{
    let order = choose|order: Seq<u64>| wait_table::lists_waits(entries, table, order);
    let all = pool::joined(table, order);
    assert(order.to_set().contains(ts));
    let k = order.index_of(ts);
    let at = lemma_joined_row(table, order, k);
    assert forall|i: int| #![trigger table[ts][i]] 0 <= i < table[ts].len() implies {
        &&& entries[at + i].txn == table[ts][i].start_ts
        &&& entries[at + i].wait_for_txn == table[ts][i].lock.ts
        &&& entries[at + i].key_hash == table[ts][i].lock.hash
    } by {
        assert(all[at + i] == table[ts][i]);
    }
    assert(entries.skip(at).len() == entries.len() - at);
}

/// Each edge of the wait-for graph is that of somebody who waits.
pub proof fn graph_has_waits_only<C, R>(entries: Seq<WaitForEntry>, table: TableView<C, R>, n: int)
    requires
        manager::is_graph_of(entries, table),
        0 <= n < entries.len(),
    ensures
        exists|ts: u64, i: int|
            #![trigger table[ts][i]]
            {
                &&& table.contains_key(ts)
                &&& 0 <= i < table[ts].len()
                &&& entries[n].txn == table[ts][i].start_ts
                &&& entries[n].wait_for_txn == table[ts][i].lock.ts
                &&& entries[n].key_hash == table[ts][i].lock.hash
            },
{
    let order = choose|order: Seq<u64>| wait_table::lists_waits(entries, table, order);
    let (k, i) = lemma_joined_source(table, order, n);
    assert(order.to_set().contains(order[k]));
    assert(pool::joined(table, order)[n] == table[order[k]][i]);
}

/// An edge is in the wait-for graph exactly as often as there are waits of its
/// transaction for the holder and key that it names.
pub proof fn graph_counts_waits<C, R>(
    entries: Seq<WaitForEntry>,
    table: TableView<C, R>,
    e: WaitForEntry,
)
    requires
        table.dom().finite(),
        manager::is_graph_of(entries, table),
    ensures
        entries.to_multiset().count(e) == pool::pooled(table).filter(
            |w: Waiter<C, R>|
                w.start_ts == e.txn && w.lock.ts == e.wait_for_txn && w.lock.hash == e.key_hash,
        ).len(),
{
    let order = choose|order: Seq<u64>| wait_table::lists_waits(entries, table, order);
    let f = |waiter: Waiter<C, R>| waiter::entry_of(waiter);
    pool::lemma_joined_is_pooled(table, order);
    lemma_count_mapped(
        pool::joined(table, order),
        f,
        e,
        |w: Waiter<C, R>|
            w.start_ts == e.txn && w.lock.ts == e.wait_for_txn && w.lock.hash == e.key_hash,
    );
}

/// A dump changes nothing and hands the wait-for graph to the callback that
/// asked for it.
pub proof fn dump_hands_over_the_graph<S, C, R, D>(
    pre: ManagerView<S, C, R>,
    cb: D,
    post: ManagerView<S, C, R>,
    actions: Seq<Action<C, R, D>>,
)
    requires
        manager::serves(pre, Task::<C, R, D>::Dump { cb }, post, actions),
    ensures
        post == pre,
        actions.len() == 1,
        ({
            &&& actions[0] matches Action::Dump { cb: to, entries }
            &&& to == cb
            &&& manager::is_graph_of(entries@, pre.table)
        }),
{
}

/// One wait more is one edge more: that of the transaction, of the holder of the
/// lock and of the key it waits for.
pub proof fn one_wait_more_is_one_edge_more<C, R>(
    table: TableView<C, R>,
    ts: u64,
    waiter: Waiter<C, R>,
    entries1: Seq<WaitForEntry>,
    entries2: Seq<WaitForEntry>,
)
    requires
        table.dom().finite(),
        manager::is_graph_of(entries1, table),
        manager::is_graph_of(
            entries2,
            table.insert(
                ts,
                if table.contains_key(ts) {
                    table[ts].push(waiter)
                } else {
                    seq![waiter]
                },
            ),
        ),
    ensures
        entries2.to_multiset() == entries1.to_multiset().insert(
            WaitForEntry {
                txn: waiter.start_ts,
                wait_for_txn: waiter.lock.ts,
                key_hash: waiter.lock.hash,
            },
        ),
        entries2.len() == entries1.len() + 1,
{
    broadcast use vstd::seq_lib::group_to_multiset_ensures;

    let list = if table.contains_key(ts) {
        table[ts].push(waiter)
    } else {
        seq![waiter]
    };
    let table2 = table.insert(ts, list);
    let edge = WaitForEntry {
        txn: waiter.start_ts,
        wait_for_txn: waiter.lock.ts,
        key_hash: waiter.lock.hash,
    };
    assert(Seq::empty().push(waiter) =~= seq![waiter]);
    laws::adding_adds_one(table, ts, waiter);
    assert forall|e: WaitForEntry|
        entries2.to_multiset().count(e) == entries1.to_multiset().insert(edge).count(e) by {
        let p = |w: Waiter<C, R>|
            w.start_ts == e.txn && w.lock.ts == e.wait_for_txn && w.lock.hash == e.key_hash;
        let before = pool::pooled(table).filter(p);
        let after = pool::pooled(table2).filter(p);
        if e == edge {
            assert(after =~= before.insert(waiter));
        } else {
            assert(after =~= before);
        }
        graph_counts_waits(entries1, table, e);
        graph_counts_waits(entries2, table2, e);
        assert(entries1.to_multiset().count(e) == before.len());
        assert(entries2.to_multiset().count(e) == after.len());
    }
    assert(entries2.to_multiset() =~= entries1.to_multiset().insert(edge));
    assert(entries2.len() == entries2.to_multiset().len());
    assert(entries1.len() == entries1.to_multiset().len());
}

/// The size of a table is the number of its waiters: an empty table has none,
/// and a table with one waiter more, wherever it is filed, is larger by one.
pub proof fn size_counts_waiters<C, R>(
    empty: WaitTable<C, R>,
    table1: WaitTable<C, R>,
    table2: WaitTable<C, R>,
    ts: u64,
    waiter: Waiter<C, R>,
)
    requires
        empty@ == Map::<u64, Seq<Waiter<C, R>>>::empty(),
        table1@.dom().finite(),
        table2@ == table1@.insert(
            ts,
            if table1@.contains_key(ts) {
                table1@[ts].push(waiter)
            } else {
                seq![waiter]
            },
        ),
    ensures
        empty.total() == 0,
        table2.total() == table1.total() + 1,
{
    assert(Seq::empty().push(waiter) =~= seq![waiter]);
    laws::adding_adds_one(table1@, ts, waiter);
}

/// Where those who are left stand, and in which order the others leave.
proof fn lemma_part_ready_order<C, R>(list: Seq<Waiter<C, R>>, hashes: Set<u64>)
    ensures
        ({
            let (ready, kept) = wait_table::part_ready(list, hashes);
            &&& forall|i: int|
                0 <= i < kept.len() && !hashes.contains((#[trigger] list[i]).lock.hash) ==> kept[i]
                    == list[i]
            &&& forall|t: int|
                1 <= t < ready.len() && hashes.contains(list[list.len() - t].lock.hash)
                    ==> #[trigger] ready[t] == list[list.len() - t]
            &&& forall|i: int|
                {
                    &&& 0 <= i < list.len()
                    &&& hashes.contains((#[trigger] list[i]).lock.hash)
                    &&& forall|j: int|
                        0 <= j < i ==> !hashes.contains((#[trigger] list[j]).lock.hash)
                } ==> ready.len() > 0 && ready[0] == list[i]
        }),
    decreases list.len(),
{
    wait_table::lemma_part_ready(list, hashes);
    let n = list.len() as int;
    let (ready, kept) = wait_table::part_ready(list, hashes);
    if n > 0 {
        if hashes.contains(list[0].lock.hash) {
            let rest = list.update(0, list.last()).drop_last();
            let (ready2, kept2) = wait_table::part_ready(rest, hashes);
            lemma_part_ready_order(rest, hashes);
            wait_table::lemma_part_ready(rest, hashes);
            assert forall|i: int|
                0 <= i < kept.len() && !hashes.contains(
                    (#[trigger] list[i]).lock.hash,
                ) implies kept[i] == list[i] by {
                assert(rest[i] == list[i]);
            }
            assert forall|t: int|
                1 <= t < ready.len() && hashes.contains(
                    list[n - t].lock.hash,
                ) implies #[trigger] ready[t] == list[n - t] by {
                assert(ready[t] == ready2[t - 1]);
                if t == 1 {
                    assert(rest[0] == list[n - 1]);
                } else {
                    assert(rest[rest.len() - (t - 1)] == list[n - t]);
                }
            }
        } else {
            let rest = list.drop_first();
            let (ready2, kept2) = wait_table::part_ready(rest, hashes);
            lemma_part_ready_order(rest, hashes);
            wait_table::lemma_part_ready(rest, hashes);
            assert forall|i: int|
                0 <= i < kept.len() && !hashes.contains(
                    (#[trigger] list[i]).lock.hash,
                ) implies kept[i] == list[i] by {
                if i > 0 {
                    assert(rest[i - 1] == list[i]);
                    assert(kept[i] == kept2[i - 1]);
                }
            }
            assert forall|t: int|
                1 <= t < ready.len() && hashes.contains(
                    list[n - t].lock.hash,
                ) implies #[trigger] ready[t] == list[n - t] by {
                assert(rest[rest.len() - t] == list[n - t]);
            }
            assert forall|i: int|
                {
                    &&& 0 <= i < list.len()
                    &&& hashes.contains((#[trigger] list[i]).lock.hash)
                    &&& forall|j: int|
                        0 <= j < i ==> !hashes.contains((#[trigger] list[j]).lock.hash)
                } implies ready.len() > 0 && ready[0] == list[i] by {
                assert(rest[i - 1] == list[i]);
                assert forall|j: int| 0 <= j < i - 1 implies !hashes.contains(
                    (#[trigger] rest[j]).lock.hash,
                ) by {
                    assert(rest[j] == list[j + 1]);
                }
            }
        }
    }
}

/// The order of a release. The first waiter for a released lock leaves first.
/// Each leave makes room for the last waiter who was not looked at yet: if that
/// one waits for a released lock, it is the next to leave. Whoever stays and
/// fits into the shorter list keeps its place.
pub proof fn release_fills_gaps_from_the_end<C, R>(m: TableView<C, R>, ts: u64, hashes: Set<u64>)
    requires
        m.contains_key(ts),
    ensures
        ({
            let list = m[ts];
            let ready = wait_table::ready(m, ts, hashes);
            let m2 = wait_table::released(m, ts, hashes);
            &&& forall|i: int|
                {
                    &&& 0 <= i < list.len()
                    &&& hashes.contains((#[trigger] list[i]).lock.hash)
                    &&& forall|j: int|
                        0 <= j < i ==> !hashes.contains((#[trigger] list[j]).lock.hash)
                } ==> ready.len() > 0 && ready[0] == list[i]
            &&& forall|t: int|
                1 <= t < ready.len() && hashes.contains(list[list.len() - t].lock.hash)
                    ==> #[trigger] ready[t] == list[list.len() - t]
            &&& m2.contains_key(ts) ==> forall|i: int|
                0 <= i < m2[ts].len() && !hashes.contains((#[trigger] list[i]).lock.hash)
                    ==> m2[ts][i] == list[i]
        }),
{
    lemma_part_ready_order(m[ts], hashes);
}

/// How a release goes on after the first waiter for `ts`. One who waits for
/// another key stays in front of whoever else stays. One who waits for a
/// released lock leaves before all others, and the release goes on as if the
/// last waiter stood in its place.
pub proof fn release_step_by_step<C, R>(m: TableView<C, R>, ts: u64, hashes: Set<u64>)
    requires
        m.contains_key(ts),
        m[ts].len() > 0,
    ensures
        ({
            let n = m[ts].len() as int;
            let stay = m.insert(ts, m[ts].subrange(1, n));
            !hashes.contains(m[ts][0].lock.hash) ==> {
                let after = wait_table::released(stay, ts, hashes);
                &&& wait_table::ready(m, ts, hashes) == wait_table::ready(stay, ts, hashes)
                &&& wait_table::released(m, ts, hashes) == after.insert(
                    ts,
                    if after.contains_key(ts) {
                        seq![m[ts][0]] + after[ts]
                    } else {
                        seq![m[ts][0]]
                    },
                )
            }
        }),
        ({
            let n = m[ts].len() as int;
            let leave = m.insert(ts, seq![m[ts][n - 1]] + m[ts].subrange(1, n - 1));
            hashes.contains(m[ts][0].lock.hash) && n > 1 ==> {
                &&& wait_table::ready(m, ts, hashes) == seq![m[ts][0]] + wait_table::ready(
                    leave,
                    ts,
                    hashes,
                )
                &&& wait_table::released(m, ts, hashes) == wait_table::released(leave, ts, hashes)
            }
        }),
        hashes.contains(m[ts][0].lock.hash) && m[ts].len() == 1 ==> {
            &&& wait_table::ready(m, ts, hashes) == seq![m[ts][0]]
            &&& wait_table::released(m, ts, hashes) == m.remove(ts)
        },
{
    let list = m[ts];
    let n = list.len() as int;
    if !hashes.contains(list[0].lock.hash) {
        let stay = m.insert(ts, list.subrange(1, n));
        let after = wait_table::released(stay, ts, hashes);
        assert(list.subrange(1, n) =~= list.drop_first());
        let kept = wait_table::part_ready(list.drop_first(), hashes).1;
        if kept.len() == 0 {
            assert(seq![list[0]] + kept =~= seq![list[0]]);
        }
        assert(wait_table::released(m, ts, hashes) =~= after.insert(
            ts,
            if after.contains_key(ts) {
                seq![list[0]] + after[ts]
            } else {
                seq![list[0]]
            },
        ));
    } else if n > 1 {
        let leave = m.insert(ts, seq![list[n - 1]] + list.subrange(1, n - 1));
        assert(seq![list[n - 1]] + list.subrange(1, n - 1) =~= list.update(
            0,
            list.last(),
        ).drop_last());
        assert(wait_table::released(m, ts, hashes) =~= wait_table::released(leave, ts, hashes));
    } else {
        let rest = list.update(0, list.last()).drop_last();
        assert(rest =~= Seq::empty());
        assert(wait_table::part_ready(rest, hashes).0 =~= Seq::empty());
        assert(seq![list[0]] + Seq::<Waiter<C, R>>::empty() =~= seq![list[0]]);
        assert(wait_table::ready(m, ts, hashes) =~= seq![list[0]]);
    }
}

/// The delays of those who are woken up together are within range just when each
/// of them is.
pub proof fn delays_fit_each(duration: u64, n: nat)
    ensures
        manager::delays_fit(duration, n) <==> forall|i: int|
            0 <= i < n ==> #[trigger] (duration * i) <= u64::MAX,
{
    if manager::delays_fit(duration, n) {
        assert forall|i: int| 0 <= i < n implies #[trigger] (duration * i) <= u64::MAX by {
            assert(duration * i <= duration * (n - 1)) by (nonlinear_arith)
                requires
                    i <= n - 1,
            ;
        }
    } else {
        let i = n - 1;
        assert(duration * i > u64::MAX);
    }
}

/// Every task can be served at any time, but for a wake-up of so many that a
/// delay would be out of range.
pub proof fn only_long_wake_ups_are_out_of_range<S, C, R, D>(
    pre: ManagerView<S, C, R>,
    task: Task<C, R, D>,
)
    ensures
        manager::can_serve(pre, task) <==> match task {
            Task::WakeUp { lock_ts, hashes, .. } => pre.table.contains_key(lock_ts) ==> forall|
                i: int,
            |
                0 <= i < pre.table[lock_ts].to_multiset().filter(
                    |w: Waiter<C, R>| hashes@.contains(w.lock.hash),
                ).len() ==> #[trigger] (pre.wake_up_delay_duration * i) <= u64::MAX,
            _ => true,
        },
{
    broadcast use vstd::seq_lib::group_to_multiset_ensures;

    if let Task::WakeUp { lock_ts, hashes, .. } = task {
        let list = pool::list_at(pre.table, lock_ts);
        let ready = wait_table::ready(pre.table, lock_ts, hashes@.to_set());
        wait_table::lemma_part_ready(list, hashes@.to_set());
        assert(ready.len() == ready.to_multiset().len());
        assert(list.to_multiset().filter(wait_table::waits_for_any(hashes@.to_set()))
            =~= list.to_multiset().filter(|w: Waiter<C, R>| hashes@.contains(w.lock.hash)));
        delays_fit_each(pre.wake_up_delay_duration, ready.len());
    }
}

/// Whom a queue's answer concerns: only a wait that was refused is answered, and
/// it is answered by running its own callback with its own result.
pub proof fn only_refused_waits_are_answered<C, R, D>(outcome: Result<(), Stopped<Task<C, R, D>>>)
    ensures
        match outcome {
            Ok(()) => scheduler::answer_to_refusal(outcome) is None,
            Err(stopped) => match stopped.0 {
                Task::WaitFor { cb, pr, .. } => {
                    &&& scheduler::answer_to_refusal(outcome) matches Some(reply)
                    &&& reply.cb == cb
                    &&& reply.pr == pr
                },
                _ => scheduler::answer_to_refusal(outcome) is None,
            },
        },
{
}

/// Decimal notation. A single digit is its own notation; multiplying by ten and
/// adding a digit appends that digit.
pub proof fn decimal_appends_digits(n: nat, d: nat)
    requires
        d < 10,
    ensures
        decimal::decimal(d) == seq![
            seq!['0', '1', '2', '3', '4', '5', '6', '7', '8', '9'][d as int],
        ],
        n > 0 ==> decimal::decimal(10 * n + d) == decimal::decimal(n).push(
            seq!['0', '1', '2', '3', '4', '5', '6', '7', '8', '9'][d as int],
        ),
{
    assert(decimal::digit(d) == seq!['0', '1', '2', '3', '4', '5', '6', '7', '8', '9'][d as int]);
    assert((10 * n + d) / 10 == n && (10 * n + d) % 10 == d);
}

/// Different numbers have different notations.
pub proof fn decimal_is_unambiguous(a: nat, b: nat)
    requires
        decimal::decimal(a) == decimal::decimal(b),
    ensures
        a == b,
    decreases a,
{
    let (x, y) = (decimal::decimal(a), decimal::decimal(b));
    lemma_decimal_len(a);
    lemma_decimal_len(b);
    assert(x.last() == decimal::digit(a % 10));
    assert(y.last() == decimal::digit(b % 10));
    assert(a % 10 == b % 10);
    if a >= 10 && b >= 10 {
        assert(x.drop_last() =~= decimal::decimal(a / 10));
        assert(y.drop_last() =~= decimal::decimal(b / 10));
        decimal_is_unambiguous(a / 10, b / 10);
    }
}

/// More than one digit is written just from ten on.
proof fn lemma_decimal_len(n: nat)
    ensures
        decimal::decimal(n).len() >= 1,
        decimal::decimal(n).len() > 1 <==> n >= 10,
    decreases n,
{
    if n >= 10 {
        lemma_decimal_len(n / 10);
    }
}

/// What tasks read like.
pub proof fn tasks_read_as_follows<C, R, D>(task: Task<C, R, D>)
    ensures
        match task {
            Task::WaitFor { start_ts, lock, .. } => task::task_text(task) == "txn:"@
                + decimal::decimal(start_ts as nat) + " waiting for "@ + decimal::decimal(
                lock.ts as nat,
            ) + ":"@ + decimal::decimal(lock.hash as nat),
            Task::WakeUp { lock_ts, .. } => task::task_text(task)
                == "waking up txns waiting for "@ + decimal::decimal(lock_ts as nat),
            Task::Dump { .. } => task::task_text(task) == "dump"@,
            Task::Deadlock { start_ts, .. } => task::task_text(task) == "txn:"@
                + decimal::decimal(start_ts as nat) + " deadlock"@,
        },
{
}

} // verus!
