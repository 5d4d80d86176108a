//! The waiter manager: what it does on each request and when a timer fires.
//!
//! The manager decides, and its owner acts: each handler returns the actions
//! that are to be performed, in order.
use vstd::prelude::*;

use crate::error::{MvccError, ProcessResult, StorageError, TxnError};
use crate::operations;
use crate::pool;
use crate::sorting;
use crate::sorting::sort_by_start_ts;
use crate::task::Task;
use crate::wait_table;
use crate::wait_table::{TableView, WaitTable};
use crate::waiter;
use crate::waiter::{wake_up_waiter, Lock, Reply, WaitForEntry, Waiter, Waiters};

verus! {

/// Something that the owner of a waiter manager is to do.
///
/// `C`, `R` and `D` are as in [`Task`].
pub enum Action<C, R, D> {
    /// Have the deadlock detector check the wait of `start_ts` for `lock`.
    Detect { start_ts: u64, lock: Lock },
    /// Tell the deadlock detector that `start_ts` no longer waits for `lock`.
    CleanUpWaitFor { start_ts: u64, lock: Lock },
    /// Call [`WaiterManager::handle_timeout`] for this wait after `delay`
    /// milliseconds, or earlier should the timer fail.
    TimeOutLater { delay: u64, start_ts: u64, lock: Lock },
    /// Answer `waiter` as [`wake_up_waiter`] says, after `delay` milliseconds.
    /// Should the timer fail, `waiter` is dropped.
    WakeUpLater { delay: u64, waiter: Waiter<C, R>, commit_ts: u64 },
    /// Run a callback with its result.
    ExecuteCallback(Reply<C, R>),
    /// Give the wait-for graph to the callback that asked for it.
    Dump { cb: D, entries: Vec<WaitForEntry> },
}

/// Each waiter is filed under the transaction that holds the lock it waits
/// for.
pub open spec fn filed_by_holder<C, R>(m: TableView<C, R>) -> bool {
    forall|ts: u64, i: int|
        #![trigger m[ts][i]]
        m.contains_key(ts) && 0 <= i < m[ts].len() ==> m[ts][i].lock.ts == ts
}

/// Those who are left after a release are still filed under the transaction
/// they wait for.
pub proof fn lemma_released_is_filed<C, R>(m: TableView<C, R>, ts: u64, hashes: Set<u64>)
    requires
        filed_by_holder(m),
    ensures
        filed_by_holder(wait_table::released(m, ts, hashes)),
{
    broadcast use vstd::seq_lib::group_to_multiset_ensures;

    let list = pool::list_at(m, ts);
    let (ready, kept) = wait_table::part_ready(list, hashes);
    wait_table::lemma_part_ready(list, hashes);
    assert forall|i: int| 0 <= i < kept.len() implies (#[trigger] kept[i]).lock.ts == ts by {
        assert(kept.contains(kept[i]));
        assert(list.to_multiset().count(kept[i]) > 0);
        assert(list.contains(kept[i]));
    }
}

/// The state of a waiter manager.
pub struct ManagerView<S, C, R> {
    pub table: TableView<C, R>,
    pub detector_scheduler: S,
    pub wait_for_lock_timeout: u64,
    pub wake_up_delay_duration: u64,
}

impl<S, C, R> ManagerView<S, C, R> {
    /// The state is in order.
    pub open spec fn wf(self) -> bool {
        &&& self.table.dom().finite()
        &&& wait_table::no_idle_txn(self.table)
        &&& filed_by_holder(self.table)
    }

    /// The state with another table.
    pub open spec fn with_table(self, table: TableView<C, R>) -> Self {
        ManagerView { table, ..self }
    }
}

/// The delays of `n` waiters that are woken up `duration` milliseconds apart
/// are within range.
pub open spec fn delays_fit(duration: u64, n: nat) -> bool {
    n > 0 ==> duration * (n - 1) <= u64::MAX
}

/// The actions that put `waiter` to sleep.
pub open spec fn wait_for_actions<C, R, D>(
    timeout: u64,
    is_first_lock: bool,
    waiter: Waiter<C, R>,
) -> Seq<Action<C, R, D>> {
    let (start_ts, lock) = (waiter.start_ts, waiter.lock);
    let detect = if is_first_lock {
        Seq::empty()
    } else {
        seq![Action::Detect { start_ts, lock }]
    };
    detect.push(Action::TimeOutLater { delay: timeout, start_ts, lock })
}

/// `action` wakes up the `i`-th waiter in turn: right away if waiters are woken
/// up without delay, else `duration` milliseconds after the one before.
pub open spec fn is_wake_up<C, R, D>(
    action: Action<C, R, D>,
    duration: u64,
    i: int,
    waiter: Waiter<C, R>,
    commit_ts: u64,
) -> bool {
    if duration > 0 {
        action == (Action::<C, R, D>::WakeUpLater {
            delay: (duration * i) as u64,
            waiter,
            commit_ts,
        })
    } else {
        action matches Action::ExecuteCallback(reply) && waiter::is_conflict_reply(
            reply,
            waiter,
            commit_ts,
        )
    }
}

/// `actions` wake up the waiters of `order` one after the other, each of them
/// once the deadlock detector is told that it no longer waits.
pub open spec fn wakes_up_in_turn<C, R, D>(
    actions: Seq<Action<C, R, D>>,
    duration: u64,
    order: Seq<Waiter<C, R>>,
    commit_ts: u64,
) -> bool {
    &&& actions.len() == 2 * order.len()
    &&& forall|i: int|
        #![trigger order[i]]
        0 <= i < order.len() ==> {
            &&& actions[2 * i] == (Action::<C, R, D>::CleanUpWaitFor {
                start_ts: order[i].start_ts,
                lock: order[i].lock,
            })
            &&& is_wake_up(actions[2 * i + 1], duration, i, order[i], commit_ts)
        }
}

/// `order` is an order in which to wake up the waiters of `ready`: smaller
/// start timestamps come first.
pub open spec fn is_wake_up_order<C, R>(
    order: Seq<Waiter<C, R>>,
    ready: Seq<Waiter<C, R>>,
) -> bool {
    &&& sorting::ordered_by_start_ts(order)
    &&& order.to_multiset() == ready.to_multiset()
}

/// `actions` wake up those who wait for a lock of `lock_ts` with one of these
/// hashes.
pub open spec fn wakes_up_ready<S, C, R, D>(
    pre: ManagerView<S, C, R>,
    lock_ts: u64,
    hashes: Set<u64>,
    commit_ts: u64,
    actions: Seq<Action<C, R, D>>,
) -> bool {
    exists|order: Seq<Waiter<C, R>>|
        {
            &&& is_wake_up_order(order, wait_table::ready(pre.table, lock_ts, hashes))
            &&& #[trigger] wakes_up_in_turn(actions, pre.wake_up_delay_duration, order, commit_ts)
        }
}

/// The actions when the wait of `start_ts` for `lock` times out.
pub open spec fn timeout_actions<C, R, D>(
    table: TableView<C, R>,
    start_ts: u64,
    lock: Lock,
) -> Seq<Action<C, R, D>> {
    match wait_table::waiting(table, start_ts, lock) {
        Some(waiter) => seq![
            Action::CleanUpWaitFor { start_ts, lock },
            Action::ExecuteCallback(waiter::own_reply(waiter)),
        ],
        None => Seq::empty(),
    }
}

/// The actions when the wait of `start_ts` for `lock` was found to be part of
/// a deadlock.
pub open spec fn deadlock_actions<C, R, D>(
    table: TableView<C, R>,
    start_ts: u64,
    lock: Lock,
    deadlock_key_hash: u64,
) -> Seq<Action<C, R, D>> {
    match wait_table::waiting(table, start_ts, lock) {
        Some(waiter) => seq![
            Action::ExecuteCallback(waiter::deadlock_reply(start_ts, waiter, deadlock_key_hash)),
        ],
        None => Seq::empty(),
    }
}

/// `entries` is the wait-for graph of `table`.
pub open spec fn is_graph_of<C, R>(entries: Seq<WaitForEntry>, table: TableView<C, R>) -> bool {
    exists|order: Seq<u64>| wait_table::lists_waits(entries, table, order)
}

/// `action` gives the wait-for graph of `table` to `cb`.
pub open spec fn is_dump<C, R, D>(action: Action<C, R, D>, table: TableView<C, R>, cb: D) -> bool {
    action matches Action::Dump { cb: to, entries } && to == cb && is_graph_of(entries@, table)
}

/// In state `pre` the task `task` leads to state `post` and calls for
/// `actions`.
pub open spec fn serves<S, C, R, D>(
    pre: ManagerView<S, C, R>,
    task: Task<C, R, D>,
    post: ManagerView<S, C, R>,
    actions: Seq<Action<C, R, D>>,
) -> bool {
    match task {
        Task::WaitFor { start_ts, cb, pr, lock, is_first_lock } => {
            let waiter = Waiter { start_ts, cb, pr, lock };
            &&& post == pre.with_table(wait_table::added(pre.table, lock.ts, waiter))
            &&& actions == wait_for_actions::<C, R, D>(
                pre.wait_for_lock_timeout,
                is_first_lock,
                waiter,
            )
        },
        Task::WakeUp { lock_ts, hashes, commit_ts } => {
            &&& post == pre.with_table(
                wait_table::released(pre.table, lock_ts, hashes@.to_set()),
            )
            &&& wakes_up_ready(pre, lock_ts, hashes@.to_set(), commit_ts, actions)
        },
        Task::Dump { cb } => {
            &&& post == pre
            &&& actions.len() == 1
            &&& is_dump(actions[0], pre.table, cb)
        },
        Task::Deadlock { start_ts, lock, deadlock_key_hash } => {
            &&& post == pre.with_table(wait_table::removed(pre.table, start_ts, lock))
            &&& actions == deadlock_actions::<C, R, D>(
                pre.table,
                start_ts,
                lock,
                deadlock_key_hash,
            )
        },
    }
}

/// `task` can be served in state `pre`.
pub open spec fn can_serve<S, C, R, D>(pre: ManagerView<S, C, R>, task: Task<C, R, D>) -> bool {
    task matches Task::WakeUp { lock_ts, hashes, .. } ==> delays_fit(
        pre.wake_up_delay_duration,
        wait_table::ready(pre.table, lock_ts, hashes@.to_set()).len(),
    )
}

/// Handles waiting and wake-up of pessimistic locks.
///
/// `S` is the handle through which the deadlock detector is reached; the
/// manager holds it for its owner.
pub struct WaiterManager<S, C, R> {
    wait_table: WaitTable<C, R>,
    detector_scheduler: S,
    wait_for_lock_timeout: u64,
    wake_up_delay_duration: u64,
}

impl<S, C, R> View for WaiterManager<S, C, R> {
    type V = ManagerView<S, C, R>;

    closed spec fn view(&self) -> ManagerView<S, C, R> {
        ManagerView {
            table: self.wait_table@,
            detector_scheduler: self.detector_scheduler,
            wait_for_lock_timeout: self.wait_for_lock_timeout,
            wake_up_delay_duration: self.wake_up_delay_duration,
        }
    }
}

impl<S, C, R> WaiterManager<S, C, R> {
    /// A manager nobody waits at.
    ///
    /// A wait times out after `wait_for_lock_timeout` milliseconds. Waiters
    /// that are woken up together are woken up `wake_up_delay_duration`
    /// milliseconds apart.
    pub fn new(
        detector_scheduler: S,
        wait_for_lock_timeout: u64,
        wake_up_delay_duration: u64,
    ) -> (manager: Self)
        ensures
            manager@.wf(),
            manager@ == (ManagerView::<S, C, R> {
                table: Map::empty(),
                detector_scheduler,
                wait_for_lock_timeout,
                wake_up_delay_duration,
            }),
    {
        WaiterManager {
            wait_table: WaitTable::new(),
            detector_scheduler,
            wait_for_lock_timeout,
            wake_up_delay_duration,
        }
    }

    /// The handle through which the deadlock detector is reached.
    pub fn detector_scheduler(&self) -> (detector_scheduler: &S)
        ensures
            *detector_scheduler == self@.detector_scheduler,
    {
        &self.detector_scheduler
    }

    /// Puts `waiter` to sleep. A deadlock needs a transaction that holds one
    /// lock and waits for another, so a first lock is not checked for one.
    pub fn handle_wait_for<D>(&mut self, is_first_lock: bool, waiter: Waiter<C, R>) -> (actions:
        Vec<Action<C, R, D>>)
        requires
            old(self)@.wf(),
        ensures
            final(self)@.wf(),
            final(self)@ == old(self)@.with_table(
                wait_table::added(old(self)@.table, waiter.lock.ts, waiter),
            ),
            actions@ == wait_for_actions::<C, R, D>(
                old(self)@.wait_for_lock_timeout,
                is_first_lock,
                waiter,
            ),
            final(self)@.table == old(self)@.table.insert(
                waiter.lock.ts,
                if old(self)@.table.contains_key(waiter.lock.ts) {
                    old(self)@.table[waiter.lock.ts].push(waiter)
                } else {
                    seq![waiter]
                },
            ),
            final(self)@.detector_scheduler == old(self)@.detector_scheduler,
            final(self)@.wait_for_lock_timeout == old(self)@.wait_for_lock_timeout,
            final(self)@.wake_up_delay_duration == old(self)@.wake_up_delay_duration,
            is_first_lock ==> actions@ == seq![
                Action::<C, R, D>::TimeOutLater {
                    delay: old(self)@.wait_for_lock_timeout,
                    start_ts: waiter.start_ts,
                    lock: waiter.lock,
                },
            ],
            !is_first_lock ==> actions@ == seq![
                Action::<C, R, D>::Detect { start_ts: waiter.start_ts, lock: waiter.lock },
                Action::<C, R, D>::TimeOutLater {
                    delay: old(self)@.wait_for_lock_timeout,
                    start_ts: waiter.start_ts,
                    lock: waiter.lock,
                },
            ],
    {
        let ghost asked = waiter;
        let lock: Lock = waiter.lock;
        let start_ts: u64 = waiter.start_ts;
        let mut actions: Vec<Action<C, R, D>> = Vec::new();
        if !is_first_lock {
            actions.push(Action::Detect { start_ts, lock });
        }
        if self.wait_table.add_waiter(lock.ts, waiter) {
            let delay: u64 = self.wait_for_lock_timeout;
            actions.push(Action::TimeOutLater { delay, start_ts, lock });
        }
        assert(actions@ =~= wait_for_actions::<C, R, D>(
            old(self)@.wait_for_lock_timeout,
            is_first_lock,
            asked,
        ));
        actions
    }

    /// Ends the wait of `start_ts` for `lock` because it took too long. The
    /// transaction is answered with the result that it came with. Nothing is
    /// done if it no longer waits.
    pub fn handle_timeout<D>(&mut self, start_ts: u64, lock: Lock) -> (actions: Vec<
        Action<C, R, D>,
    >)
        requires
            old(self)@.wf(),
        ensures
            final(self)@.wf(),
            final(self)@ == old(self)@.with_table(
                wait_table::removed(old(self)@.table, start_ts, lock),
            ),
            actions@ == timeout_actions::<C, R, D>(old(self)@.table, start_ts, lock),
            final(self)@.detector_scheduler == old(self)@.detector_scheduler,
            final(self)@.wait_for_lock_timeout == old(self)@.wait_for_lock_timeout,
            final(self)@.wake_up_delay_duration == old(self)@.wake_up_delay_duration,
            // The first wait of `start_ts` for `lock` ends, if there is one.
            forall|i: int|
                #![trigger old(self)@.table[lock.ts][i]]
                {
                    &&& old(self)@.table.contains_key(lock.ts)
                    &&& 0 <= i < old(self)@.table[lock.ts].len()
                    &&& old(self)@.table[lock.ts][i].start_ts == start_ts
                    &&& old(self)@.table[lock.ts][i].lock.hash == lock.hash
                    &&& forall|j: int|
                        0 <= j < i ==> (#[trigger] old(self)@.table[lock.ts][j]).start_ts
                            != start_ts || old(self)@.table[lock.ts][j].lock.hash != lock.hash
                } ==> {
                    &&& final(self)@.table == if old(self)@.table[lock.ts].len() == 1 {
                        old(self)@.table.remove(lock.ts)
                    } else {
                        old(self)@.table.insert(lock.ts, old(self)@.table[lock.ts].remove(i))
                    }
                    &&& actions@.len() == 2
                    &&& actions@[0] matches Action::CleanUpWaitFor { start_ts: over, lock: freed }
                    &&& over == start_ts
                    &&& freed == lock
                    &&& actions@[1] matches Action::ExecuteCallback(reply)
                    &&& reply.cb == old(self)@.table[lock.ts][i].cb
                    &&& reply.pr == old(self)@.table[lock.ts][i].pr
                },
            (old(self)@.table.contains_key(lock.ts) && exists|i: int|
                0 <= i < old(self)@.table[lock.ts].len() && (
                #[trigger] old(self)@.table[lock.ts][i]).start_ts == start_ts
                    && old(self)@.table[lock.ts][i].lock.hash == lock.hash) ==> actions@.len() == 2,
            !(old(self)@.table.contains_key(lock.ts) && exists|i: int|
                0 <= i < old(self)@.table[lock.ts].len() && (
                #[trigger] old(self)@.table[lock.ts][i]).start_ts == start_ts
                    && old(self)@.table[lock.ts][i].lock.hash == lock.hash) ==> actions@.len() == 0
                && final(self)@ == old(self)@,
    {
        let mut actions: Vec<Action<C, R, D>> = Vec::new();
        if let Some(waiter) = self.wait_table.remove_waiter(start_ts, lock) {
            actions.push(Action::CleanUpWaitFor { start_ts, lock });
            actions.push(Action::ExecuteCallback(Reply { cb: waiter.cb, pr: waiter.pr }));
        }
        assert(actions@ =~= timeout_actions::<C, R, D>(old(self)@.table, start_ts, lock));
        proof {
            wait_table::lemma_removed(old(self)@.table, start_ts, lock);
        }
        actions
    }

    /// Whether the delays of those whom the release of the locks of `lock_ts`
    /// with these hashes would wake up are within range.
    pub fn can_wake_up(&self, lock_ts: u64, hashes: &Vec<u64>) -> (fit: bool)
        requires
            self@.wf(),
        ensures
            fit == delays_fit(
                self@.wake_up_delay_duration,
                wait_table::ready(self@.table, lock_ts, hashes@.to_set()).len(),
            ),
            fit <==> (self@.table.contains_key(lock_ts) ==> forall|i: int|
                0 <= i < self@.table[lock_ts].to_multiset().filter(
                    |w: Waiter<C, R>| hashes@.contains(w.lock.hash),
                ).len() ==> #[trigger] (self@.wake_up_delay_duration * i) <= u64::MAX),
    {
        let n: usize = self.wait_table.count_ready(lock_ts, hashes);
        proof {
            operations::delays_fit_each(self@.wake_up_delay_duration, n as nat);
        }
        n == 0 || self.wake_up_delay_duration.checked_mul(n as u64 - 1).is_some()
    }

    /// Wakes up `waiters` in turn.
    pub fn wake_up_in_turn<D>(&self, waiters: Waiters<C, R>, commit_ts: u64) -> (actions: Vec<
        Action<C, R, D>,
    >)
        requires
            delays_fit(self@.wake_up_delay_duration, waiters@.len()),
        ensures
            wakes_up_in_turn(actions@, self@.wake_up_delay_duration, waiters@, commit_ts),
            actions@.len() == 2 * waiters@.len(),
            forall|i: int|
                #![trigger waiters@[i]]
                0 <= i < waiters@.len() ==> {
                    &&& actions@[2 * i] matches Action::CleanUpWaitFor { start_ts, lock }
                    &&& start_ts == waiters@[i].start_ts
                    &&& lock == waiters@[i].lock
                    &&& self@.wake_up_delay_duration > 0 ==> {
                        &&& actions@[2 * i + 1] matches Action::WakeUpLater {
                            delay,
                            waiter,
                            commit_ts: at,
                        }
                        &&& delay == self@.wake_up_delay_duration * i
                        &&& waiter == waiters@[i]
                        &&& at == commit_ts
                    }
                    &&& self@.wake_up_delay_duration == 0 ==> {
                        &&& actions@[2 * i + 1] matches Action::ExecuteCallback(reply)
                        &&& reply.cb == waiters@[i].cb
                        &&& reply.pr matches ProcessResult::Failed {
                            err: StorageError::Txn(TxnError::Mvcc(err)),
                        }
                        &&& err matches MvccError::WriteConflict {
                            start_ts: failed,
                            conflict_start_ts,
                            conflict_commit_ts,
                            key,
                            primary,
                        }
                        &&& failed == waiters@[i].start_ts
                        &&& conflict_start_ts == waiters@[i].lock.ts
                        &&& conflict_commit_ts == commit_ts
                        &&& key@.len() == 0
                        &&& primary@.len() == 0
                    }
                },
    {
        let ghost order = waiters@;
        let duration: u64 = self.wake_up_delay_duration;
        let mut actions: Vec<Action<C, R, D>> = Vec::new();
        let n: usize = waiters.len();
        let mut i: usize = 0;
        for waiter in it: waiters
            invariant
                it.seq() == order,
                n == order.len(),
                i == it.index(),
                duration == self@.wake_up_delay_duration,
                delays_fit(duration, order.len()),
                wakes_up_in_turn(actions@, duration, order.take(i as int), commit_ts),
        {
            let ghost before = actions@;
            assert(waiter == order[i as int]);
            actions.push(
                Action::CleanUpWaitFor { start_ts: waiter.start_ts, lock: waiter.lock },
            );
            if duration > 0 {
                // Smaller start timestamps come first and so are more likely to
                // get the lock.
                assert(duration * i <= duration * (n - 1)) by (nonlinear_arith)
                    requires
                        i <= n - 1,
                ;
                let delay: u64 = duration * (i as u64);
                actions.push(Action::WakeUpLater { delay, waiter, commit_ts });
            } else {
                actions.push(Action::ExecuteCallback(wake_up_waiter(waiter, commit_ts)));
            }
            i += 1;
            assert(wakes_up_in_turn(actions@, duration, order.take(i as int), commit_ts)) by {
                let done = order.take(i as int);
                assert forall|k: int| #![trigger done[k]] 0 <= k < done.len() implies {
                    &&& actions@[2 * k] == (Action::<C, R, D>::CleanUpWaitFor {
                        start_ts: done[k].start_ts,
                        lock: done[k].lock,
                    })
                    &&& is_wake_up(actions@[2 * k + 1], duration, k, done[k], commit_ts)
                } by {
                    if k < i - 1 {
                        assert(done[k] == order.take(i - 1)[k]);
                        assert(actions@[2 * k] == before[2 * k]);
                        assert(actions@[2 * k + 1] == before[2 * k + 1]);
                    }
                }
            }
        }
        assert(order.take(i as int) =~= order);
        assert forall|k: int| #![trigger order[k]] 0 <= k < order.len() implies 0 <= duration * k
            <= u64::MAX by {
            operations::delays_fit_each(duration, order.len());
            assert(0 <= duration * k) by (nonlinear_arith)
                requires
                    0 <= k,
            ;
        }
        actions
    }

    /// Wakes up those who wait for a lock of `lock_ts` with one of these
    /// hashes, smaller start timestamps first.
    pub fn handle_wake_up<D>(&mut self, lock_ts: u64, hashes: Vec<u64>, commit_ts: u64) -> (actions:
        Vec<Action<C, R, D>>)
        requires
            old(self)@.wf(),
            delays_fit(
                old(self)@.wake_up_delay_duration,
                wait_table::ready(old(self)@.table, lock_ts, hashes@.to_set()).len(),
            ),
        ensures
            final(self)@.wf(),
            final(self)@ == old(self)@.with_table(
                wait_table::released(old(self)@.table, lock_ts, hashes@.to_set()),
            ),
            wakes_up_ready(old(self)@, lock_ts, hashes@.to_set(), commit_ts, actions@),
            final(self)@.table.remove(lock_ts) == old(self)@.table.remove(lock_ts),
            final(self)@.table.contains_key(lock_ts) <==> (old(self)@.table.contains_key(lock_ts)
                && exists|i: int|
                0 <= i < old(self)@.table[lock_ts].len() && !hashes@.contains(
                    (#[trigger] old(self)@.table[lock_ts][i]).lock.hash,
                )),
            final(self)@.table.contains_key(lock_ts) ==> forall|w: Waiter<C, R>| #[trigger]
                final(self)@.table[lock_ts].to_multiset().count(w) == if hashes@.contains(
                    w.lock.hash,
                ) {
                    0
                } else {
                    old(self)@.table[lock_ts].to_multiset().count(w)
                },
            final(self)@.detector_scheduler == old(self)@.detector_scheduler,
            final(self)@.wait_for_lock_timeout == old(self)@.wait_for_lock_timeout,
            final(self)@.wake_up_delay_duration == old(self)@.wake_up_delay_duration,
            // Those who wait for one of the hashes have their turn, by start timestamp.
            exists|order: Seq<Waiter<C, R>>|
                #![trigger order.to_multiset()]
                {
                    &&& forall|w: Waiter<C, R>| #[trigger]
                        order.to_multiset().count(w) == if old(self)@.table.contains_key(lock_ts)
                            && hashes@.contains(w.lock.hash) {
                            old(self)@.table[lock_ts].to_multiset().count(w)
                        } else {
                            0
                        }
                    &&& forall|i: int, j: int|
                        0 <= i <= j < order.len() ==> order[i].start_ts <= order[j].start_ts
                    &&& actions@.len() == 2 * order.len()
                    &&& forall|i: int|
                        #![trigger order[i]]
                        0 <= i < order.len() ==> {
                            &&& actions@[2 * i] matches Action::CleanUpWaitFor { start_ts, lock }
                            &&& start_ts == order[i].start_ts
                            &&& lock == order[i].lock
                            &&& old(self)@.wake_up_delay_duration > 0 ==> {
                                &&& actions@[2 * i + 1] matches Action::WakeUpLater {
                                    delay,
                                    waiter,
                                    commit_ts: at,
                                }
                                &&& delay == old(self)@.wake_up_delay_duration * i
                                &&& waiter == order[i]
                                &&& at == commit_ts
                            }
                            &&& old(self)@.wake_up_delay_duration == 0 ==> {
                                &&& actions@[2 * i + 1] matches Action::ExecuteCallback(reply)
                                &&& reply.cb == order[i].cb
                                &&& reply.pr matches ProcessResult::Failed {
                                    err: StorageError::Txn(TxnError::Mvcc(err)),
                                }
                                &&& err matches MvccError::WriteConflict {
                                    start_ts: failed,
                                    conflict_start_ts,
                                    conflict_commit_ts,
                                    key,
                                    primary,
                                }
                                &&& failed == order[i].start_ts
                                &&& conflict_start_ts == order[i].lock.ts
                                &&& conflict_commit_ts == commit_ts
                                &&& key@.len() == 0
                                &&& primary@.len() == 0
                            }
                        }
                },
    {
        let mut ready_waiters: Waiters<C, R> = self.wait_table.get_ready_waiters(lock_ts, hashes);
        let ghost ready = ready_waiters@;
        proof {
            lemma_released_is_filed(old(self)@.table, lock_ts, hashes@.to_set());
            wait_table::lemma_released(old(self)@.table, lock_ts, hashes@.to_set());
        }
        sort_by_start_ts(&mut ready_waiters);
        let ghost order = ready_waiters@;
        proof {
            broadcast use vstd::seq_lib::group_to_multiset_ensures;

            assert(order.len() == order.to_multiset().len());
            assert(ready.len() == ready.to_multiset().len());
        }
        let actions: Vec<Action<C, R, D>> = self.wake_up_in_turn(ready_waiters, commit_ts);
        assert(is_wake_up_order(order, ready));
        assert forall|w: Waiter<C, R>| #[trigger]
            order.to_multiset().count(w) == if old(self)@.table.contains_key(lock_ts)
                && hashes@.contains(w.lock.hash) {
                old(self)@.table[lock_ts].to_multiset().count(w)
            } else {
                0
            } by {
            assert(ready.to_multiset().count(w) == order.to_multiset().count(w));
        }
        actions
    }

    /// Gives the wait-for graph to `cb`.
    pub fn handle_dump<D>(&self, cb: D) -> (action: Action<C, R, D>)
        requires
            self@.wf(),
        ensures
            is_dump(action, self@.table, cb),
            ({
                &&& action matches Action::Dump { cb: to, entries }
                &&& to == cb
                &&& exists|order: Seq<u64>|
                    #![trigger order.to_set()]
                    {
                        &&& order.no_duplicates()
                        &&& order.to_set() == self@.table.dom()
                        &&& entries@ == pool::joined(self@.table, order).map_values(
                            |w: Waiter<C, R>|
                                WaitForEntry {
                                    txn: w.start_ts,
                                    wait_for_txn: w.lock.ts,
                                    key_hash: w.lock.hash,
                                },
                        )
                    }
            }),
    {
        Action::Dump { cb, entries: self.wait_table.to_wait_for_entries() }
    }

    /// Ends the wait of `start_ts` for `lock` because it is part of a
    /// deadlock, and tells the transaction so. Nothing is done if it no longer
    /// waits.
    pub fn handle_deadlock<D>(&mut self, start_ts: u64, lock: Lock, deadlock_key_hash: u64) -> (
    actions: Vec<Action<C, R, D>>)
        requires
            old(self)@.wf(),
        ensures
            final(self)@.wf(),
            final(self)@ == old(self)@.with_table(
                wait_table::removed(old(self)@.table, start_ts, lock),
            ),
            actions@ == deadlock_actions::<C, R, D>(
                old(self)@.table,
                start_ts,
                lock,
                deadlock_key_hash,
            ),
            final(self)@.detector_scheduler == old(self)@.detector_scheduler,
            final(self)@.wait_for_lock_timeout == old(self)@.wait_for_lock_timeout,
            final(self)@.wake_up_delay_duration == old(self)@.wake_up_delay_duration,
            // The first wait of `start_ts` for `lock` ends, if there is one.
            forall|i: int|
                #![trigger old(self)@.table[lock.ts][i]]
                {
                    &&& old(self)@.table.contains_key(lock.ts)
                    &&& 0 <= i < old(self)@.table[lock.ts].len()
                    &&& old(self)@.table[lock.ts][i].start_ts == start_ts
                    &&& old(self)@.table[lock.ts][i].lock.hash == lock.hash
                    &&& forall|j: int|
                        0 <= j < i ==> (#[trigger] old(self)@.table[lock.ts][j]).start_ts
                            != start_ts || old(self)@.table[lock.ts][j].lock.hash != lock.hash
                } ==> {
                    &&& final(self)@.table == if old(self)@.table[lock.ts].len() == 1 {
                        old(self)@.table.remove(lock.ts)
                    } else {
                        old(self)@.table.insert(lock.ts, old(self)@.table[lock.ts].remove(i))
                    }
                    &&& actions@.len() == 1
                    &&& actions@[0] matches Action::ExecuteCallback(reply)
                    &&& reply.cb == old(self)@.table[lock.ts][i].cb
                    &&& reply.pr matches ProcessResult::Failed {
                        err: StorageError::Mvcc(
                            MvccError::Deadlock {
                                start_ts: failed,
                                lock_ts,
                                key_hash,
                                deadlock_key_hash: closing,
                            },
                        ),
                    }
                    &&& failed == start_ts
                    &&& lock_ts == lock.ts
                    &&& key_hash == lock.hash
                    &&& closing == deadlock_key_hash
                },
            (old(self)@.table.contains_key(lock.ts) && exists|i: int|
                0 <= i < old(self)@.table[lock.ts].len() && (
                #[trigger] old(self)@.table[lock.ts][i]).start_ts == start_ts
                    && old(self)@.table[lock.ts][i].lock.hash == lock.hash) ==> actions@.len() == 1,
            !(old(self)@.table.contains_key(lock.ts) && exists|i: int|
                0 <= i < old(self)@.table[lock.ts].len() && (
                #[trigger] old(self)@.table[lock.ts][i]).start_ts == start_ts
                    && old(self)@.table[lock.ts][i].lock.hash == lock.hash) ==> actions@.len() == 0
                && final(self)@ == old(self)@,
    {
        let mut actions: Vec<Action<C, R, D>> = Vec::new();
        if let Some(waiter) = self.wait_table.remove_waiter(start_ts, lock) {
            let pr = ProcessResult::Failed {
                err: StorageError::from(
                    MvccError::Deadlock {
                        start_ts,
                        lock_ts: waiter.lock.ts,
                        key_hash: waiter.lock.hash,
                        deadlock_key_hash,
                    },
                ),
            };
            actions.push(Action::ExecuteCallback(Reply { cb: waiter.cb, pr }));
        }
        assert(actions@ =~= deadlock_actions::<C, R, D>(
            old(self)@.table,
            start_ts,
            lock,
            deadlock_key_hash,
        ));
        proof {
            wait_table::lemma_removed(old(self)@.table, start_ts, lock);
        }
        actions
    }

    /// Serves a task.
    pub fn run<D>(&mut self, task: Task<C, R, D>) -> (actions: Vec<Action<C, R, D>>)
        requires
            old(self)@.wf(),
            can_serve(old(self)@, task),
        ensures
            final(self)@.wf(),
            serves(old(self)@, task, final(self)@, actions@),
    {
        match task {
            Task::WaitFor { start_ts, cb, pr, lock, is_first_lock } => {
                self.handle_wait_for(is_first_lock, Waiter { start_ts, cb, pr, lock })
            },
            Task::WakeUp { lock_ts, hashes, commit_ts } => {
                self.handle_wake_up(lock_ts, hashes, commit_ts)
            },
            Task::Dump { cb } => {
                let mut actions: Vec<Action<C, R, D>> = Vec::new();
                actions.push(self.handle_dump(cb));
                actions
            },
            Task::Deadlock { start_ts, lock, deadlock_key_hash } => {
                self.handle_deadlock(start_ts, lock, deadlock_key_hash)
            },
        }
    }
}

} // verus!
