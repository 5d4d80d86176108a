//! What holds of waiting and wake-up as a whole.
use vstd::multiset::Multiset;
use vstd::prelude::*;

use crate::manager;
use crate::manager::{Action, ManagerView};
use crate::pool;
use crate::scheduler;
use crate::scheduler::Stopped;
use crate::task::Task;
use crate::wait_table;
use crate::wait_table::TableView;
use crate::waiter;
use crate::waiter::{Lock, WaitForEntry, Waiter};

verus! {

/// A wait that is added is found again unless the same transaction already
/// waits for the same lock, and removing it then leaves the table as it was.
/// Else the earlier wait is the one that is found.
pub proof fn added_wait_is_found<C, R>(m: TableView<C, R>, waiter: Waiter<C, R>)
    requires
        wait_table::no_idle_txn(m),
    ensures
        ({
            let (start_ts, lock) = (waiter.start_ts, waiter.lock);
            let m2 = wait_table::added(m, lock.ts, waiter);
            match wait_table::waiting(m, start_ts, lock) {
                Some(earlier) => wait_table::waiting(m2, start_ts, lock) == Some(earlier),
                None => {
                    &&& wait_table::waiting(m2, start_ts, lock) == Some(waiter)
                    &&& wait_table::removed(m2, start_ts, lock) == m
                },
            }
        }),
{
    let (start_ts, lock) = (waiter.start_ts, waiter.lock);
    let m2 = wait_table::added(m, lock.ts, waiter);
    let list = pool::list_at(m, lock.ts);
    let list2 = list.push(waiter);
    assert(pool::list_at(m2, lock.ts) == list2);
    match wait_table::find_wait(list, start_ts, lock.hash) {
        Some(i) => {
            assert(wait_table::is_first_wait(list, start_ts, lock.hash, i));
            assert(wait_table::is_first_wait(list2, start_ts, lock.hash, i)) by {
                assert forall|j: int| 0 <= j < i implies !wait_table::is_wait_of(
                    #[trigger] list2[j],
                    start_ts,
                    lock.hash,
                ) by {
                    assert(list2[j] == list[j]);
                }
            }
            let k = wait_table::find_wait(list2, start_ts, lock.hash)->0;
            assert(wait_table::is_first_wait(list2, start_ts, lock.hash, k));
            assert(k == i) by {
                if k < i {
                    assert(!wait_table::is_wait_of(list2[k], start_ts, lock.hash));
                } else if i < k {
                    assert(!wait_table::is_wait_of(list2[i], start_ts, lock.hash));
                }
            }
        },
        None => {
            let n = list.len() as int;
            assert forall|j: int| 0 <= j < n implies !wait_table::is_wait_of(
                #[trigger] list2[j],
                start_ts,
                lock.hash,
            ) by {
                assert(list2[j] == list[j]);
                if wait_table::is_wait_of(list[j], start_ts, lock.hash) {
                    wait_table::lemma_find_wait(list, start_ts, lock.hash, j);
                }
            }
            assert(wait_table::is_first_wait(list2, start_ts, lock.hash, n));
            let k = wait_table::find_wait(list2, start_ts, lock.hash)->0;
            assert(wait_table::is_first_wait(list2, start_ts, lock.hash, k));
            assert(k == n);
            assert(list2.remove(n) =~= list);
            assert(wait_table::removed(m2, start_ts, lock) =~= m);
        },
    }
}

/// Adding a waiter adds just this one.
pub proof fn adding_adds_one<C, R>(m: TableView<C, R>, ts: u64, waiter: Waiter<C, R>)
    requires
        m.dom().finite(),
    ensures
        pool::pooled(wait_table::added(m, ts, waiter)) == pool::pooled(m).insert(waiter),
        pool::pooled(wait_table::added(m, ts, waiter)).len() == pool::pooled(m).len() + 1,
{
    broadcast use vstd::seq_lib::group_to_multiset_ensures;

    let list = pool::list_at(m, ts).push(waiter);
    pool::lemma_pooled_file_list(m, ts, list);
    assert(wait_table::added(m, ts, waiter) == pool::file_list(m, ts, list));
    assert(pool::pooled(wait_table::added(m, ts, waiter)) =~= pool::pooled(m).insert(waiter));
}

/// Removing a wait removes just the waiter that is returned, and nobody if
/// there is none.
pub proof fn removing_removes_one<C, R>(m: TableView<C, R>, start_ts: u64, lock: Lock)
    requires
        m.dom().finite(),
    ensures
        match wait_table::waiting(m, start_ts, lock) {
            Some(waiter) => {
                &&& wait_table::is_wait_of(waiter, start_ts, lock.hash)
                &&& pool::pooled(wait_table::removed(m, start_ts, lock)).insert(waiter)
                    == pool::pooled(m)
                &&& pool::pooled(wait_table::removed(m, start_ts, lock)).len() + 1 == pool::pooled(
                    m,
                ).len()
            },
            None => wait_table::removed(m, start_ts, lock) == m,
        },
{
    broadcast use vstd::seq_lib::group_to_multiset_ensures;

    let list = pool::list_at(m, lock.ts);
    if let Some(i) = wait_table::find_wait(list, start_ts, lock.hash) {
        assert(wait_table::is_first_wait(list, start_ts, lock.hash, i));
        let rest = list.remove(i);
        pool::lemma_pooled_file_list(m, lock.ts, rest);
        assert(list.to_multiset().count(list[i]) > 0) by {
            assert(list.contains(list[i]));
        }
        assert(rest.to_multiset().insert(list[i]) =~= list.to_multiset());
        assert(pool::pooled(wait_table::removed(m, start_ts, lock)).insert(list[i])
            =~= pool::pooled(m));
    }
}

/// A release takes out exactly those who wait for a released lock, and keeps
/// all others.
pub proof fn release_takes_exactly_the_ready<C, R>(m: TableView<C, R>, ts: u64, hashes: Set<u64>)
    requires
        m.dom().finite(),
    ensures
        ({
            let ready = wait_table::ready(m, ts, hashes);
            let left = pool::pooled(wait_table::released(m, ts, hashes));
            &&& ready.to_multiset() == pool::list_at(m, ts).to_multiset().filter(
                wait_table::waits_for_any(hashes),
            )
            &&& left.add(ready.to_multiset()) == pool::pooled(m)
            &&& left.len() + ready.len() == pool::pooled(m).len()
        }),
{
    broadcast use vstd::seq_lib::group_to_multiset_ensures;

    let list = pool::list_at(m, ts);
    let (ready, kept) = wait_table::part_ready(list, hashes);
    wait_table::lemma_part_ready(list, hashes);
    pool::lemma_pooled_file_list(m, ts, kept);
    let left = pool::pooled(wait_table::released(m, ts, hashes));
    assert(left.add(ready.to_multiset()) =~= pool::pooled(m));
}

/// A list in which nobody waits for one of the hashes is left as it is.
proof fn lemma_none_ready<C, R>(list: Seq<Waiter<C, R>>, hashes: Set<u64>)
    requires
        forall|i: int| 0 <= i < list.len() ==> !hashes.contains((#[trigger] list[i]).lock.hash),
    ensures
        wait_table::part_ready(list, hashes) == (Seq::<Waiter<C, R>>::empty(), list),
    decreases list.len(),
{
    if list.len() > 0 {
        let rest = list.drop_first();
        assert forall|i: int| 0 <= i < rest.len() implies !hashes.contains(
            (#[trigger] rest[i]).lock.hash,
        ) by {
            assert(rest[i] == list[i + 1]);
        }
        lemma_none_ready(rest, hashes);
        assert(seq![list[0]] + rest =~= list);
    } else {
        assert(list =~= Seq::empty());
    }
}

/// Releasing the same locks again takes out nobody and changes nothing.
pub proof fn second_release_is_idle<C, R>(m: TableView<C, R>, ts: u64, hashes: Set<u64>)
    ensures
        ({
            let m2 = wait_table::released(m, ts, hashes);
            &&& wait_table::ready(m2, ts, hashes).len() == 0
            &&& wait_table::released(m2, ts, hashes) == m2
        }),
{
    let list = pool::list_at(m, ts);
    let kept = wait_table::part_ready(list, hashes).1;
    let m2 = wait_table::released(m, ts, hashes);
    wait_table::lemma_part_ready(list, hashes);
    lemma_none_ready(kept, hashes);
    if kept.len() == 0 {
        assert(kept =~= Seq::empty());
    }
    assert(pool::list_at(m2, ts) == kept);
    assert(wait_table::released(m2, ts, hashes) =~= m2);
}

/// Nobody waits for a released lock.
pub proof fn released_lock_is_not_waited_for<C, R>(
    m: TableView<C, R>,
    ts: u64,
    hashes: Set<u64>,
    start_ts: u64,
    hash: u64,
)
    requires
        hashes.contains(hash),
    ensures
        wait_table::waiting(
            wait_table::released(m, ts, hashes),
            start_ts,
            Lock { ts, hash },
        ) is None,
{
    let list = pool::list_at(m, ts);
    let kept = wait_table::part_ready(list, hashes).1;
    wait_table::lemma_part_ready(list, hashes);
    let list2 = pool::list_at(wait_table::released(m, ts, hashes), ts);
    assert(list2 =~= kept);
    assert forall|i: int| !wait_table::is_first_wait(list2, start_ts, hash, i) by {
        if 0 <= i < list2.len() {
            assert(!hashes.contains(kept[i].lock.hash));
        }
    }
}

/// What happens to the waiters for one transaction leaves those for any other
/// alone.
pub proof fn other_txns_are_left_alone<C, R>(
    m: TableView<C, R>,
    other: u64,
    start_ts: u64,
    lock: Lock,
    waiter: Waiter<C, R>,
    hashes: Set<u64>,
)
    requires
        other != lock.ts,
    ensures
        pool::list_at(wait_table::added(m, lock.ts, waiter), other) == pool::list_at(m, other),
        pool::list_at(wait_table::removed(m, start_ts, lock), other) == pool::list_at(m, other),
        pool::list_at(wait_table::released(m, lock.ts, hashes), other) == pool::list_at(m, other),
{
}

/// The edge of the wait-for graph that a waiter stands for.
pub open spec fn entry<C, R>() -> spec_fn(Waiter<C, R>) -> WaitForEntry {
    |waiter: Waiter<C, R>| waiter::entry_of(waiter)
}

/// The wait-for graph has exactly one edge for each waiter.
pub proof fn graph_is_complete<C, R>(entries: Seq<WaitForEntry>, table: TableView<C, R>)
    requires
        table.dom().finite(),
        manager::is_graph_of(entries, table),
    ensures
        entries.to_multiset() == pool::pooled(pool::map_lists(table, entry::<C, R>())),
        entries.len() == pool::pooled(table).len(),
{
    broadcast use vstd::seq_lib::group_to_multiset_ensures;

    let order = choose|order: Seq<u64>| wait_table::lists_waits(entries, table, order);
    let mapped = pool::map_lists(table, entry::<C, R>());
    assert(mapped.dom() =~= table.dom());
    assert forall|i: int| 0 <= i < order.len() implies table.contains_key(#[trigger] order[i]) by {
        assert(order.to_set().contains(order[i]));
    }
    pool::lemma_joined_map(table, entry::<C, R>(), order);
    pool::lemma_joined_is_pooled(mapped, order);
    pool::lemma_joined_is_pooled(table, order);
}

/// Sequences of the same things, in whatever order, are mapped to sequences of
/// the same things.
proof fn lemma_same_mapped<T, U>(a: Seq<T>, b: Seq<T>, f: spec_fn(T) -> U)
    requires
        a.to_multiset() == b.to_multiset(),
    ensures
        a.map_values(f).to_multiset() == b.map_values(f).to_multiset(),
    decreases a.len(),
{
    broadcast use vstd::seq_lib::group_to_multiset_ensures;

    assert(a.len() == a.to_multiset().len());
    assert(b.len() == b.to_multiset().len());
    if a.len() == 0 {
        assert(a.map_values(f) =~= b.map_values(f));
    } else {
        let x = a.last();
        let n = a.len() - 1;
        assert(a.contains(x));
        assert(b.to_multiset().count(x) > 0);
        assert(b.contains(x));
        let i = b.index_of(x);
        lemma_same_mapped(a.remove(n), b.remove(i), f);
        assert(a.map_values(f).remove(n) =~= a.remove(n).map_values(f));
        assert(b.map_values(f).remove(i) =~= b.remove(i).map_values(f));
        let (fa, fb) = (a.map_values(f), b.map_values(f));
        assert(fa.contains(fa[n]) && fb.contains(fb[i]));
        assert(fa.to_multiset() =~= fa.remove(n).to_multiset().insert(f(x)));
        assert(fb.to_multiset() =~= fb.remove(i).to_multiset().insert(f(x)));
    }
}

/// Mapping lists commutes with looking one up and with filing one.
proof fn lemma_map_lists<T, U>(m: Map<u64, Seq<T>>, f: spec_fn(T) -> U, k: u64, list: Seq<T>)
    ensures
        pool::list_at(pool::map_lists(m, f), k) == pool::list_at(m, k).map_values(f),
        pool::map_lists(pool::file_list(m, k, list), f) == pool::file_list(
            pool::map_lists(m, f),
            k,
            list.map_values(f),
        ),
        pool::map_lists(m, f).dom() == m.dom(),
{
    assert(pool::list_at(pool::map_lists(m, f), k) =~= pool::list_at(m, k).map_values(f));
    assert(pool::map_lists(pool::file_list(m, k, list), f) =~= pool::file_list(
        pool::map_lists(m, f),
        k,
        list.map_values(f),
    ));
    assert(pool::map_lists(m, f).dom() =~= m.dom());
}

/// The callback of a waiter.
pub open spec fn callback<C, R>() -> spec_fn(Waiter<C, R>) -> C {
    |waiter: Waiter<C, R>| waiter.cb
}

/// The callbacks of all who wait.
pub open spec fn callbacks<C, R>(m: TableView<C, R>) -> Multiset<C> {
    pool::pooled(pool::map_lists(m, callback::<C, R>()))
}

/// The callback that comes with a task, if it is that of a transaction.
pub open spec fn brought<C, R, D>(task: Task<C, R, D>) -> Multiset<C> {
    match task {
        Task::WaitFor { cb, .. } => Multiset::singleton(cb),
        _ => Multiset::empty(),
    }
}

/// The callbacks of transactions that are run by `actions`, at once or later.
pub open spec fn answered<C, R, D>(actions: Seq<Action<C, R, D>>) -> Multiset<C>
    decreases actions.len(),
{
    if actions.len() == 0 {
        Multiset::empty()
    } else {
        let before = answered(actions.drop_last());
        match actions.last() {
            Action::ExecuteCallback(reply) => before.insert(reply.cb),
            Action::WakeUpLater { waiter, .. } => before.insert(waiter.cb),
            _ => before,
        }
    }
}

/// Filing `list` in place of what was there exchanges the callbacks of the one
/// for those of the other.
proof fn lemma_callbacks_exchanged<C, R>(
    m: TableView<C, R>,
    ts: u64,
    list: Seq<Waiter<C, R>>,
    leaving: Seq<Waiter<C, R>>,
    coming: Seq<Waiter<C, R>>,
)
    requires
        m.dom().finite(),
        (list + leaving).to_multiset() == (pool::list_at(m, ts) + coming).to_multiset(),
    ensures
        callbacks(pool::file_list(m, ts, list)).add(
            leaving.map_values(callback::<C, R>()).to_multiset(),
        ) == callbacks(m).add(coming.map_values(callback::<C, R>()).to_multiset()),
{
    let f = callback::<C, R>();
    let old_list = pool::list_at(m, ts);
    lemma_map_lists(m, f, ts, list);
    lemma_same_mapped(list + leaving, old_list + coming, f);
    assert((list + leaving).map_values(f) =~= list.map_values(f) + leaving.map_values(f));
    assert((old_list + coming).map_values(f) =~= old_list.map_values(f) + coming.map_values(f));
    vstd::seq_lib::lemma_multiset_commutative(list.map_values(f), leaving.map_values(f));
    vstd::seq_lib::lemma_multiset_commutative(old_list.map_values(f), coming.map_values(f));
    pool::lemma_pooled_file_list(pool::map_lists(m, f), ts, list.map_values(f));
    let rest = pool::pooled(pool::map_lists(m, f).remove(ts));
    assert(callbacks(pool::file_list(m, ts, list)).add(leaving.map_values(f).to_multiset())
        =~= rest.add((list.map_values(f) + leaving.map_values(f)).to_multiset()));
    assert(callbacks(m).add(coming.map_values(f).to_multiset()) =~= rest.add(
        (old_list.map_values(f) + coming.map_values(f)).to_multiset(),
    ));
}

/// Removing a wait takes the callback of the waiter along.
proof fn lemma_removed_callbacks<C, R>(m: TableView<C, R>, start_ts: u64, lock: Lock)
    requires
        m.dom().finite(),
    ensures
        callbacks(m) == match wait_table::waiting(m, start_ts, lock) {
            Some(waiter) => callbacks(wait_table::removed(m, start_ts, lock)).insert(waiter.cb),
            None => callbacks(wait_table::removed(m, start_ts, lock)),
        },
{
    broadcast use vstd::seq_lib::group_to_multiset_ensures;

    let list = pool::list_at(m, lock.ts);
    if let Some(i) = wait_table::find_wait(list, start_ts, lock.hash) {
        assert(wait_table::is_first_wait(list, start_ts, lock.hash, i));
        let one = seq![list[i]];
        let none = Seq::<Waiter<C, R>>::empty();
        let rest = list.remove(i);
        assert(list.contains(list[i]));
        assert(rest + one =~= rest.push(list[i]));
        assert((rest + one).to_multiset() =~= list.to_multiset());
        assert(list + none =~= list);
        lemma_callbacks_exchanged(m, lock.ts, rest, one, none);
        let f = callback::<C, R>();
        assert(one.map_values(f) =~= Seq::empty().push(list[i].cb));
        assert(one.map_values(f).to_multiset() =~= Multiset::singleton(list[i].cb));
        assert(none.map_values(f) =~= Seq::empty());
        assert(none.map_values(f).to_multiset() =~= Multiset::empty());
        assert(callbacks(m) =~= callbacks(m).add(none.map_values(f).to_multiset()));
    }
}

/// Waking up waiters in turn runs the callback of each of them once.
proof fn lemma_woken_callbacks<C, R, D>(
    actions: Seq<Action<C, R, D>>,
    duration: u64,
    order: Seq<Waiter<C, R>>,
    commit_ts: u64,
)
    requires
        manager::wakes_up_in_turn(actions, duration, order, commit_ts),
    ensures
        answered(actions) == order.map_values(callback::<C, R>()).to_multiset(),
    decreases order.len(),
{
    broadcast use vstd::seq_lib::group_to_multiset_ensures;

    let f = callback::<C, R>();
    if order.len() == 0 {
        assert(order.map_values(f).to_multiset() =~= Multiset::empty());
    } else {
        let n = order.len() - 1;
        let front = order.drop_last();
        let done = actions.take(2 * n);
        assert forall|i: int| #![trigger front[i]] 0 <= i < front.len() implies {
            &&& done[2 * i] == (Action::<C, R, D>::CleanUpWaitFor {
                start_ts: front[i].start_ts,
                lock: front[i].lock,
            })
            &&& manager::is_wake_up(done[2 * i + 1], duration, i, front[i], commit_ts)
        } by {
            assert(front[i] == order[i]);
        }
        lemma_woken_callbacks(done, duration, front, commit_ts);
        assert(order[n] == order.last());
        assert(actions.drop_last().drop_last() =~= done);
        assert(actions.drop_last().last() == actions[2 * n]);
        assert(answered(actions.drop_last()) == answered(done));
        assert(answered(actions) == answered(done).insert(order[n].cb));
        assert(order.map_values(f) =~= front.map_values(f).push(order[n].cb));
    }
}

/// No callback of a transaction is lost, and none is run twice: whatever the
/// task, those of the waiters left and those that are run are together those
/// of the waiters before and the one that came with the task.
pub proof fn callbacks_are_conserved<S, C, R, D>(
    pre: ManagerView<S, C, R>,
    task: Task<C, R, D>,
    post: ManagerView<S, C, R>,
    actions: Seq<Action<C, R, D>>,
)
    requires
        pre.wf(),
        manager::serves(pre, task, post, actions),
    ensures
        callbacks(post.table).add(answered(actions)) == callbacks(pre.table).add(brought(task)),
{
    broadcast use vstd::seq_lib::group_to_multiset_ensures;

    let f = callback::<C, R>();
    let none = Seq::<Waiter<C, R>>::empty();
    assert(none.map_values(f) =~= Seq::empty());
    assert(none.map_values(f).to_multiset() =~= Multiset::empty());
    reveal_with_fuel(answered, 3);
    match task {
        Task::WaitFor { start_ts, cb, pr, lock, is_first_lock } => {
            let waiter = Waiter { start_ts, cb, pr, lock };
            let list = pool::list_at(pre.table, lock.ts);
            let one = seq![waiter];
            assert(list.push(waiter) + none =~= list + one);
            lemma_callbacks_exchanged(pre.table, lock.ts, list.push(waiter), none, one);
            assert(one.map_values(f) =~= Seq::empty().push(cb));
            assert(one.map_values(f).to_multiset() =~= Multiset::singleton(cb));
            assert(answered(actions) =~= Multiset::empty());
        },
        Task::WakeUp { lock_ts, hashes, commit_ts } => {
            let list = pool::list_at(pre.table, lock_ts);
            let wanted = hashes@.to_set();
            let (ready, kept) = wait_table::part_ready(list, wanted);
            let order = choose|order: Seq<Waiter<C, R>>|
                {
                    &&& manager::is_wake_up_order(order, ready)
                    &&& #[trigger] manager::wakes_up_in_turn(
                        actions,
                        pre.wake_up_delay_duration,
                        order,
                        commit_ts,
                    )
                };
            wait_table::lemma_part_ready(list, wanted);
            vstd::seq_lib::lemma_multiset_commutative(kept, order);
            assert(list + none =~= list);
            assert((kept + order).to_multiset() =~= list.to_multiset());
            lemma_callbacks_exchanged(pre.table, lock_ts, kept, order, none);
            lemma_woken_callbacks(actions, pre.wake_up_delay_duration, order, commit_ts);
        },
        Task::Dump { cb } => {
            assert(actions.drop_last() =~= Seq::empty());
            assert(answered(actions) =~= Multiset::empty());
        },
        Task::Deadlock { start_ts, lock, deadlock_key_hash } => {
            lemma_removed_callbacks(pre.table, start_ts, lock);
            match wait_table::waiting(pre.table, start_ts, lock) {
                Some(waiter) => {
                    assert(actions.drop_last() =~= Seq::empty());
                    assert(answered(actions) =~= Multiset::singleton(waiter.cb));
                },
                None => {
                    assert(answered(actions) =~= Multiset::empty());
                },
            }
        },
    }
    assert(callbacks(post.table).add(answered(actions)) =~= callbacks(pre.table).add(
        brought(task),
    ));
}

/// A task that was refused loses no callback of a transaction: the one that came
/// with it is answered, with the result that it came with.
pub proof fn refusal_conserves_callbacks<C, R, D>(task: Task<C, R, D>)
    ensures
        match scheduler::answer_to_refusal(Err(Stopped(task))) {
            Some(reply) => {
                &&& brought(task) == Multiset::singleton(reply.cb)
                &&& task matches Task::WaitFor { pr, .. }
                &&& reply.pr == pr
            },
            None => brought(task) == Multiset::<C>::empty(),
        },
{
}

/// When a wait times out, too, no callback is lost and none is run twice.
pub proof fn timeout_conserves_callbacks<C, R, D>(
    table: TableView<C, R>,
    start_ts: u64,
    lock: Lock,
    actions: Seq<Action<C, R, D>>,
)
    requires
        table.dom().finite(),
        actions == manager::timeout_actions::<C, R, D>(table, start_ts, lock),
    ensures
        callbacks(wait_table::removed(table, start_ts, lock)).add(answered(actions)) == callbacks(
            table,
        ),
{
    reveal_with_fuel(answered, 3);
    lemma_removed_callbacks(table, start_ts, lock);
    if let Some(waiter) = wait_table::waiting(table, start_ts, lock) {
        assert(actions.drop_last().drop_last() =~= Seq::empty());
        assert(answered(actions) =~= Multiset::singleton(waiter.cb));
    } else {
        assert(answered(actions) =~= Multiset::empty());
    }
    assert(callbacks(wait_table::removed(table, start_ts, lock)).add(answered(actions))
        =~= callbacks(table));
}

/// Whatever task is served, a manager that was in order is in order.
pub proof fn tasks_keep_order<S, C, R, D>(
    pre: ManagerView<S, C, R>,
    task: Task<C, R, D>,
    post: ManagerView<S, C, R>,
    actions: Seq<Action<C, R, D>>,
)
    requires
        pre.wf(),
        manager::serves(pre, task, post, actions),
    ensures
        post.wf(),
{
    if let Task::WakeUp { lock_ts, hashes, .. } = task {
        manager::lemma_released_is_filed(pre.table, lock_ts, hashes@.to_set());
    }
}

/// A transaction that waits and times out is answered with the result that it
/// came with, and leaves the manager as it found it, unless it already waited
/// for the same lock.
pub proof fn waiting_then_timing_out<S, C, R, D>(
    pre: ManagerView<S, C, R>,
    waiter: Waiter<C, R>,
    is_first_lock: bool,
    post: ManagerView<S, C, R>,
    actions: Seq<Action<C, R, D>>,
)
    requires
        pre.wf(),
        wait_table::waiting(pre.table, waiter.start_ts, waiter.lock) is None,
        manager::serves(
            pre,
            Task::<C, R, D>::WaitFor {
                start_ts: waiter.start_ts,
                cb: waiter.cb,
                pr: waiter.pr,
                lock: waiter.lock,
                is_first_lock,
            },
            post,
            actions,
        ),
    ensures
        actions.last() == (Action::<C, R, D>::TimeOutLater {
            delay: pre.wait_for_lock_timeout,
            start_ts: waiter.start_ts,
            lock: waiter.lock,
        }),
        manager::timeout_actions::<C, R, D>(post.table, waiter.start_ts, waiter.lock) == seq![
            Action::<C, R, D>::CleanUpWaitFor { start_ts: waiter.start_ts, lock: waiter.lock },
            Action::<C, R, D>::ExecuteCallback(waiter::own_reply(waiter)),
        ],
        ({
            let timeout = manager::timeout_actions::<C, R, D>(
                post.table,
                waiter.start_ts,
                waiter.lock,
            );
            &&& timeout.len() == 2
            &&& timeout[0] matches Action::CleanUpWaitFor { start_ts, lock }
            &&& start_ts == waiter.start_ts
            &&& lock == waiter.lock
            &&& timeout[1] matches Action::ExecuteCallback(reply)
            &&& reply.cb == waiter.cb
            &&& reply.pr == waiter.pr
        }),
        wait_table::removed(post.table, waiter.start_ts, waiter.lock) == pre.table,
{
    added_wait_is_found(pre.table, waiter);
}

/// A wait that a wake-up ended is over: neither its timeout nor a deadlock
/// that was found meanwhile has any effect.
pub proof fn woken_wait_is_over<S, C, R, D>(
    pre: ManagerView<S, C, R>,
    lock_ts: u64,
    hashes: Vec<u64>,
    commit_ts: u64,
    post: ManagerView<S, C, R>,
    actions: Seq<Action<C, R, D>>,
    start_ts: u64,
    hash: u64,
    deadlock_key_hash: u64,
)
    requires
        manager::serves(pre, Task::<C, R, D>::WakeUp { lock_ts, hashes, commit_ts }, post, actions),
        hashes@.contains(hash),
    ensures
        ({
            let lock = Lock { ts: lock_ts, hash };
            &&& manager::timeout_actions::<C, R, D>(post.table, start_ts, lock).len() == 0
            &&& manager::deadlock_actions::<C, R, D>(
                post.table,
                start_ts,
                lock,
                deadlock_key_hash,
            ).len() == 0
            &&& wait_table::removed(post.table, start_ts, lock) == post.table
        }),
{
    released_lock_is_not_waited_for(pre.table, lock_ts, hashes@.to_set(), start_ts, hash);
}

/// A wake-up depends on which hashes are given, and not on their order or on
/// how often they are given.
pub proof fn wake_up_depends_on_set_of_hashes<S, C, R, D>(
    pre: ManagerView<S, C, R>,
    lock_ts: u64,
    hashes1: Vec<u64>,
    hashes2: Vec<u64>,
    commit_ts: u64,
    post: ManagerView<S, C, R>,
    actions: Seq<Action<C, R, D>>,
)
    requires
        forall|hash: u64| hashes1@.contains(hash) == hashes2@.contains(hash),
    ensures
        manager::serves(
            pre,
            Task::<C, R, D>::WakeUp { lock_ts, hashes: hashes1, commit_ts },
            post,
            actions,
        ) == manager::serves(
            pre,
            Task::<C, R, D>::WakeUp { lock_ts, hashes: hashes2, commit_ts },
            post,
            actions,
        ),
{
    assert(hashes1@.to_set() =~= hashes2@.to_set());
}

/// Of two waiters that are woken up together, the one with the smaller start
/// timestamp is woken up earlier, by the set delay at least.
pub proof fn smaller_start_ts_wakes_up_earlier<C, R, D>(
    actions: Seq<Action<C, R, D>>,
    duration: u64,
    order: Seq<Waiter<C, R>>,
    ready: Seq<Waiter<C, R>>,
    commit_ts: u64,
    i: int,
    j: int,
)
    requires
        duration > 0,
        manager::delays_fit(duration, order.len()),
        manager::is_wake_up_order(order, ready),
        manager::wakes_up_in_turn(actions, duration, order, commit_ts),
        0 <= i < order.len(),
        0 <= j < order.len(),
        order[i].start_ts < order[j].start_ts,
    ensures
        ({
            &&& actions[2 * i + 1] matches Action::WakeUpLater { delay: d1, waiter: w1, .. }
            &&& actions[2 * j + 1] matches Action::WakeUpLater { delay: d2, waiter: w2, .. }
            &&& w1 == order[i]
            &&& w2 == order[j]
            &&& d1 == duration * i
            &&& d2 == duration * j
            &&& d1 + duration <= d2
        }),
{
    assert(order[i] != order[j]);
    assert(i < j) by {
        if j <= i {
            assert(order[j].start_ts <= order[i].start_ts);
        }
    }
    let n = order.len();
    assert(duration * j <= duration * (n - 1)) by (nonlinear_arith)
        requires
            j <= n - 1,
    ;
    assert(duration * i + duration <= duration * j) by (nonlinear_arith)
        requires
            i + 1 <= j,
    ;
    assert(0 <= duration * i) by (nonlinear_arith)
        requires
            0 <= i,
    ;
}

/// The deadlock detector is asked just when a transaction that already holds a
/// lock is to wait.
pub proof fn only_later_locks_are_checked<S, C, R, D>(
    pre: ManagerView<S, C, R>,
    task: Task<C, R, D>,
    post: ManagerView<S, C, R>,
    actions: Seq<Action<C, R, D>>,
)
    requires
        manager::serves(pre, task, post, actions),
    ensures
        (exists|i: int| 0 <= i < actions.len() && #[trigger] actions[i] is Detect) <==> (
        task matches Task::WaitFor { is_first_lock, .. } && !is_first_lock),
{
    match task {
        Task::WaitFor { start_ts, cb, pr, lock, is_first_lock } => {
            if !is_first_lock {
                assert(actions[0] is Detect);
            }
        },
        Task::WakeUp { lock_ts, hashes, commit_ts } => {
            let ready = wait_table::ready(pre.table, lock_ts, hashes@.to_set());
            let order = choose|order: Seq<Waiter<C, R>>|
                {
                    &&& manager::is_wake_up_order(order, ready)
                    &&& #[trigger] manager::wakes_up_in_turn(
                        actions,
                        pre.wake_up_delay_duration,
                        order,
                        commit_ts,
                    )
                };
            assert forall|i: int| 0 <= i < actions.len() implies !(
            #[trigger] actions[i] is Detect) by {
                let k = i / 2;
                assert(0 <= k < order.len());
                let waiter = order[k];
                assert(i == 2 * k || i == 2 * k + 1);
            }
        },
        _ => {},
    }
}

/// Whoever is woken up or told of a deadlock waited for a lock of the
/// transaction in question.
pub proof fn answers_name_the_holder<S, C, R>(
    pre: ManagerView<S, C, R>,
    ts: u64,
    hashes: Set<u64>,
    start_ts: u64,
    hash: u64,
)
    requires
        pre.wf(),
    ensures
        forall|i: int|
            0 <= i < wait_table::ready(pre.table, ts, hashes).len() ==> {
                let waiter = #[trigger] wait_table::ready(pre.table, ts, hashes)[i];
                waiter.lock.ts == ts && hashes.contains(waiter.lock.hash)
            },
        wait_table::waiting(pre.table, start_ts, Lock { ts, hash }) matches Some(waiter)
            ==> waiter.start_ts == start_ts && waiter.lock == (Lock { ts, hash }),
{
    broadcast use vstd::seq_lib::group_to_multiset_ensures;

    let list = pool::list_at(pre.table, ts);
    let (ready, kept) = wait_table::part_ready(list, hashes);
    wait_table::lemma_part_ready(list, hashes);
    assert forall|i: int| 0 <= i < ready.len() implies (#[trigger] ready[i]).lock.ts == ts by {
        assert(ready.contains(ready[i]));
        assert(ready.to_multiset().count(ready[i]) > 0);
        assert(list.to_multiset().count(ready[i]) > 0);
        assert(list.contains(ready[i]));
    }
    if let Some(i) = wait_table::find_wait(list, start_ts, hash) {
        assert(wait_table::is_first_wait(list, start_ts, hash, i));
        assert(pre.table[ts][i].lock.ts == ts);
    }
}

/// The waits of `start_ts` for a key with this hash.
pub open spec fn wait_of<C, R>(start_ts: u64, hash: u64) -> spec_fn(Waiter<C, R>) -> bool {
    |waiter: Waiter<C, R>| wait_table::is_wait_of(waiter, start_ts, hash)
}

/// How often `start_ts` waits for `lock`.
pub open spec fn waits<C, R>(m: TableView<C, R>, start_ts: u64, lock: Lock) -> nat {
    pool::list_at(m, lock.ts).to_multiset().filter(wait_of(start_ts, lock.hash)).len()
}

/// The timeouts that `actions` start, each given by its transaction and lock.
pub open spec fn timers_started<C, R, D>(actions: Seq<Action<C, R, D>>) -> Multiset<(u64, Lock)>
    decreases actions.len(),
{
    if actions.len() == 0 {
        Multiset::empty()
    } else {
        let before = timers_started(actions.drop_last());
        match actions.last() {
            Action::TimeOutLater { start_ts, lock, .. } => before.insert((start_ts, lock)),
            _ => before,
        }
    }
}

/// For each wait in the table a timeout is under way.
pub open spec fn all_will_time_out<C, R>(
    m: TableView<C, R>,
    timers: Multiset<(u64, Lock)>,
) -> bool {
    forall|start_ts: u64, lock: Lock| #[trigger]
        waits(m, start_ts, lock) <= timers.count((start_ts, lock))
}

/// Fewer waiters are fewer waits.
proof fn lemma_fewer_waits<T>(a: Multiset<T>, b: Multiset<T>, f: spec_fn(T) -> bool)
    ensures
        a.add(b).filter(f) == a.filter(f).add(b.filter(f)),
        a.filter(f).len() <= a.add(b).filter(f).len(),
{
    assert(a.add(b).filter(f) =~= a.filter(f).add(b.filter(f)));
}

/// Waking up starts no timeout.
proof fn lemma_no_timer_started<C, R, D>(actions: Seq<Action<C, R, D>>)
    requires
        forall|i: int| 0 <= i < actions.len() ==> !(#[trigger] actions[i] is TimeOutLater),
    ensures
        timers_started(actions) == Multiset::<(u64, Lock)>::empty(),
    decreases actions.len(),
{
    if actions.len() > 0 {
        let front = actions.drop_last();
        assert forall|i: int| 0 <= i < front.len() implies !(
        #[trigger] front[i] is TimeOutLater) by {
            assert(front[i] == actions[i]);
        }
        lemma_no_timer_started(front);
        assert(!(actions[actions.len() - 1] is TimeOutLater));
    }
}

/// Removing one wait of `start_ts` for `lock` makes one wait less of these, and
/// no more of any others.
proof fn lemma_removed_waits<C, R>(m: TableView<C, R>, start_ts: u64, lock: Lock)
    ensures
        ({
            let m2 = wait_table::removed(m, start_ts, lock);
            &&& forall|s: u64, l: Lock| #[trigger] waits(m2, s, l) <= waits(m, s, l)
            &&& waits(m, start_ts, lock) > 0 ==> waits(m2, start_ts, lock) + 1 == waits(
                m,
                start_ts,
                lock,
            )
        }),
{
    broadcast use vstd::seq_lib::group_to_multiset_ensures;

    let list = pool::list_at(m, lock.ts);
    let m2 = wait_table::removed(m, start_ts, lock);
    match wait_table::find_wait(list, start_ts, lock.hash) {
        Some(i) => {
            assert(wait_table::is_first_wait(list, start_ts, lock.hash, i));
            let rest = list.remove(i);
            let one = Multiset::singleton(list[i]);
            assert(list.contains(list[i]));
            assert(rest.to_multiset().add(one) =~= list.to_multiset());
            assert(pool::list_at(m2, lock.ts) =~= rest);
            assert forall|s: u64, l: Lock| #[trigger] waits(m2, s, l) <= waits(m, s, l) by {
                if l.ts == lock.ts {
                    lemma_fewer_waits(rest.to_multiset(), one, wait_of(s, l.hash));
                }
            }
            let f = wait_of(start_ts, lock.hash);
            lemma_fewer_waits(rest.to_multiset(), one, f);
            assert(one.filter(f) =~= one);
        },
        None => {
            let all = list.to_multiset().filter(wait_of(start_ts, lock.hash));
            assert forall|w: Waiter<C, R>| all.count(w) == 0 by {
                if all.count(w) > 0 {
                    assert(list.contains(w));
                    let i = list.index_of(w);
                    wait_table::lemma_find_wait(list, start_ts, lock.hash, i);
                }
            }
            assert(all =~= Multiset::empty());
        },
    }
}

/// No wait is forgotten: with each wait a timeout is started, and whatever task
/// is served, a timeout stays under way for each wait in the table.
pub proof fn every_wait_will_time_out<S, C, R, D>(
    pre: ManagerView<S, C, R>,
    task: Task<C, R, D>,
    post: ManagerView<S, C, R>,
    actions: Seq<Action<C, R, D>>,
    timers: Multiset<(u64, Lock)>,
)
    requires
        manager::serves(pre, task, post, actions),
        all_will_time_out(pre.table, timers),
    ensures
        all_will_time_out(post.table, timers.add(timers_started(actions))),
{
    broadcast use vstd::seq_lib::group_to_multiset_ensures;

    let timers2 = timers.add(timers_started(actions));
    match task {
        Task::WaitFor { start_ts, cb, pr, lock, is_first_lock } => {
            let waiter = Waiter { start_ts, cb, pr, lock };
            let list = pool::list_at(pre.table, lock.ts);
            let one = Multiset::singleton(waiter);
            assert(list.push(waiter).to_multiset() =~= list.to_multiset().add(one));
            assert(timers_started(actions) =~= Multiset::singleton((start_ts, lock))) by {
                let front = actions.drop_last();
                assert forall|i: int| 0 <= i < front.len() implies !(
                #[trigger] front[i] is TimeOutLater) by {
                    assert(front[i] == actions[i]);
                }
                lemma_no_timer_started(front);
            }
            assert forall|s: u64, l: Lock| #[trigger]
                waits(post.table, s, l) <= timers2.count((s, l)) by {
                assert(waits(pre.table, s, l) <= timers.count((s, l)));
                if l.ts == lock.ts {
                    let f = wait_of(s, l.hash);
                    lemma_fewer_waits(list.to_multiset(), one, f);
                    if s == start_ts && l.hash == lock.hash {
                        assert(one.filter(f) =~= one);
                    } else {
                        assert(one.filter(f) =~= Multiset::empty());
                    }
                }
            }
        },
        Task::WakeUp { lock_ts, hashes, commit_ts } => {
            let list = pool::list_at(pre.table, lock_ts);
            let (ready, kept) = wait_table::part_ready(list, hashes@.to_set());
            wait_table::lemma_part_ready(list, hashes@.to_set());
            assert(kept.to_multiset().add(ready.to_multiset()) =~= list.to_multiset());
            if kept.len() == 0 {
                assert(kept =~= Seq::empty());
            }
            assert forall|s: u64, l: Lock| #[trigger]
                waits(post.table, s, l) <= timers2.count((s, l)) by {
                assert(waits(pre.table, s, l) <= timers.count((s, l)));
                if l.ts == lock_ts {
                    lemma_fewer_waits(
                        kept.to_multiset(),
                        ready.to_multiset(),
                        wait_of(s, l.hash),
                    );
                }
            }
        },
        Task::Dump { .. } => {
            assert forall|s: u64, l: Lock| #[trigger]
                waits(post.table, s, l) <= timers2.count((s, l)) by {
                assert(waits(pre.table, s, l) <= timers.count((s, l)));
            }
        },
        Task::Deadlock { start_ts, lock, .. } => {
            lemma_removed_waits(pre.table, start_ts, lock);
            assert forall|s: u64, l: Lock| #[trigger]
                waits(post.table, s, l) <= timers2.count((s, l)) by {
                assert(waits(pre.table, s, l) <= timers.count((s, l)));
            }
        },
    }
}

/// A timeout that has run its course is used up; one is still under way for
/// each wait that is left.
pub proof fn timeouts_cover_what_is_left<C, R>(
    table: TableView<C, R>,
    timers: Multiset<(u64, Lock)>,
    start_ts: u64,
    lock: Lock,
)
    requires
        all_will_time_out(table, timers),
    ensures
        all_will_time_out(
            wait_table::removed(table, start_ts, lock),
            timers.remove((start_ts, lock)),
        ),
{
    lemma_removed_waits(table, start_ts, lock);
    let table2 = wait_table::removed(table, start_ts, lock);
    let timers2 = timers.remove((start_ts, lock));
    assert forall|s: u64, l: Lock| #[trigger] waits(table2, s, l) <= timers2.count((s, l)) by {
        assert(waits(table, s, l) <= timers.count((s, l)));
    }
}

} // verus!
