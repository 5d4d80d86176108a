//! The table of waiting transactions.
use vstd::prelude::*;

use std::collections::HashMap;

use crate::pool;
use crate::sorting;
use crate::sorting::{search_hash, sort_hashes};
use crate::waiter;
use crate::waiter::{Lock, WaitForEntry, Waiter, Waiters};

verus! {

/// The waiters of a table: for each transaction that is waited for, those who
/// wait for one of its locks.
pub type TableView<C, R> = Map<u64, Seq<Waiter<C, R>>>;

/// No transaction is listed that nobody waits for.
pub open spec fn no_idle_txn<C, R>(m: TableView<C, R>) -> bool {
    forall|ts: u64| #[trigger] m.contains_key(ts) ==> m[ts].len() > 0
}

/// `waiter` is the transaction `start_ts` waiting for a key with this hash.
pub open spec fn is_wait_of<C, R>(waiter: Waiter<C, R>, start_ts: u64, hash: u64) -> bool {
    waiter.start_ts == start_ts && waiter.lock.hash == hash
}

/// Position `i` of `list` holds the first wait of `start_ts` for a key with
/// this hash.
pub open spec fn is_first_wait<C, R>(
    list: Seq<Waiter<C, R>>,
    start_ts: u64,
    hash: u64,
    i: int,
) -> bool {
    &&& 0 <= i < list.len()
    &&& is_wait_of(list[i], start_ts, hash)
    &&& forall|j: int| 0 <= j < i ==> !is_wait_of(#[trigger] list[j], start_ts, hash)
}

/// Where `list` holds the first wait of `start_ts` for a key with this hash.
pub open spec fn find_wait<C, R>(list: Seq<Waiter<C, R>>, start_ts: u64, hash: u64) -> Option<int> {
    if exists|i: int| is_first_wait(list, start_ts, hash, i) {
        Some(choose|i: int| is_first_wait(list, start_ts, hash, i))
    } else {
        None
    }
}

/// Those who wait for a key with one of these hashes.
pub open spec fn waits_for_any<C, R>(hashes: Set<u64>) -> spec_fn(Waiter<C, R>) -> bool {
    |waiter: Waiter<C, R>| hashes.contains(waiter.lock.hash)
}

/// Parts `list` into those who wait for a key with one of these hashes and
/// those who do not, both in the order in which they are met. The list is
/// walked from its front; the gap that a ready waiter leaves is filled with
/// the last of those not met yet.
pub open spec fn part_ready<C, R>(list: Seq<Waiter<C, R>>, hashes: Set<u64>) -> (
    Seq<Waiter<C, R>>,
    Seq<Waiter<C, R>>,
)
    decreases list.len(),
{
    if list.len() == 0 {
        (Seq::empty(), Seq::empty())
    } else if hashes.contains(list[0].lock.hash) {
        let (ready, kept) = part_ready(list.update(0, list.last()).drop_last(), hashes);
        (seq![list[0]] + ready, kept)
    } else {
        let (ready, kept) = part_ready(list.drop_first(), hashes);
        (ready, seq![list[0]] + kept)
    }
}

/// The table once `waiter` is added under `ts`.
pub open spec fn added<C, R>(m: TableView<C, R>, ts: u64, waiter: Waiter<C, R>) -> TableView<C, R> {
    m.insert(ts, pool::list_at(m, ts).push(waiter))
}

/// Those taken out of the table when the locks of `ts` with these hashes are
/// released.
pub open spec fn ready<C, R>(m: TableView<C, R>, ts: u64, hashes: Set<u64>) -> Seq<Waiter<C, R>> {
    part_ready(pool::list_at(m, ts), hashes).0
}

/// The table once the locks of `ts` with these hashes are released.
pub open spec fn released<C, R>(m: TableView<C, R>, ts: u64, hashes: Set<u64>) -> TableView<C, R> {
    pool::file_list(m, ts, part_ready(pool::list_at(m, ts), hashes).1)
}

/// The first wait of `start_ts` for `lock`, if there is one.
pub open spec fn waiting<C, R>(m: TableView<C, R>, start_ts: u64, lock: Lock) -> Option<
    Waiter<C, R>,
> {
    match find_wait(pool::list_at(m, lock.ts), start_ts, lock.hash) {
        Some(i) => Some(m[lock.ts][i]),
        None => None,
    }
}

/// The table once the first wait of `start_ts` for `lock` is removed.
pub open spec fn removed<C, R>(m: TableView<C, R>, start_ts: u64, lock: Lock) -> TableView<C, R> {
    match find_wait(pool::list_at(m, lock.ts), start_ts, lock.hash) {
        Some(i) => pool::file_list(m, lock.ts, m[lock.ts].remove(i)),
        None => m,
    }
}

/// `entries` are the edges of those who wait for the first transaction of
/// `order`, then of those who wait for the second, and so on, until all
/// transactions that are waited for have had their turn.
pub open spec fn lists_waits<C, R>(
    entries: Seq<WaitForEntry>,
    m: TableView<C, R>,
    order: Seq<u64>,
) -> bool {
    &&& pool::visits_all(m, order)
    &&& entries == pool::joined(m, order).map_values(
        |waiter: Waiter<C, R>| waiter::entry_of(waiter),
    )
}

/// Sorting numbers keeps the set of them.
proof fn lemma_same_hashes(given: Seq<u64>, sorted: Seq<u64>)
    requires
        given.to_multiset() == sorted.to_multiset(),
    ensures
        forall|hash: u64| sorted.contains(hash) == given.to_set().contains(hash),
{
    broadcast use vstd::seq_lib::group_to_multiset_ensures;

    assert forall|hash: u64| sorted.contains(hash) == given.to_set().contains(hash) by {
        assert(sorted.contains(hash) == (sorted.to_multiset().count(hash) > 0));
        assert(given.contains(hash) == (given.to_multiset().count(hash) > 0));
    }
}

/// Parting a list loses nobody and adds nobody, and tells exactly those apart
/// who wait for one of the hashes.
pub proof fn lemma_part_ready<C, R>(list: Seq<Waiter<C, R>>, hashes: Set<u64>)
    ensures
        ({
            let (ready, kept) = part_ready(list, hashes);
            &&& ready.to_multiset().add(kept.to_multiset()) == list.to_multiset()
            &&& ready.len() + kept.len() == list.len()
            &&& forall|i: int|
                0 <= i < ready.len() ==> hashes.contains((#[trigger] ready[i]).lock.hash)
            &&& forall|i: int|
                0 <= i < kept.len() ==> !hashes.contains((#[trigger] kept[i]).lock.hash)
            &&& ready.to_multiset() == list.to_multiset().filter(waits_for_any(hashes))
        }),
    decreases list.len(),
{
    broadcast use vstd::seq_lib::group_to_multiset_ensures;

    let (ready, kept) = part_ready(list, hashes);
    if list.len() == 0 {
        assert(ready.to_multiset().add(kept.to_multiset()) =~= list.to_multiset());
    } else {
        let first = list[0];
        assert(list =~= seq![first] + list.drop_first());
        vstd::seq_lib::lemma_multiset_commutative(seq![first], list.drop_first());
        if hashes.contains(first.lock.hash) {
            let rest = list.update(0, list.last()).drop_last();
            let (rest_ready, rest_kept) = part_ready(rest, hashes);
            lemma_part_ready(rest, hashes);
            if list.len() == 1 {
                assert(rest =~= list.drop_first());
            } else {
                let middle = list.subrange(1, list.len() - 1);
                assert(rest =~= seq![list.last()] + middle);
                assert(list.drop_first() =~= middle + seq![list.last()]);
                vstd::seq_lib::lemma_multiset_commutative(seq![list.last()], middle);
                vstd::seq_lib::lemma_multiset_commutative(middle, seq![list.last()]);
            }
            assert(rest.to_multiset() =~= list.drop_first().to_multiset());
            vstd::seq_lib::lemma_multiset_commutative(seq![first], rest_ready);
            assert(ready == seq![first] + rest_ready && kept == rest_kept);
            assert(ready.to_multiset().add(kept.to_multiset()) =~= list.to_multiset());
        } else {
            let rest = list.drop_first();
            let (rest_ready, rest_kept) = part_ready(rest, hashes);
            lemma_part_ready(rest, hashes);
            vstd::seq_lib::lemma_multiset_commutative(seq![first], rest_kept);
            assert(ready == rest_ready && kept == seq![first] + rest_kept);
            assert(ready.to_multiset().add(kept.to_multiset()) =~= list.to_multiset());
        }
    }
    let all = list.to_multiset();
    assert forall|w: Waiter<C, R>|
        ready.to_multiset().count(w) == all.filter(waits_for_any(hashes)).count(w) by {
        assert(all.count(w) == ready.to_multiset().count(w) + kept.to_multiset().count(w));
        if hashes.contains(w.lock.hash) {
            assert(!kept.contains(w));
        } else {
            assert(!ready.contains(w));
        }
    }
    assert(ready.to_multiset() =~= all.filter(waits_for_any(hashes)));
}

/// If the wait at position `i` matches, there is a first one that does.
pub proof fn lemma_find_wait<C, R>(list: Seq<Waiter<C, R>>, start_ts: u64, hash: u64, i: int)
    requires
        0 <= i < list.len(),
        is_wait_of(list[i], start_ts, hash),
    ensures
        exists|j: int| is_first_wait(list, start_ts, hash, j),
        find_wait(list, start_ts, hash) is Some,
    decreases i,
{
    if !is_first_wait(list, start_ts, hash, i) {
        let j = choose|j: int| 0 <= j < i && is_wait_of(#[trigger] list[j], start_ts, hash);
        lemma_find_wait(list, start_ts, hash, j);
    }
}

/// The wait that is removed is the first of `start_ts` for `lock`, and it alone
/// leaves. Nothing changes if there is no such wait.
pub proof fn lemma_removed<C, R>(m: TableView<C, R>, start_ts: u64, lock: Lock)
    ensures
        match waiting(m, start_ts, lock) {
            Some(w) => exists|i: int|
                #![trigger m[lock.ts][i]]
                {
                    &&& m.contains_key(lock.ts)
                    &&& 0 <= i < m[lock.ts].len()
                    &&& w == m[lock.ts][i]
                    &&& w.start_ts == start_ts
                    &&& w.lock.hash == lock.hash
                    &&& forall|j: int|
                        0 <= j < i ==> (#[trigger] m[lock.ts][j]).start_ts != start_ts
                            || m[lock.ts][j].lock.hash != lock.hash
                    &&& removed(m, start_ts, lock) == if m[lock.ts].len() == 1 {
                        m.remove(lock.ts)
                    } else {
                        m.insert(lock.ts, m[lock.ts].remove(i))
                    }
                },
            None => {
                &&& removed(m, start_ts, lock) == m
                &&& m.contains_key(lock.ts) ==> forall|j: int|
                    0 <= j < m[lock.ts].len() ==> (#[trigger] m[lock.ts][j]).start_ts != start_ts
                        || m[lock.ts][j].lock.hash != lock.hash
            },
        },
{
    let list = pool::list_at(m, lock.ts);
    match find_wait(list, start_ts, lock.hash) {
        Some(i) => {
            assert(is_first_wait(list, start_ts, lock.hash, i));
            assert forall|j: int| 0 <= j < i implies (#[trigger] m[lock.ts][j]).start_ts != start_ts
                || m[lock.ts][j].lock.hash != lock.hash by {
                assert(!is_wait_of(list[j], start_ts, lock.hash));
            }
        },
        None => {
            if m.contains_key(lock.ts) {
                assert forall|j: int| 0 <= j < m[lock.ts].len() implies (
                #[trigger] m[lock.ts][j]).start_ts != start_ts || m[lock.ts][j].lock.hash
                    != lock.hash by {
                    if is_wait_of(list[j], start_ts, lock.hash) {
                        lemma_find_wait(list, start_ts, lock.hash, j);
                    }
                }
            }
        },
    }
}

/// A release takes out those who wait for one of the hashes, each as often as
/// it waits, and keeps the others; nothing else changes.
pub proof fn lemma_released<C, R>(m: TableView<C, R>, ts: u64, hashes: Set<u64>)
    ensures
        forall|w: Waiter<C, R>| #[trigger]
            ready(m, ts, hashes).to_multiset().count(w) == if m.contains_key(ts)
                && hashes.contains(w.lock.hash) {
                m[ts].to_multiset().count(w)
            } else {
                0
            },
        released(m, ts, hashes).contains_key(ts) ==> forall|w: Waiter<C, R>| #[trigger]
            released(m, ts, hashes)[ts].to_multiset().count(w) == if hashes.contains(w.lock.hash) {
                0
            } else {
                m[ts].to_multiset().count(w)
            },
        released(m, ts, hashes).contains_key(ts) <==> (m.contains_key(ts) && exists|i: int|
            0 <= i < m[ts].len() && !hashes.contains((#[trigger] m[ts][i]).lock.hash)),
        released(m, ts, hashes).remove(ts) == m.remove(ts),
{
    broadcast use vstd::seq_lib::group_to_multiset_ensures;

    let list = pool::list_at(m, ts);
    let (ready, kept) = part_ready(list, hashes);
    lemma_part_ready(list, hashes);
    let all = list.to_multiset();
    assert forall|w: Waiter<C, R>|
        ready.to_multiset().count(w) == (if hashes.contains(w.lock.hash) {
            all.count(w)
        } else {
            0
        }) && kept.to_multiset().count(w) == (if hashes.contains(w.lock.hash) {
            0
        } else {
            all.count(w)
        }) by {
        assert(all.count(w) == ready.to_multiset().count(w) + kept.to_multiset().count(w));
        if hashes.contains(w.lock.hash) {
            assert(!kept.contains(w));
        } else {
            assert(!ready.contains(w));
        }
    }
    if kept.len() > 0 {
        assert(kept.contains(kept[0]));
        assert(kept.to_multiset().count(kept[0]) > 0);
        assert(list.contains(kept[0]));
        let i = list.index_of(kept[0]);
        assert(!hashes.contains(m[ts][i].lock.hash));
    }
    if m.contains_key(ts) {
        assert forall|i: int| 0 <= i < m[ts].len() && !hashes.contains(
            (#[trigger] m[ts][i]).lock.hash,
        ) implies kept.len() > 0 by {
            assert(list.contains(list[i]));
            assert(kept.to_multiset().count(list[i]) > 0);
            assert(kept.contains(list[i]));
        }
    } else {
        assert(list.len() == 0);
        assert(kept.len() == 0);
        assert(Seq::<Waiter<C, R>>::empty() =~= ready);
    }
    assert(released(m, ts, hashes).remove(ts) =~= m.remove(ts));
}

/// The keys of what a walk of a map comes by.
spec fn keys_of<V>(walk: Seq<(u64, V)>) -> Seq<u64> {
    walk.map_values(|kv: (u64, V)| kv.0)
}

/// The transactions that wait for locks, grouped by the transaction whose
/// locks they wait for.
pub struct WaitTable<C, R> {
    wait_table: HashMap<u64, Waiters<C, R>>,
}

impl<C, R> View for WaitTable<C, R> {
    type V = TableView<C, R>;

    closed spec fn view(&self) -> TableView<C, R> {
        self.wait_table@.map_values(|waiters: Waiters<C, R>| waiters@)
    }
}

impl<C, R> WaitTable<C, R> {
    /// The table is in order: it lists no transaction that nobody waits for.
    pub open spec fn wf(&self) -> bool {
        &&& self@.dom().finite()
        &&& no_idle_txn(self@)
    }

    /// How many transactions wait.
    pub open spec fn total(&self) -> nat {
        pool::pooled(self@).len()
    }

    /// `walk` comes by each list of waiters once.
    spec fn is_walk(&self, walk: Seq<(u64, Waiters<C, R>)>) -> bool {
        &&& walk.no_duplicates()
        &&& forall|i: int|
            0 <= i < walk.len() ==> self.wait_table@.contains_key((#[trigger] walk[i]).0)
                && self.wait_table@[walk[i].0] == walk[i].1
        &&& forall|ts: u64| #[trigger]
            self.wait_table@.contains_key(ts) ==> walk.contains((ts, self.wait_table@[ts]))
    }

    /// A walk over references is a walk.
    proof fn lemma_is_walk(&self, refs: Seq<(&u64, &Waiters<C, R>)>)
        requires
            refs.no_duplicates(),
            forall|i: int|
                #![trigger self.wait_table@.contains_key(*refs[i].0)]
                0 <= i < refs.len() ==> self.wait_table@.contains_key(*refs[i].0)
                    && self.wait_table@[*refs[i].0] == *refs[i].1,
            forall|ts: u64| #[trigger]
                self.wait_table@.contains_key(ts) ==> refs.contains((&ts, &self.wait_table@[ts])),
        ensures
            self.is_walk(refs.unref()),
    {
        let walk = refs.unref();
        assert forall|i: int, j: int|
            0 <= i < walk.len() && 0 <= j < walk.len() && i != j implies walk[i] != walk[j] by {
            assert(refs[i] != refs[j]);
        }
        assert forall|i: int| 0 <= i < walk.len() implies self.wait_table@.contains_key(
            (#[trigger] walk[i]).0,
        ) && self.wait_table@[walk[i].0] == walk[i].1 by {
            assert(self.wait_table@.contains_key(*refs[i].0));
        }
        assert forall|ts: u64| #[trigger] self.wait_table@.contains_key(ts) implies walk.contains(
            (ts, self.wait_table@[ts]),
        ) by {
            let i = refs.index_of((&ts, &self.wait_table@[ts]));
            assert(refs[i] == (&ts, &self.wait_table@[ts]));
            assert(walk[i] == (ts, self.wait_table@[ts]));
        }
    }

    /// The keys that a walk comes by visit all lists of the table.
    proof fn lemma_walk(&self, walk: Seq<(u64, Waiters<C, R>)>)
        requires
            self.is_walk(walk),
        ensures
            pool::visits_all(self@, keys_of(walk)),
            forall|i: int| 0 <= i < walk.len() ==> self@[(#[trigger] walk[i]).0] == walk[i].1@,
    {
        let order = keys_of(walk);
        assert forall|ts: u64| order.to_set().contains(ts) == self@.dom().contains(ts) by {
            if self@.dom().contains(ts) {
                let i = walk.index_of((ts, self.wait_table@[ts]));
                assert(walk[i] == (ts, self.wait_table@[ts]));
                assert(order[i] == ts);
            }
        }
        assert(order.to_set() =~= self@.dom());
        assert forall|i: int, j: int|
            0 <= i < order.len() && 0 <= j < order.len() && i != j implies order[i] != order[j] by {
            if order[i] == order[j] {
                assert(walk[i] == walk[j]);
            }
        }
    }

    /// An empty table.
    pub fn new() -> (table: Self)
        ensures
            table.wf(),
            table@ == Map::<u64, Seq<Waiter<C, R>>>::empty(),
    {
        let table = Self { wait_table: HashMap::new() };
        assert(table@ =~= Map::<u64, Seq<Waiter<C, R>>>::empty());
        table
    }

    /// Adds `waiter` to those who wait for the transaction `ts`. It is always
    /// taken.
    pub fn add_waiter(&mut self, ts: u64, waiter: Waiter<C, R>) -> (taken: bool)
        requires
            old(self).wf(),
        ensures
            taken,
            final(self).wf(),
            final(self)@ == added(old(self)@, ts, waiter),
            final(self)@ == old(self)@.insert(
                ts,
                if old(self)@.contains_key(ts) {
                    old(self)@[ts].push(waiter)
                } else {
                    seq![waiter]
                },
            ),
    {
        self.wait_table.entry(ts).or_insert(Vec::new()).push(waiter);
        assert(self@ =~= added(old(self)@, ts, waiter));
        assert(Seq::empty().push(waiter) =~= seq![waiter]);
        true
    }

    /// Takes out and returns those who wait for the transaction `ts` on a key
    /// with one of these hashes.
    pub fn get_ready_waiters(&mut self, ts: u64, hashes: Vec<u64>) -> (ready_waiters: Waiters<C, R>)
        requires
            old(self).wf(),
        ensures
            final(self).wf(),
            ready_waiters@ == ready(old(self)@, ts, hashes@.to_set()),
            ready_waiters@.to_multiset() == pool::list_at(old(self)@, ts).to_multiset().filter(
                waits_for_any(hashes@.to_set()),
            ),
            final(self)@ == released(old(self)@, ts, hashes@.to_set()),
            // Those who wait for one of the hashes leave, and all others stay.
            forall|w: Waiter<C, R>| #[trigger]
                ready_waiters@.to_multiset().count(w) == if old(self)@.contains_key(ts)
                    && hashes@.contains(w.lock.hash) {
                    old(self)@[ts].to_multiset().count(w)
                } else {
                    0
                },
            final(self)@.contains_key(ts) ==> forall|w: Waiter<C, R>| #[trigger]
                final(self)@[ts].to_multiset().count(w) == if hashes@.contains(w.lock.hash) {
                    0
                } else {
                    old(self)@[ts].to_multiset().count(w)
                },
            final(self)@.contains_key(ts) <==> (old(self)@.contains_key(ts) && exists|i: int|
                0 <= i < old(self)@[ts].len() && !hashes@.contains(
                    (#[trigger] old(self)@[ts][i]).lock.hash,
                )),
            final(self)@.remove(ts) == old(self)@.remove(ts),
    {
        let ghost given = hashes@;
        let ghost wanted = given.to_set();
        let mut hashes = hashes;
        sort_hashes(&mut hashes);
        proof {
            lemma_same_hashes(given, hashes@);
            lemma_part_ready(pool::list_at(self@, ts), wanted);
        }
        let mut ready_waiters: Waiters<C, R> = Vec::new();
        if let Some(taken) = self.wait_table.remove(&ts) {
            let mut waiters = taken;
            let mut i: usize = 0;
            let mut count: usize = waiters.len();
            let ghost list = waiters@;
            assert(list.skip(0) =~= list);
            while count > 0
                invariant
                    sorting::ascending(hashes@),
                    forall|hash: u64| hashes@.contains(hash) == wanted.contains(hash),
                    i + count == waiters.len(),
                    ({
                        let (ready, kept) = part_ready(waiters@.skip(i as int), wanted);
                        &&& ready_waiters@ + ready =~= part_ready(list, wanted).0
                        &&& waiters@.take(i as int) + kept =~= part_ready(list, wanted).1
                    }),
                decreases count,
            {
                let ghost before = waiters@;
                let ghost rest = waiters@.skip(i as int);
                if search_hash(&hashes, waiters[i].lock.hash).is_ok() {
                    ready_waiters.push(waiters.swap_remove(i));
                    assert(waiters@.skip(i as int) =~= rest.update(0, rest.last()).drop_last());
                    assert(waiters@.take(i as int) =~= before.take(i as int));
                } else {
                    i += 1;
                    assert(waiters@.skip(i as int) =~= rest.drop_first());
                    assert(waiters@.take(i as int) =~= before.take(i - 1) + seq![rest[0]]);
                }
                count -= 1;
            }
            assert(waiters@.skip(i as int) =~= Seq::empty());
            assert(waiters@.take(i as int) =~= waiters@);
            if !waiters.is_empty() {
                self.wait_table.insert(ts, waiters);
            }
        }
        assert(self@ =~= released(old(self)@, ts, wanted));
        proof {
            lemma_released(old(self)@, ts, wanted);
        }
        ready_waiters
    }

    /// How many waiters the release of the locks of `ts` with these hashes
    /// would take out.
    pub fn count_ready(&self, ts: u64, hashes: &Vec<u64>) -> (n: usize)
        requires
            self.wf(),
        ensures
            n == ready(self@, ts, hashes@.to_set()).len(),
            n == if self@.contains_key(ts) {
                self@[ts].to_multiset().filter(
                    |w: Waiter<C, R>| hashes@.contains(w.lock.hash),
                ).len()
            } else {
                0
            },
    {
        let ghost wanted = hashes@.to_set();
        let mut sorted: Vec<u64> = hashes.clone();
        assert(sorted@ =~= hashes@);
        sort_hashes(&mut sorted);
        proof {
            lemma_same_hashes(hashes@, sorted@);
        }
        let mut n: usize = 0;
        proof {
            broadcast use vstd::seq_lib::group_to_multiset_ensures;

            lemma_part_ready(pool::list_at(self@, ts), wanted);
            assert(Seq::<Waiter<C, R>>::empty().to_multiset().filter(waits_for_any(wanted))
                =~= vstd::multiset::Multiset::empty());
        }
        if let Some(waiters) = self.wait_table.get(&ts) {
            let mut i: usize = 0;
            assert(waiters@.take(0) =~= Seq::empty());
            while i < waiters.len()
                invariant
                    i <= waiters.len(),
                    n <= i,
                    sorting::ascending(sorted@),
                    forall|hash: u64| sorted@.contains(hash) == wanted.contains(hash),
                    n == waiters@.take(i as int).to_multiset().filter(waits_for_any(wanted)).len(),
                decreases waiters.len() - i,
            {
                proof {
                    broadcast use vstd::seq_lib::group_to_multiset_ensures;

                    let front = waiters@.take(i as int);
                    let next = waiters@[i as int];
                    let counted = front.to_multiset().filter(waits_for_any(wanted));
                    assert(waiters@.take(i + 1) =~= front.push(next));
                    let counted2 = front.push(next).to_multiset().filter(waits_for_any(wanted));
                    if wanted.contains(next.lock.hash) {
                        assert(counted2 =~= counted.insert(next));
                    } else {
                        assert(counted2 =~= counted);
                    }
                }
                if search_hash(&sorted, waiters[i].lock.hash).is_ok() {
                    n += 1;
                }
                i += 1;
            }
            assert(waiters@.take(i as int) =~= waiters@);
            assert(waiters@.to_multiset().filter(waits_for_any(wanted))
                =~= waiters@.to_multiset().filter(
                |w: Waiter<C, R>| hashes@.contains(w.lock.hash),
            ));
        }
        n
    }

    /// Takes out and returns the first wait of `start_ts` for `lock`, if there
    /// is one.
    pub fn remove_waiter(&mut self, start_ts: u64, lock: Lock) -> (waiter: Option<Waiter<C, R>>)
        requires
            old(self).wf(),
        ensures
            final(self).wf(),
            waiter == waiting(old(self)@, start_ts, lock),
            final(self)@ == removed(old(self)@, start_ts, lock),
            match waiter {
                Some(w) => exists|i: int|
                    #![trigger old(self)@[lock.ts][i]]
                    {
                        &&& old(self)@.contains_key(lock.ts)
                        &&& 0 <= i < old(self)@[lock.ts].len()
                        &&& w == old(self)@[lock.ts][i]
                        &&& w.start_ts == start_ts
                        &&& w.lock.hash == lock.hash
                        &&& forall|j: int|
                            0 <= j < i ==> (#[trigger] old(self)@[lock.ts][j]).start_ts != start_ts
                                || old(self)@[lock.ts][j].lock.hash != lock.hash
                        &&& final(self)@ == if old(self)@[lock.ts].len() == 1 {
                            old(self)@.remove(lock.ts)
                        } else {
                            old(self)@.insert(lock.ts, old(self)@[lock.ts].remove(i))
                        }
                    },
                None => {
                    &&& final(self)@ == old(self)@
                    &&& old(self)@.contains_key(lock.ts) ==> forall|j: int|
                        0 <= j < old(self)@[lock.ts].len() ==> (
                        #[trigger] old(self)@[lock.ts][j]).start_ts != start_ts
                            || old(self)@[lock.ts][j].lock.hash != lock.hash
                },
            },
    {
        let mut found: Option<Waiter<C, R>> = None;
        if let Some(taken) = self.wait_table.remove(&lock.ts) {
            let mut waiters = taken;
            let ghost list = waiters@;
            let mut idx: usize = 0;
            while idx < waiters.len() && !(waiters[idx].start_ts == start_ts
                && waiters[idx].lock.hash == lock.hash)
                invariant
                    waiters@ == list,
                    idx <= list.len(),
                    forall|j: int|
                        0 <= j < idx ==> !is_wait_of(#[trigger] list[j], start_ts, lock.hash),
                decreases waiters.len() - idx,
            {
                idx += 1;
            }
            if idx < waiters.len() {
                assert(is_first_wait(list, start_ts, lock.hash, idx as int));
                found = Some(waiters.remove(idx));
            }
            if !waiters.is_empty() {
                self.wait_table.insert(lock.ts, waiters);
            }
        }
        assert(self@ =~= removed(old(self)@, start_ts, lock));
        proof {
            lemma_removed(old(self)@, start_ts, lock);
        }
        found
    }

    /// How many transactions wait.
    pub fn size(&self) -> (n: usize)
        requires
            self.wf(),
            self.total() <= usize::MAX,
        ensures
            n == self.total(),
            n == pool::pooled(self@).len(),
    {
        let mut sum: usize = 0;
        let iter = self.wait_table.iter();
        let ghost walk = vstd::std_specs::hash::into_iter(iter);
        let ghost order = keys_of(walk);
        proof {
            broadcast use vstd::seq_lib::group_to_multiset_ensures;

            self.lemma_is_walk(vstd::std_specs::iter::IteratorSpec::remaining(&iter));
            self.lemma_walk(walk);
            pool::lemma_joined_is_pooled(self@, order);
        }
        for (ts, waiters) in it: iter
            invariant
                it.seq().unref() == walk,
                order == keys_of(walk),
                forall|i: int| 0 <= i < walk.len() ==> self@[(#[trigger] walk[i]).0] == walk[i].1@,
                pool::joined(self@, order).len() <= usize::MAX,
                sum == pool::joined(self@, order.take(it.index())).len(),
        {
            proof {
                pool::lemma_joined_prefix(self@, order, it.index() + 1);
                assert(order.take(it.index() + 1).drop_last() =~= order.take(it.index()));
                assert(walk[it.index()] == (*ts, *waiters));
            }
            sum += waiters.len();
        }
        assert(order.take(order.len() as int) =~= order);
        sum
    }

    /// The wait-for graph: one edge for each waiting transaction. The edges of
    /// those who wait for one transaction come in a row, in the order in which
    /// they wait; the order of the transactions waited for is left open.
    pub fn to_wait_for_entries(&self) -> (entries: Vec<WaitForEntry>)
        requires
            self.wf(),
        ensures
            exists|order: Seq<u64>| lists_waits(entries@, self@, order),
            exists|order: Seq<u64>|
                #![trigger order.to_set()]
                {
                    &&& order.no_duplicates()
                    &&& order.to_set() == self@.dom()
                    &&& entries@ == pool::joined(self@, order).map_values(
                        |w: Waiter<C, R>|
                            WaitForEntry {
                                txn: w.start_ts,
                                wait_for_txn: w.lock.ts,
                                key_hash: w.lock.hash,
                            },
                    )
                },
    {
        let mut entries: Vec<WaitForEntry> = Vec::new();
        let iter = self.wait_table.iter();
        let ghost walk = vstd::std_specs::hash::into_iter(iter);
        let ghost order = keys_of(walk);
        let ghost entry = |waiter: Waiter<C, R>| waiter::entry_of(waiter);
        proof {
            self.lemma_is_walk(vstd::std_specs::iter::IteratorSpec::remaining(&iter));
            self.lemma_walk(walk);
        }
        for (ts, waiters) in it: iter
            invariant
                it.seq().unref() == walk,
                order == keys_of(walk),
                forall|i: int| 0 <= i < walk.len() ==> self@[(#[trigger] walk[i]).0] == walk[i].1@,
                entry == |waiter: Waiter<C, R>| waiter::entry_of(waiter),
                entries@ =~= pool::joined(self@, order.take(it.index())).map_values(entry),
        {
            let ghost before = entries@;
            for waiter in jt: waiters.iter()
                invariant
                    entry == |waiter: Waiter<C, R>| waiter::entry_of(waiter),
                    jt.seq().unref() == waiters@,
                    entries@ =~= before + waiters@.take(jt.index()).map_values(entry),
            {
                assert(waiters@[jt.index()] == *waiter);
                entries.push(
                    WaitForEntry {
                        txn: waiter.start_ts,
                        wait_for_txn: waiter.lock.ts,
                        key_hash: waiter.lock.hash,
                    },
                );
            }
            proof {
                assert(order.take(it.index() + 1).drop_last() =~= order.take(it.index()));
                assert(walk[it.index()] == (*ts, *waiters));
                assert(waiters@.take(waiters@.len() as int) =~= waiters@);
            }
        }
        assert(order.take(order.len() as int) =~= order);
        assert(lists_waits(entries@, self@, order));
        assert(entries@ =~= pool::joined(self@, order).map_values(
            |w: Waiter<C, R>|
                WaitForEntry {
                    txn: w.start_ts,
                    wait_for_txn: w.lock.ts,
                    key_hash: w.lock.hash,
                },
        ));
        entries
    }
}

} // verus!
