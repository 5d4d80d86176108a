//! Tests of the wait table.
use waiter_manager::{Lock, ProcessResult, WaitForEntry, WaitTable, Waiter};

fn waiter(start_ts: u64, cb: &'static str, lock_ts: u64, hash: u64) -> Waiter<&'static str, ()> {
    Waiter {
        start_ts,
        cb,
        pr: ProcessResult::Res,
        lock: Lock { ts: lock_ts, hash },
    }
}

fn dummy_waiter(start_ts: u64, lock_ts: u64, hash: u64) -> Waiter<&'static str, ()> {
    waiter(start_ts, "", lock_ts, hash)
}

/// Ten hashes without an order to them.
fn key_hashes() -> Vec<u64> {
    (1..11u64)
        .map(|i| {
            let x = i.wrapping_mul(0x9e37_79b9_7f4a_7c15);
            (x ^ (x >> 29)).wrapping_mul(0xbf58_476d_1ce4_e5b9)
        })
        .collect()
}

fn names(waiters: &[Waiter<&'static str, ()>]) -> Vec<&'static str> {
    waiters.iter().map(|w| w.cb).collect()
}

/// The names of those who wait for `ts`, in the order in which they wait.
fn waiting_for(table: &mut WaitTable<&'static str, ()>, ts: u64, hash: u64) -> Vec<&'static str> {
    let mut found = Vec::new();
    for start_ts in 0..100 {
        while let Some(w) = table.remove_waiter(start_ts, Lock { ts, hash }) {
            found.push(w.cb);
        }
    }
    found
}

#[test]
fn test_wait_table_add_and_remove() {
    let mut wait_table = WaitTable::new();
    for i in 0..10 {
        let n = i as u64;
        wait_table.add_waiter(n, dummy_waiter(0, n, n));
    }
    assert_eq!(10, wait_table.size());
    for i in (0..10).rev() {
        let n = i as u64;
        assert!(wait_table
            .remove_waiter(0, Lock { ts: n, hash: n })
            .is_some());
    }
    assert_eq!(0, wait_table.size());
    assert!(wait_table
        .remove_waiter(0, Lock { ts: 0, hash: 0 })
        .is_none());
}

#[test]
fn test_wait_table_get_ready_waiters() {
    let mut wait_table = WaitTable::new();
    let ts = 100;
    let mut hashes: Vec<u64> = key_hashes();

    assert!(wait_table.get_ready_waiters(ts, hashes.clone()).is_empty());

    for hash in hashes.iter() {
        wait_table.add_waiter(ts, dummy_waiter(0, ts, *hash));
    }
    hashes.sort();

    let not_ready = hashes.split_off(hashes.len() / 2);
    let ready_waiters = wait_table.get_ready_waiters(ts, hashes.clone());
    assert_eq!(hashes.len(), ready_waiters.len());
    assert_eq!(not_ready.len(), wait_table.size());

    let ready_waiters = wait_table.get_ready_waiters(ts, hashes.clone());
    assert!(ready_waiters.is_empty());

    let ready_waiters = wait_table.get_ready_waiters(ts, not_ready.clone());
    assert_eq!(not_ready.len(), ready_waiters.len());
    assert_eq!(0, wait_table.size());
}

#[test]
fn test_wait_table_to_wait_for_entries() {
    let mut wait_table = WaitTable::new();
    assert!(wait_table.to_wait_for_entries().is_empty());

    for i in 1..5 {
        for j in 0..i {
            wait_table.add_waiter(i, dummy_waiter(i * 10 + j, i, j));
        }
    }

    let mut wait_for_enties = wait_table.to_wait_for_entries();
    wait_for_enties.sort_by_key(|e| e.txn);
    wait_for_enties.reverse();
    for i in 1..5 {
        for j in 0..i {
            let e = wait_for_enties.pop().unwrap();
            assert_eq!(e.txn, i * 10 + j);
            assert_eq!(e.wait_for_txn, i);
            assert_eq!(e.key_hash, j);
        }
    }
    assert!(wait_for_enties.is_empty());
}

#[test]
fn a_waiter_is_always_taken() {
    let mut table = WaitTable::new();
    assert!(table.add_waiter(1, dummy_waiter(2, 1, 3)));
    assert!(table.add_waiter(1, dummy_waiter(2, 1, 3)));
    assert_eq!(2, table.size());
}

#[test]
fn an_added_wait_is_found_again() {
    let mut table = WaitTable::new();
    table.add_waiter(7, waiter(1, "first", 7, 9));
    table.add_waiter(7, waiter(2, "other", 7, 9));
    table.add_waiter(7, waiter(1, "second", 7, 9));

    assert!(table.remove_waiter(1, Lock { ts: 7, hash: 8 }).is_none());
    assert!(table.remove_waiter(1, Lock { ts: 8, hash: 9 }).is_none());
    assert!(table.remove_waiter(3, Lock { ts: 7, hash: 9 }).is_none());
    assert_eq!(3, table.size());

    let lock = Lock { ts: 7, hash: 9 };
    assert_eq!("first", table.remove_waiter(1, lock).unwrap().cb);
    assert_eq!("second", table.remove_waiter(1, lock).unwrap().cb);
    assert!(table.remove_waiter(1, lock).is_none());
    assert_eq!("other", table.remove_waiter(2, lock).unwrap().cb);
    assert_eq!(0, table.size());
}

#[test]
fn ready_waiters_come_in_the_order_they_are_met() {
    let mut table = WaitTable::new();
    table.add_waiter(5, waiter(1, "a", 5, 10));
    table.add_waiter(5, waiter(2, "b", 5, 20));
    table.add_waiter(5, waiter(3, "c", 5, 10));
    table.add_waiter(5, waiter(4, "d", 5, 20));
    table.add_waiter(5, waiter(5, "e", 5, 10));

    // "a" leaves and "e" fills the gap; "e" leaves and "d" fills the gap, which
    // stays; "b" stays; "c" leaves.
    let ready = table.get_ready_waiters(5, vec![10]);
    assert_eq!(vec!["a", "e", "c"], names(&ready));
    let entries = table.to_wait_for_entries();
    assert_eq!(
        vec![
            WaitForEntry { txn: 4, wait_for_txn: 5, key_hash: 20 },
            WaitForEntry { txn: 2, wait_for_txn: 5, key_hash: 20 },
        ],
        entries
    );
}

#[test]
fn hashes_may_come_in_any_order_and_more_than_once() {
    for hashes in [vec![1, 2, 3], vec![3, 1, 2], vec![2, 3, 2, 1, 1]] {
        let mut table = WaitTable::new();
        table.add_waiter(5, waiter(1, "a", 5, 1));
        table.add_waiter(5, waiter(2, "b", 5, 4));
        table.add_waiter(5, waiter(3, "c", 5, 3));
        assert_eq!(2, table.count_ready(5, &hashes));
        assert_eq!(0, table.count_ready(6, &hashes));
        assert_eq!(vec!["a", "c"], names(&table.get_ready_waiters(5, hashes)));
        assert_eq!(1, table.size());
    }
}

#[test]
fn no_hashes_release_nobody() {
    let mut table = WaitTable::new();
    table.add_waiter(5, waiter(1, "a", 5, 1));
    assert!(table.get_ready_waiters(5, vec![]).is_empty());
    assert_eq!(vec!["a"], waiting_for(&mut table, 5, 1));
}

#[test]
fn other_transactions_are_left_alone() {
    let mut table = WaitTable::new();
    table.add_waiter(5, waiter(1, "a", 5, 1));
    table.add_waiter(6, waiter(2, "b", 6, 1));
    assert_eq!(vec!["a"], names(&table.get_ready_waiters(5, vec![1])));
    assert_eq!(1, table.size());
    assert_eq!(vec!["b"], waiting_for(&mut table, 6, 1));
}

#[test]
fn a_released_lock_is_not_waited_for() {
    let mut table = WaitTable::new();
    table.add_waiter(5, waiter(1, "a", 5, 1));
    table.add_waiter(5, waiter(2, "b", 5, 1));
    table.add_waiter(5, waiter(3, "c", 5, 2));
    assert_eq!(2, table.get_ready_waiters(5, vec![1]).len());
    assert!(table.remove_waiter(1, Lock { ts: 5, hash: 1 }).is_none());
    assert!(table.remove_waiter(2, Lock { ts: 5, hash: 1 }).is_none());
    assert!(table.remove_waiter(3, Lock { ts: 5, hash: 2 }).is_some());
}

#[test]
fn edges_of_one_transaction_come_in_a_row() {
    let mut table = WaitTable::new();
    for i in 0..6u64 {
        table.add_waiter(i % 2, dummy_waiter(10 + i, i % 2, i));
    }
    let txns: Vec<u64> = table.to_wait_for_entries().iter().map(|e| e.txn).collect();
    assert!(txns == vec![10, 12, 14, 11, 13, 15] || txns == vec![11, 13, 15, 10, 12, 14]);
}
