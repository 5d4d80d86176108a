//! Tests of the waiter manager and its scheduler.
use std::sync::mpsc;
use std::time::Duration;

use waiter_manager::{
    wake_up_waiter, Action, Lock, MvccError, ProcessResult, Reply, Scheduler, Stopped,
    StorageError, Task, TxnError, WaitForEntry, Waiter, WaiterManager,
};

type Callback = Box<dyn FnOnce(Result<(), StorageError>) + Send>;

type Manager = WaiterManager<&'static str, &'static str, u8>;
type Actions = Vec<Action<&'static str, u8, &'static str>>;

/// An action in words.
fn show(action: &Action<&'static str, u8, &'static str>) -> String {
    match action {
        Action::Detect { start_ts, lock } => {
            format!("detect {} {}:{}", start_ts, lock.ts, lock.hash)
        }
        Action::CleanUpWaitFor { start_ts, lock } => {
            format!("clean up {} {}:{}", start_ts, lock.ts, lock.hash)
        }
        Action::TimeOutLater { delay, start_ts, lock } => {
            format!("time out {} {}:{} in {}", start_ts, lock.ts, lock.hash, delay)
        }
        Action::WakeUpLater { delay, waiter, commit_ts } => {
            format!("wake up {} in {} at {}", waiter.cb, delay, commit_ts)
        }
        Action::ExecuteCallback(Reply { cb, pr }) => match pr {
            ProcessResult::Res => format!("run {} with nothing", cb),
            ProcessResult::Value(v) => format!("run {} with {}", cb, v),
            ProcessResult::Failed { err } => format!("fail {} with {:?}", cb, err),
        },
        Action::Dump { cb, entries } => format!("dump {} to {}", entries.len(), cb),
    }
}

fn shown(actions: &Actions) -> Vec<String> {
    actions.iter().map(show).collect()
}

fn waiter(start_ts: u64, cb: &'static str, ts: u64, hash: u64) -> Waiter<&'static str, u8> {
    Waiter {
        start_ts,
        cb,
        pr: ProcessResult::Value(42),
        lock: Lock { ts, hash },
    }
}

fn conflict(start_ts: u64, conflict_start_ts: u64, conflict_commit_ts: u64) -> StorageError {
    StorageError::Txn(TxnError::Mvcc(MvccError::WriteConflict {
        start_ts,
        conflict_start_ts,
        conflict_commit_ts,
        key: vec![],
        primary: vec![],
    }))
}

fn execute_callback(cb: Callback, pr: ProcessResult<()>) {
    match pr {
        ProcessResult::Res => cb(Ok(())),
        ProcessResult::Failed { err } => cb(Err(err)),
        ProcessResult::Value(()) => panic!("process result mismatch"),
    }
}

/// Serves all tasks that were sent, and lets `millis` milliseconds go by.
fn work(
    manager: &mut WaiterManager<(), Callback, ()>,
    tasks: &mpsc::Receiver<Task<Callback, (), ()>>,
    millis: u64,
) {
    let mut todo: Vec<Action<Callback, (), ()>> = Vec::new();
    while let Ok(task) = tasks.try_recv() {
        todo.extend(manager.run(task));
    }
    while !todo.is_empty() {
        match todo.remove(0) {
            Action::TimeOutLater { delay, start_ts, lock } => {
                if delay <= millis {
                    todo.extend(manager.handle_timeout(start_ts, lock));
                }
            }
            Action::WakeUpLater { delay, waiter, commit_ts } => {
                if delay <= millis {
                    todo.push(Action::ExecuteCallback(wake_up_waiter(waiter, commit_ts)));
                }
            }
            Action::ExecuteCallback(Reply { cb, pr }) => execute_callback(cb, pr),
            _ => {}
        }
    }
}

fn send(
    scheduler: &Scheduler<mpsc::Sender<Task<Callback, (), ()>>>,
    task: Task<Callback, (), ()>,
) -> bool {
    let outcome = scheduler.queue().send(task).map_err(|e| Stopped(e.0));
    let (taken, reply) = scheduler.notify_scheduler(outcome);
    if let Some(Reply { cb, pr }) = reply {
        execute_callback(cb, pr);
    }
    taken
}

#[test]
fn test_waiter_manager() {
    let (task_tx, task_rx) = mpsc::channel();
    let mut waiter_mgr_runner = WaiterManager::new((), 1000, 1);
    let waiter_mgr_scheduler = Scheduler::new(task_tx);

    // timeout
    let (tx, rx) = mpsc::channel();
    let cb: Callback = Box::new(move |result| {
        tx.send(result).unwrap();
    });
    let pr = ProcessResult::Res;
    let task = waiter_mgr_scheduler.wait_for(0, cb, pr, Lock { ts: 0, hash: 0 }, true);
    assert!(send(&waiter_mgr_scheduler, task));
    work(&mut waiter_mgr_runner, &task_rx, 1100);
    assert_eq!(
        rx.recv_timeout(Duration::from_millis(1100))
            .unwrap()
            .unwrap(),
        ()
    );

    // wake-up
    let (tx, rx) = mpsc::channel();
    let cb: Callback = Box::new(move |result| {
        tx.send(result).unwrap();
    });
    let task = waiter_mgr_scheduler.wait_for(
        0,
        cb,
        ProcessResult::Res,
        Lock { ts: 0, hash: 1 },
        true,
    );
    assert!(send(&waiter_mgr_scheduler, task));
    assert!(send(
        &waiter_mgr_scheduler,
        waiter_mgr_scheduler.wake_up(0, vec![3, 1, 2], 1)
    ));
    work(&mut waiter_mgr_runner, &task_rx, 100);
    assert!(rx
        .recv_timeout(Duration::from_millis(100))
        .unwrap()
        .is_err());
}

#[test]
fn a_new_manager_holds_its_detector() {
    let manager: Manager = WaiterManager::new("detector", 1000, 1);
    assert_eq!("detector", *manager.detector_scheduler());
}

#[test]
fn first_locks_are_not_checked_for_deadlocks() {
    let mut manager: Manager = WaiterManager::new("detector", 1000, 1);
    let actions: Actions = manager.handle_wait_for(true, waiter(2, "a", 1, 7));
    assert_eq!(vec!["time out 2 1:7 in 1000"], shown(&actions));
    let actions: Actions = manager.handle_wait_for(false, waiter(3, "b", 1, 7));
    assert_eq!(vec!["detect 3 1:7", "time out 3 1:7 in 1000"], shown(&actions));
}

#[test]
fn a_wait_that_times_out_gets_its_own_result() {
    let mut manager: Manager = WaiterManager::new("detector", 1000, 1);
    let _: Actions = manager.handle_wait_for(true, waiter(2, "a", 1, 7));
    let lock = Lock { ts: 1, hash: 7 };
    let actions: Actions = manager.handle_timeout(2, lock);
    assert_eq!(vec!["clean up 2 1:7", "run a with 42"], shown(&actions));
    let actions: Actions = manager.handle_timeout(2, lock);
    assert!(actions.is_empty());
}

#[test]
fn waiters_wake_up_in_turn() {
    let mut manager: Manager = WaiterManager::new("detector", 1000, 30);
    for (start_ts, cb, hash) in [(40, "d", 7), (20, "b", 8), (30, "c", 7), (10, "a", 9)] {
        let _: Actions = manager.handle_wait_for(true, waiter(start_ts, cb, 5, hash));
    }
    assert!(manager.can_wake_up(5, &vec![8, 7]));
    let actions: Actions = manager.handle_wake_up(5, vec![8, 7], 50);
    assert_eq!(
        vec![
            "clean up 20 5:8",
            "wake up b in 0 at 50",
            "clean up 30 5:7",
            "wake up c in 30 at 50",
            "clean up 40 5:7",
            "wake up d in 60 at 50",
        ],
        shown(&actions)
    );
    let actions: Actions = manager.handle_wake_up(5, vec![8, 7], 50);
    assert!(actions.is_empty());
}

#[test]
fn waiters_wake_up_at_once_without_a_delay() {
    let mut manager: Manager = WaiterManager::new("detector", 1000, 0);
    let _: Actions = manager.handle_wait_for(true, waiter(30, "b", 5, 7));
    let _: Actions = manager.handle_wait_for(true, waiter(20, "a", 5, 7));
    let actions: Actions = manager.handle_wake_up(5, vec![7], 50);
    assert_eq!(
        vec![
            "clean up 20 5:7".to_string(),
            format!("fail a with {:?}", conflict(20, 5, 50)),
            "clean up 30 5:7".to_string(),
            format!("fail b with {:?}", conflict(30, 5, 50)),
        ],
        shown(&actions)
    );
}

#[test]
fn delays_out_of_range_are_seen_beforehand() {
    let mut manager: Manager = WaiterManager::new("detector", 1000, u64::MAX);
    assert!(manager.can_wake_up(5, &vec![7]));
    for start_ts in 1..3 {
        let _: Actions = manager.handle_wait_for(true, waiter(start_ts, "a", 5, 7));
        assert!(manager.can_wake_up(5, &vec![7]));
    }
    let _: Actions = manager.handle_wait_for(true, waiter(3, "a", 5, 7));
    assert!(!manager.can_wake_up(5, &vec![7]));
    assert!(manager.can_wake_up(5, &vec![8]));
}

#[test]
fn a_woken_wait_neither_times_out_nor_deadlocks() {
    let mut manager: Manager = WaiterManager::new("detector", 1000, 1);
    let _: Actions = manager.handle_wait_for(false, waiter(2, "a", 1, 7));
    let actions: Actions = manager.handle_wake_up(1, vec![7], 9);
    assert_eq!(2, actions.len());
    let lock = Lock { ts: 1, hash: 7 };
    let actions: Actions = manager.handle_timeout(2, lock);
    assert!(actions.is_empty());
    let actions: Actions = manager.handle_deadlock(2, lock, 8);
    assert!(actions.is_empty());
}

#[test]
fn a_deadlock_is_reported_to_the_waiter() {
    let mut manager: Manager = WaiterManager::new("detector", 1000, 1);
    let _: Actions = manager.handle_wait_for(false, waiter(2, "a", 1, 7));
    let actions: Actions = manager.handle_deadlock(2, Lock { ts: 1, hash: 7 }, 8);
    let err = StorageError::Mvcc(MvccError::Deadlock {
        start_ts: 2,
        lock_ts: 1,
        key_hash: 7,
        deadlock_key_hash: 8,
    });
    assert_eq!(vec![format!("fail a with {:?}", err)], shown(&actions));
}

#[test]
fn a_dump_lists_every_wait_and_changes_nothing() {
    let mut manager: Manager = WaiterManager::new("detector", 1000, 1);
    let _: Actions = manager.handle_wait_for(true, waiter(2, "a", 1, 7));
    for _ in 0..2 {
        match manager.handle_dump("graph") {
            Action::<&str, u8, &str>::Dump { cb, entries } => {
                assert_eq!("graph", cb);
                assert_eq!(
                    vec![WaitForEntry { txn: 2, wait_for_txn: 1, key_hash: 7 }],
                    entries
                );
            }
            _ => panic!("not a dump"),
        }
    }
}

#[test]
fn tasks_are_dispatched() {
    let scheduler = Scheduler::new(());
    let mut manager: Manager = WaiterManager::new("detector", 1000, 0);
    let lock = Lock { ts: 1, hash: 7 };

    let task = scheduler.wait_for(2, "a", ProcessResult::Value(1), lock, false);
    assert_eq!(vec!["detect 2 1:7", "time out 2 1:7 in 1000"], shown(&manager.run(task)));
    let task = scheduler.wait_for(3, "b", ProcessResult::Value(2), lock, true);
    assert_eq!(vec!["time out 3 1:7 in 1000"], shown(&manager.run(task)));
    let task = scheduler.dump_wait_table("graph");
    assert_eq!(vec!["dump 2 to graph"], shown(&manager.run(task)));
    let task: Task<&str, u8, &str> = scheduler.deadlock(2, lock, 8);
    assert_eq!(1, manager.run(task).len());
    let task = scheduler.wake_up(1, vec![7], 9);
    assert_eq!(
        vec![
            "clean up 3 1:7".to_string(),
            format!("fail b with {:?}", conflict(3, 1, 9)),
        ],
        shown(&manager.run(task))
    );
    let task = scheduler.dump_wait_table("graph");
    assert_eq!(vec!["dump 0 to graph"], shown(&manager.run(task)));
}

#[test]
fn refused_waits_are_answered_at_once() {
    let scheduler = Scheduler::new(());
    let lock = Lock { ts: 1, hash: 7 };
    let task: Task<&str, u8, &str> =
        scheduler.wait_for(2, "a", ProcessResult::Value(1), lock, false);
    let (taken, reply) = scheduler.notify_scheduler(Err(Stopped(task)));
    assert!(!taken);
    let reply = reply.unwrap();
    assert_eq!("a", reply.cb);
    assert_eq!(ProcessResult::Value(1), reply.pr);
}

#[test]
fn other_refused_tasks_are_dropped() {
    let scheduler = Scheduler::new(());
    let tasks: Vec<Task<&str, u8, &str>> = vec![
        scheduler.wake_up(1, vec![7], 9),
        scheduler.dump_wait_table("graph"),
        scheduler.deadlock(2, Lock { ts: 1, hash: 7 }, 8),
    ];
    for task in tasks {
        let (taken, reply) = scheduler.notify_scheduler(Err(Stopped(task)));
        assert!(!taken);
        assert!(reply.is_none());
    }
    let (taken, reply) = scheduler.notify_scheduler::<&str, u8, &str>(Ok(()));
    assert!(taken);
    assert!(reply.is_none());
}

#[test]
fn tasks_read_as_in_the_log() {
    let scheduler = Scheduler::new(());
    let lock = Lock { ts: 120, hash: u64::MAX };
    let task: Task<&str, u8, &str> = scheduler.wait_for(0, "a", ProcessResult::Res, lock, true);
    assert_eq!("txn:0 waiting for 120:18446744073709551615", task.to_string());
    let task: Task<&str, u8, &str> = scheduler.wake_up(987_654_321, vec![], 0);
    assert_eq!("waking up txns waiting for 987654321", task.to_string());
    let task: Task<&str, u8, &str> = scheduler.dump_wait_table("graph");
    assert_eq!("dump", task.to_string());
    let task: Task<&str, u8, &str> = scheduler.deadlock(10, lock, 1);
    assert_eq!("txn:10 deadlock", task.to_string());
}

#[test]
fn a_woken_waiter_is_told_of_a_conflict() {
    let reply = wake_up_waiter(waiter(20, "a", 5, 7), 50);
    assert_eq!("a", reply.cb);
    assert_eq!(ProcessResult::Failed { err: conflict(20, 5, 50) }, reply.pr);
}

#[test]
fn every_callback_is_answered_exactly_once() {
    let names = ["a", "b", "c", "d", "e", "f"];
    let mut manager: Manager = WaiterManager::new("detector", 1000, 5);
    let mut answered: Vec<&str> = Vec::new();
    let mut timers: Vec<(u64, Lock)> = Vec::new();
    let mut tasks: Vec<Task<&str, u8, &str>> = Vec::new();
    for (i, &cb) in names.iter().enumerate() {
        tasks.push(Task::WaitFor {
            start_ts: 10 + i as u64,
            cb,
            pr: ProcessResult::Res,
            lock: Lock { ts: 1 + i as u64 % 2, hash: i as u64 / 2 },
            is_first_lock: false,
        });
    }
    tasks.push(Task::WakeUp { lock_ts: 1, hashes: vec![2, 0, 7], commit_ts: 50 });
    tasks.push(Task::Deadlock { start_ts: 13, lock: Lock { ts: 2, hash: 1 }, deadlock_key_hash: 3 });
    tasks.push(Task::Deadlock { start_ts: 13, lock: Lock { ts: 2, hash: 1 }, deadlock_key_hash: 3 });
    tasks.push(Task::WakeUp { lock_ts: 1, hashes: vec![2, 0], commit_ts: 51 });
    let mut todo: Actions = Vec::new();
    for task in tasks {
        todo.extend(manager.run(task));
    }
    for action in todo {
        match action {
            Action::TimeOutLater { start_ts, lock, .. } => timers.push((start_ts, lock)),
            Action::WakeUpLater { waiter, .. } => answered.push(waiter.cb),
            Action::ExecuteCallback(reply) => answered.push(reply.cb),
            _ => {}
        }
    }
    assert_eq!(vec!["a", "e", "d"], answered);
    assert_eq!(names.len(), timers.len());
    for (start_ts, lock) in timers {
        let actions: Actions = manager.handle_timeout(start_ts, lock);
        for action in actions {
            if let Action::ExecuteCallback(reply) = action {
                answered.push(reply.cb);
            }
        }
    }
    answered.sort();
    assert_eq!(names.to_vec(), answered);
    match manager.handle_dump("graph") {
        Action::<&str, u8, &str>::Dump { entries, .. } => assert!(entries.is_empty()),
        _ => panic!("not a dump"),
    }
}

#[test]
fn a_transaction_that_waits_twice_times_out_twice() {
    let mut manager: Manager = WaiterManager::new("detector", 1000, 5);
    let lock = Lock { ts: 1, hash: 7 };
    let _: Actions = manager.handle_wait_for(true, waiter(2, "first", 1, 7));
    let _: Actions = manager.handle_wait_for(true, waiter(2, "second", 1, 7));
    let actions: Actions = manager.handle_timeout(2, lock);
    assert_eq!(vec!["clean up 2 1:7", "run first with 42"], shown(&actions));
    let actions: Actions = manager.handle_timeout(2, lock);
    assert_eq!(vec!["clean up 2 1:7", "run second with 42"], shown(&actions));
}
