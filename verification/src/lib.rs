//! Waiting and wake-up of pessimistic locks.
//!
//! A transaction that meets a lock of another transaction is put to sleep. It
//! is answered when the lock is released, when its wait takes too long, or when
//! the deadlock detector finds that it waits in a cycle.
//!
//! [`WaiterManager`] decides who sleeps and who is answered, and with what. It
//! performs nothing itself: each of its handlers returns the [`Action`]s that
//! its owner is to perform. [`Scheduler`] makes the [`Task`]s that it serves.
//! The waiting transactions are kept in a [`WaitTable`]. What each operation
//! comes to is proved in [`operations`], and what holds of all of them together
//! in [`laws`].
pub mod decimal;
pub mod error;
pub mod laws;
pub mod manager;
pub mod operations;
pub mod pool;
pub mod scheduler;
pub mod sorting;
pub mod task;
pub mod wait_table;
pub mod waiter;

pub use crate::error::{MvccError, ProcessResult, StorageError, TxnError};
pub use crate::manager::{Action, WaiterManager};
pub use crate::scheduler::{Scheduler, Stopped};
pub use crate::task::Task;
pub use crate::wait_table::WaitTable;
pub use crate::waiter::{wake_up_waiter, Lock, Reply, WaitForEntry, Waiter, Waiters};
