//! The result of a command and the errors it can fail with.
use vstd::prelude::*;

verus! {

/// Errors of the multi-version layer.
#[derive(Debug, PartialEq, Eq)]
pub enum MvccError {
    /// Another transaction wrote the key first.
    WriteConflict {
        start_ts: u64,
        conflict_start_ts: u64,
        conflict_commit_ts: u64,
        key: Vec<u8>,
        primary: Vec<u8>,
    },
    /// Waiting for the lock would close a cycle of waiting transactions.
    Deadlock { start_ts: u64, lock_ts: u64, key_hash: u64, deadlock_key_hash: u64 },
}

/// Errors of the transaction layer.
#[derive(Debug, PartialEq, Eq)]
pub enum TxnError {
    Mvcc(MvccError),
}

/// Errors of the storage layer, which is what a callback gets to see.
#[derive(Debug, PartialEq, Eq)]
pub enum StorageError {
    Txn(TxnError),
    Mvcc(MvccError),
}

/// What a command comes to. `R` is the value that a command may hand back.
#[derive(Debug, PartialEq, Eq)]
pub enum ProcessResult<R> {
    /// Success, with nothing to hand back.
    Res,
    /// Success, with a value.
    Value(R),
    /// Failure.
    Failed { err: StorageError },
}

impl From<MvccError> for TxnError {
    fn from(err: MvccError) -> (r: Self) {
        TxnError::Mvcc(err)
    }
}

impl vstd::std_specs::convert::FromSpecImpl<MvccError> for TxnError {
    open spec fn obeys_from_spec() -> bool {
        true
    }

    open spec fn from_spec(err: MvccError) -> Self {
        TxnError::Mvcc(err)
    }
}

impl From<TxnError> for StorageError {
    fn from(err: TxnError) -> (r: Self) {
        StorageError::Txn(err)
    }
}

impl vstd::std_specs::convert::FromSpecImpl<TxnError> for StorageError {
    open spec fn obeys_from_spec() -> bool {
        true
    }

    open spec fn from_spec(err: TxnError) -> Self {
        StorageError::Txn(err)
    }
}

impl From<MvccError> for StorageError {
    fn from(err: MvccError) -> (r: Self) {
        StorageError::Mvcc(err)
    }
}

impl vstd::std_specs::convert::FromSpecImpl<MvccError> for StorageError {
    open spec fn obeys_from_spec() -> bool {
        true
    }

    open spec fn from_spec(err: MvccError) -> Self {
        StorageError::Mvcc(err)
    }
}

} // verus!
