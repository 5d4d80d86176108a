# waiter_manager

Waiting and wake-up of pessimistic locks, verified with Verus.

A transaction that meets a lock of another transaction is put to sleep until
the lock is released, its wait takes too long, or the deadlock detector finds
it in a cycle.

- `src/wait_table.rs`: the table of waiting transactions.
- `src/manager.rs`: what the manager does on each request and when a timer
  fires. It decides; its owner performs the actions that it returns.
- `src/scheduler.rs`, `src/task.rs`: the requests, and what becomes of one that
  cannot be delivered.
- `src/waiter.rs`, `src/error.rs`: waiters and the results they are answered
  with.
- `src/laws.rs`: what holds of all of this together. No callback is lost or run
  twice, no wait goes without a timeout, a wait that was ended stays ended.
- `src/pool.rs`, `src/decimal.rs`: lists filed under numbers, and numbers as
  text.
- `src/sorting.rs`: the three functions of the standard library whose contracts
  are taken on trust.
- `app/`: runs a manager on a `tokio-core` reactor.
