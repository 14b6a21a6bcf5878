# Percolator

A small implementation of the Percolator transaction model, verified with Verus: a timestamp
oracle, an in-memory multi-version store with optimistic and pessimistic locks, and a client
that runs two-phase commit.

- `src/` is the verified library. The store and the oracle are plain values changed through
  `&mut`. A client operation (`get`, `set`, `lock_for_update`, `commit`) is a state machine: it
  names the next action, and goes on with the event that came of it. The laws are proved in
  `store_laws.rs` (the store), `txn_laws.rs` (the operations), `system_laws.rs` (a commit that
  runs against the store) and `interleaving_laws.rs` (transactions side by side).
- `app/` is what surrounds it: RPC stubs and services, shared handles, and a blocking client
  that makes the calls and waits that the operations ask for.
- `tests/` runs the library on concrete values, with a clock that the tests advance.
