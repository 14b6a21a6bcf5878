//! Percolator: a small MVCC transaction stack (timestamp oracle, client two-phase
//! commit, in-memory store).
//!
//! Module layout:
//! - `client` - transaction client; its operations run in `get_op`, `lock_op` and `commit_op`,
//!   over the writes kept in `buffer`
//! - `action` - what an operation asks of the outside and hears back
//! - `oracle` - the timestamp oracle
//! - `storage` - the MVCC store, on the columns of `table` and `versions`, the cells of `cell`
//!   and the lock encoding of `lock`
//! - `msg`, `error`, `bytes` - messages, errors and byte strings
//! - `protocol` - the store as the clients see it
//! - `store_laws`, `txn_laws` - what holds of the store and of the client operations
//! - `request_laws`, `course_laws` - the same request by request: what each request does to the
//!   cells of the table, and how the outcome of an operation follows from the answers it gets
//! - `session_laws`, `system_laws`, `interleaving_laws` - what holds of the calls of a client that
//!   run against the store, of a commit beside other transactions, and of many transactions that
//!   share the store

pub mod action;
pub mod buffer;
pub mod bytes;
pub mod cell;
pub mod client;
pub mod commit_op;
pub mod course_laws;
pub mod error;
pub mod get_op;
pub mod interleaving_laws;
pub mod lock;
pub mod lock_op;
pub mod msg;
pub mod oracle;
pub mod protocol;
pub mod request_laws;
pub mod session_laws;
pub mod storage;
pub mod store_laws;
pub mod system_laws;
pub mod table;
pub mod txn_laws;
pub mod versions;
