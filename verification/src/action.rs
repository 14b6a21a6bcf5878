//! What a running client operation asks of the outside, and what it hears back.

use vstd::prelude::*;

use crate::error::Error;
use crate::msg::{
    CommitRequest, CommitResponse, GetRequest, GetResponse, PessimisticLockRequest,
    PessimisticLockResponse, PrewriteRequest, PrewriteResponse, RollbackRequest, RollbackResponse,
    TimestampRequest,
};

verus! {

/// Base wait (ms) before retrying a failed RPC. Multiplied exponentially per attempt.
pub const BACKOFF_TIME_MS: u64 = 100;

/// Max RPC attempts for lock-contention / transient failures.
pub const RETRY_TIMES: usize = 3;

/// The wait in milliseconds after failed attempt number `attempt`, counted from 0.
pub open spec fn backoff(attempt: nat) -> u64 {
    BACKOFF_TIME_MS << (attempt as u64)
}

/// Failed attempt number `attempt`, counted from 0, was the last one allowed.
pub open spec fn out_of_attempts(attempt: nat) -> bool {
    attempt + 1 >= RETRY_TIMES
}

/// A failed attempt to lock a key ends the matter: a write conflict cannot be cured by
/// trying again, and the attempts run out.
pub open spec fn gives_up(error: Error, attempt: nat) -> bool {
    error.reports_write_conflict() || out_of_attempts(attempt)
}

/// The wait after failed attempt number `attempt`.
pub fn backoff_millis(attempt: usize) -> (millis: u64)
    requires
        attempt < RETRY_TIMES,
    ensures
        millis == backoff(attempt as nat),
{
    BACKOFF_TIME_MS << (attempt as u64)
}

/// Something to be done for a client operation before it can go on.
#[derive(Clone, Debug, PartialEq, Eq)]
pub enum Action {
    GetTimestamp(TimestampRequest),
    Get(GetRequest),
    PessimisticLock(PessimisticLockRequest),
    Prewrite(PrewriteRequest),
    Commit(CommitRequest),
    Rollback(RollbackRequest),
    /// Wait this many milliseconds.
    Sleep(u64),
}

/// The mathematical value of an [`Action`].
pub enum ActionView {
    GetTimestamp,
    Get { key: Seq<u8>, start_ts: u64 },
    PessimisticLock { key: Seq<u8>, start_ts: u64, for_update_ts: u64, primary: Seq<u8> },
    Prewrite { key: Seq<u8>, value: Seq<u8>, start_ts: u64, primary: Seq<u8> },
    Commit { key: Seq<u8>, value: Seq<u8>, start_ts: u64, commit_ts: u64 },
    Rollback { key: Seq<u8>, start_ts: u64 },
    Sleep { millis: u64 },
}

impl View for Action {
    type V = ActionView;

    open spec fn view(&self) -> ActionView {
        match self {
            Action::GetTimestamp(_) => ActionView::GetTimestamp,
            Action::Get(r) => ActionView::Get { key: r.key@, start_ts: r.start_ts },
            Action::PessimisticLock(r) => ActionView::PessimisticLock {
                key: r.key@,
                start_ts: r.start_ts,
                for_update_ts: r.for_update_ts,
                primary: r.primary@,
            },
            Action::Prewrite(r) => ActionView::Prewrite {
                key: r.key@,
                value: r.value@,
                start_ts: r.start_ts,
                primary: r.primary@,
            },
            Action::Commit(r) => ActionView::Commit {
                key: r.key@,
                value: r.value@,
                start_ts: r.start_ts,
                commit_ts: r.commit_ts,
            },
            Action::Rollback(r) => ActionView::Rollback { key: r.key@, start_ts: r.start_ts },
            Action::Sleep(millis) => ActionView::Sleep { millis: *millis },
        }
    }
}

/// The mathematical value of what an operation waits for.
pub open spec fn pending_view(action: Option<Action>) -> Option<ActionView> {
    match action {
        Some(a) => Some(a@),
        None => None,
    }
}

/// How an [`Action`] turned out.
#[derive(Debug)]
pub enum Event {
    Timestamp(Result<u64, Error>),
    Get(Result<GetResponse, Error>),
    PessimisticLock(Result<PessimisticLockResponse, Error>),
    Prewrite(Result<PrewriteResponse, Error>),
    Commit(Result<CommitResponse, Error>),
    Rollback(Result<RollbackResponse, Error>),
    Slept,
}

/// `event` is an outcome of `action`.
pub open spec fn answers(action: ActionView, event: Event) -> bool {
    match action {
        ActionView::GetTimestamp => event is Timestamp,
        ActionView::Get { .. } => event is Get,
        ActionView::PessimisticLock { .. } => event is PessimisticLock,
        ActionView::Prewrite { .. } => event is Prewrite,
        ActionView::Commit { .. } => event is Commit,
        ActionView::Rollback { .. } => event is Rollback,
        ActionView::Sleep { .. } => event is Slept,
    }
}

} // verus!
