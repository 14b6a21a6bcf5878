//! The store as the clients see it: what each action does to the table, and how it is answered.

use vstd::prelude::*;

use crate::action::{ActionView, Event};
use crate::error::ErrorKind;
use crate::storage::{
    after_commit, after_pessimistic_lock, after_prewrite, after_rollback, answers_lock_outcome,
    lock_ts, pessimistic_lock_outcome, prewrite_outcome, primary_or_key, resolved, snapshot,
};
use crate::table::TableView;

verus! {

/// The table after the store has served `a`.
pub open spec fn applied(t: TableView, a: ActionView) -> TableView {
    match a {
        ActionView::Get { key, start_ts } => resolved(t, start_ts, key),
        ActionView::PessimisticLock { key, start_ts, for_update_ts, primary } => {
            after_pessimistic_lock(t, key, start_ts, for_update_ts, primary_or_key(primary, key))
        },
        ActionView::Prewrite { key, value, start_ts, primary } => after_prewrite(
            t,
            key,
            start_ts,
            primary_or_key(primary, key),
            value,
        ),
        ActionView::Commit { key, start_ts, commit_ts, .. } => after_commit(
            t,
            key,
            start_ts,
            commit_ts,
        ),
        ActionView::Rollback { key, start_ts } => after_rollback(t, key, start_ts),
        ActionView::GetTimestamp | ActionView::Sleep { .. } => t,
    }
}

/// `e` is how the store answers `a` in table `t`; of timestamps and waits it knows nothing.
pub open spec fn replies(t: TableView, a: ActionView, e: Event) -> bool {
    match a {
        ActionView::Get { key, start_ts } => {
            &&& e matches Event::Get(reply)
            &&& match reply {
                Ok(response) => {
                    &&& lock_ts(applied(t, a), key) is None
                    &&& response.value@ == snapshot(applied(t, a), key, start_ts)
                },
                Err(error) => {
                    &&& lock_ts(applied(t, a), key) is Some
                    &&& error.says(ErrorKind::Other, "key is locked"@)
                },
            }
        },
        ActionView::PessimisticLock { key, start_ts, for_update_ts, primary } => {
            &&& e matches Event::PessimisticLock(reply)
            &&& answers_lock_outcome(
                reply,
                pessimistic_lock_outcome(
                    t,
                    key,
                    start_ts,
                    for_update_ts,
                    primary_or_key(primary, key),
                ),
            )
        },
        ActionView::Prewrite { key, start_ts, primary, .. } => {
            &&& e matches Event::Prewrite(reply)
            &&& answers_lock_outcome(
                reply,
                prewrite_outcome(t, key, start_ts, primary_or_key(primary, key)),
            )
        },
        ActionView::Commit { key, start_ts, .. } => {
            &&& e matches Event::Commit(reply)
            &&& reply matches Ok(response)
            &&& response.ok == t.lock.contains_key((key, start_ts))
        },
        ActionView::Rollback { .. } => e matches Event::Rollback(reply) && reply is Ok,
        ActionView::GetTimestamp => e is Timestamp,
        ActionView::Sleep { .. } => e is Slept,
    }
}

} // verus!
