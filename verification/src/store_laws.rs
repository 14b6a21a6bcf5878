//! What holds of the store across requests.

use vstd::prelude::*;

use crate::action::ActionView;
use crate::cell::{KeyView, ValueView};
use crate::lock::{decoded_lock, encoded_lock, lemma_lock_round_trip};
use crate::protocol::applied;
use crate::storage::{
    after_commit, after_pessimistic_lock, after_prewrite, after_rollback, blocked, committed_after,
    discarded, expired, lock_ts, owns_lock, owns_pessimistic_lock, pessimistic_lock_outcome,
    prewrite_outcome, primary_or_key, resolved, snapshot, stored_value,
};
use crate::table::TableView;
use crate::versions::{
    earliest_pointer, is_earliest_pointer, latest, lemma_earliest_pointer,
    lemma_earliest_pointer_is, lemma_latest, lemma_latest_is, points_to,
};

verus! {

// ---- The shape of the table ----

/// No key is locked twice.
pub open spec fn one_lock_per_key(t: TableView) -> bool {
    forall|k: Seq<u8>, a: u64, b: u64|
        #[trigger] t.lock.contains_key((k, a)) && #[trigger] t.lock.contains_key((k, b)) ==> a == b
}

/// Every column holds its kind of cell.
pub open spec fn cells_typed(t: TableView) -> bool {
    &&& forall|r: KeyView| #[trigger] t.lock.contains_key(r) ==> decoded_lock(t.lock[r]) is Some
    &&& forall|r: KeyView| #[trigger] t.write.contains_key(r) ==> t.write[r] is Timestamp
    &&& forall|r: KeyView| #[trigger] t.data.contains_key(r) ==> t.data[r] is Bytes
}

/// Under every prewrite lock a value is staged.
pub open spec fn prewrites_staged(t: TableView) -> bool {
    forall|r: KeyView| #[trigger]
        t.lock.contains_key(r) ==> (decoded_lock(t.lock[r]) matches Some((_, pessimistic))
            && !pessimistic ==> t.data.contains_key(r))
}

/// What holds of every table that requests have led to.
pub open spec fn well_formed(t: TableView) -> bool {
    one_lock_per_key(t) && cells_typed(t) && prewrites_staged(t)
}

/// The lock on a key is the one lock that there is.
pub proof fn lemma_lock_ts(t: TableView, key: Seq<u8>)
    requires
        one_lock_per_key(t),
    ensures
        forall|ts: u64| #[trigger]
            t.lock.contains_key((key, ts)) <==> lock_ts(t, key) == Some(ts),
{
    lemma_latest(t.lock, key, 0, u64::MAX);
    assert forall|ts: u64| #[trigger] t.lock.contains_key((key, ts)) <==> lock_ts(t, key) == Some(
        ts,
    ) by {
        if t.lock.contains_key((key, ts)) {
            assert(lock_ts(t, key) is Some);
        }
    }
}

/// The empty table is well formed, and every request keeps a table so: a key never has more
/// than one lock, each column holds its own kind of cell, and what is locked by a prewrite has
/// its value staged.
pub proof fn lemma_requests_keep_table_well_formed(t: TableView, a: ActionView)
    ensures
        well_formed(TableView::empty()),
        well_formed(t) ==> well_formed(applied(t, a)),
{
    if well_formed(t) {
        match a {
            ActionView::Get { key, start_ts } => {
                lemma_lock_ts(t, key);
            },
            ActionView::PessimisticLock { key, start_ts, for_update_ts, primary } => {
                lemma_lock_ts(t, key);
                lemma_lock_round_trip(primary_or_key(primary, key), true);
            },
            ActionView::Prewrite { key, value, start_ts, primary } => {
                lemma_lock_ts(t, key);
                lemma_lock_round_trip(primary_or_key(primary, key), false);
            },
            _ => {},
        }
    }
}

/// Two tables have the same cells for `key`.
pub open spec fn same_cells(t: TableView, u: TableView, key: Seq<u8>) -> bool {
    forall|ts: u64|
        #![trigger t.lock.contains_key((key, ts))]
        #![trigger t.write.contains_key((key, ts))]
        #![trigger t.data.contains_key((key, ts))]
        {
            let r = (key, ts);
            &&& t.lock.contains_key(r) == u.lock.contains_key(r)
            &&& t.lock.contains_key(r) ==> t.lock[r] == u.lock[r]
            &&& t.write.contains_key(r) == u.write.contains_key(r)
            &&& t.write.contains_key(r) ==> t.write[r] == u.write[r]
            &&& t.data.contains_key(r) == u.data.contains_key(r)
            &&& t.data.contains_key(r) ==> t.data[r] == u.data[r]
        }
}

/// The keys whose cells a request may change: its own key and, where a get resolves a lock,
/// the primary of that lock.
pub open spec fn may_touch(t: TableView, a: ActionView, key: Seq<u8>) -> bool {
    match a {
        ActionView::Get { key: k, .. } => {
            ||| key == k
            ||| {
                &&& lock_ts(t, k) matches Some(ts)
                &&& decoded_lock(t.lock[(k, ts)]) matches Some((primary, _))
                &&& key == primary
            }
        },
        ActionView::PessimisticLock { key: k, .. } => key == k,
        ActionView::Prewrite { key: k, .. } => key == k,
        ActionView::Commit { key: k, .. } => key == k,
        ActionView::Rollback { key: k, .. } => key == k,
        ActionView::GetTimestamp | ActionView::Sleep { .. } => false,
    }
}

/// A request leaves the cells of all other keys as they are.
pub proof fn lemma_requests_leave_other_keys(t: TableView, a: ActionView, key: Seq<u8>)
    requires
        !may_touch(t, a, key),
    ensures
        same_cells(t, applied(t, a), key),
{
}

// ---- Reads ----

/// No commit of `key` lies after `from` and up to `to`.
pub open spec fn no_commit_between(t: TableView, key: Seq<u8>, from: u64, to: u64) -> bool {
    forall|w: u64| from < w <= to ==> !#[trigger] t.write.contains_key((key, w))
}

/// What a read gives back of a write: once `key` has been prewritten and committed, every
/// snapshot from the commit on shows the value, as long as there is no later commit in it,
/// and the key is no longer locked.
pub proof fn lemma_committed_value_is_read(
    t: TableView,
    key: Seq<u8>,
    value: Seq<u8>,
    start_ts: u64,
    commit_ts: u64,
    primary: Seq<u8>,
    read_ts: u64,
)
    requires
        one_lock_per_key(t),
        prewrite_outcome(t, key, start_ts, primary) is Granted,
        commit_ts <= read_ts,
        no_commit_between(t, key, commit_ts, read_ts),
    ensures
        ({
            let prewritten = after_prewrite(t, key, start_ts, primary, value);
            let done = after_commit(prewritten, key, start_ts, commit_ts);
            &&& prewritten.lock.contains_key((key, start_ts))
            &&& lock_ts(done, key) is None
            &&& resolved(done, read_ts, key) == done
            &&& snapshot(done, key, read_ts) == value
        }),
{
    lemma_lock_ts(t, key);
    let prewritten = after_prewrite(t, key, start_ts, primary, value);
    let done = after_commit(prewritten, key, start_ts, commit_ts);
    assert(one_lock_per_key(done));
    lemma_lock_ts(done, key);
    if lock_ts(done, key) is Some {
        assert(done.lock.contains_key((key, lock_ts(done, key)->0)));
    }
    lemma_latest_is(done.write, key, 0, read_ts, commit_ts);
}

/// A snapshot does not see a commit that comes after it.
pub proof fn lemma_later_commit_is_invisible(
    t: TableView,
    key: Seq<u8>,
    start_ts: u64,
    commit_ts: u64,
    other: Seq<u8>,
    read_ts: u64,
)
    requires
        read_ts < commit_ts,
    ensures
        snapshot(after_commit(t, key, start_ts, commit_ts), other, read_ts) == snapshot(
            t,
            other,
            read_ts,
        ),
{
    let u = after_commit(t, key, start_ts, commit_ts);
    assert forall|w: u64|
        #![trigger u.write.contains_key((other, w))]
        #![trigger t.write.contains_key((other, w))]
        w <= read_ts implies u.write.contains_key((other, w)) == t.write.contains_key(
        (other, w),
    ) by {}
    lemma_latest(t.write, other, 0, read_ts);
    lemma_latest(u.write, other, 0, read_ts);
    match latest(t.write, other, 0, read_ts) {
        Some(ts) => {
            assert(u.write.contains_key((other, ts)));
            lemma_latest_is(u.write, other, 0, read_ts, ts);
        },
        None => {},
    }
}

/// A get finishes what a crashed commit left open: where the primary has been committed, a
/// get of a prewritten secondary commits it at the same timestamp and shows its value.
pub proof fn lemma_secondary_follows_committed_primary(
    t: TableView,
    key: Seq<u8>,
    value: Seq<u8>,
    start_ts: u64,
    primary: Seq<u8>,
    commit_ts: u64,
    read_ts: u64,
)
    requires
        one_lock_per_key(t),
        t.lock.contains_key((key, start_ts)),
        decoded_lock(t.lock[(key, start_ts)]) == Some((primary, false)),
        primary != key,
        t.data.contains_key((key, start_ts)),
        t.data[(key, start_ts)] == ValueView::Bytes(value),
        is_earliest_pointer(t.write, primary, start_ts, commit_ts),
        commit_ts <= read_ts,
        no_commit_between(t, key, commit_ts, read_ts),
    ensures
        ({
            let u = resolved(t, read_ts, key);
            &&& points_to(u.write, key, commit_ts, start_ts)
            &&& lock_ts(u, key) is None
            &&& snapshot(u, key, read_ts) == value
        }),
{
    lemma_lock_ts(t, key);
    lemma_earliest_pointer_is(t.write, primary, start_ts, commit_ts);
    let u = resolved(t, read_ts, key);
    assert(one_lock_per_key(u));
    lemma_lock_ts(u, key);
    if lock_ts(u, key) is Some {
        assert(u.lock.contains_key((key, lock_ts(u, key)->0)));
    }
    lemma_latest_is(u.write, key, 0, read_ts, commit_ts);
}

/// A key that was locked without writing a value keeps what it showed: where the primary of
/// such a lock has been committed, a get releases the key and reads what it would have read
/// without the lock.
pub proof fn lemma_locked_key_keeps_its_value(
    t: TableView,
    key: Seq<u8>,
    start_ts: u64,
    primary: Seq<u8>,
    commit_ts: u64,
    read_ts: u64,
)
    requires
        one_lock_per_key(t),
        t.lock.contains_key((key, start_ts)),
        decoded_lock(t.lock[(key, start_ts)]) == Some((primary, true)),
        primary != key,
        points_to(t.write, primary, commit_ts, start_ts),
    ensures
        ({
            let u = resolved(t, read_ts, key);
            &&& u.lock == t.lock.remove((key, start_ts))
            &&& u.data == t.data
            &&& u.write == t.write
            &&& lock_ts(u, key) is None
            &&& snapshot(u, key, read_ts) == snapshot(t, key, read_ts)
        }),
{
    let u = resolved(t, read_ts, key);
    lemma_earliest_pointer(t.write, primary, start_ts);
    lemma_lock_ts(t, key);
    assert(one_lock_per_key(u));
    lemma_lock_ts(u, key);
    if lock_ts(u, key) is Some {
        assert(u.lock.contains_key((key, lock_ts(u, key)->0)));
    }
}

/// Where the primary is neither committed nor locked any more, a get of a secondary drops its
/// lock and what it staged. The key is free again, and what the snapshot shows is what it
/// showed without the lock.
pub proof fn lemma_secondary_follows_aborted_primary(
    t: TableView,
    key: Seq<u8>,
    start_ts: u64,
    pessimistic: bool,
    primary: Seq<u8>,
    read_ts: u64,
)
    requires
        one_lock_per_key(t),
        t.lock.contains_key((key, start_ts)),
        decoded_lock(t.lock[(key, start_ts)]) == Some((primary, pessimistic)),
        primary != key,
        !t.lock.contains_key((primary, start_ts)),
        forall|c: u64| !#[trigger] points_to(t.write, primary, c, start_ts),
        forall|c: u64| !#[trigger] points_to(t.write, key, c, start_ts),
    ensures
        ({
            let u = resolved(t, read_ts, key);
            &&& u == discarded(t, key, start_ts)
            &&& lock_ts(u, key) is None
            &&& u.write == t.write
            &&& snapshot(u, key, read_ts) == snapshot(t, key, read_ts)
        }),
{
    lemma_lock_ts(t, key);
    lemma_earliest_pointer(t.write, primary, start_ts);
    let u = resolved(t, read_ts, key);
    assert(one_lock_per_key(u));
    lemma_lock_ts(u, key);
    if lock_ts(u, key) is Some {
        assert(u.lock.contains_key((key, lock_ts(u, key)->0)));
    }
    lemma_latest(t.write, key, 0, read_ts);
    match latest(t.write, key, 0, read_ts) {
        Some(c) => {
            assert(!points_to(t.write, key, c, start_ts));
        },
        None => {},
    }
}

/// An abandoned lock does not keep readers out: once it has expired, a get clears it.
pub proof fn lemma_expired_lock_is_cleared(t: TableView, key: Seq<u8>, held_ts: u64, read_ts: u64)
    requires
        well_formed(t),
        t.lock.contains_key((key, held_ts)),
        expired(read_ts, held_ts),
    ensures
        lock_ts(resolved(t, read_ts, key), key) is None,
{
    lemma_lock_ts(t, key);
    let u = resolved(t, read_ts, key);
    lemma_requests_keep_table_well_formed(t, ActionView::Get { key, start_ts: read_ts });
    lemma_lock_ts(u, key);
    if lock_ts(u, key) is Some {
        assert(u.lock.contains_key((key, lock_ts(u, key)->0)));
    }
}

/// Resolving a lock a second time changes nothing.
pub proof fn lemma_get_is_idempotent(t: TableView, key: Seq<u8>, read_ts: u64)
    requires
        well_formed(t),
    ensures
        resolved(resolved(t, read_ts, key), read_ts, key) == resolved(t, read_ts, key),
{
    lemma_lock_ts(t, key);
    let u = resolved(t, read_ts, key);
    lemma_requests_keep_table_well_formed(t, ActionView::Get { key, start_ts: read_ts });
    lemma_lock_ts(u, key);
    if lock_ts(u, key) is Some {
        assert(u.lock.contains_key((key, lock_ts(u, key)->0)));
    }
}

// ---- Locks and conflicts ----

/// First committer wins: a transaction that started before a commit of the key cannot
/// prewrite it, unless it has held a pessimistic lock on it all along.
pub proof fn lemma_first_committer_wins(
    t: TableView,
    key: Seq<u8>,
    commit_ts: u64,
    start_ts: u64,
    primary: Seq<u8>,
)
    requires
        t.write.contains_key((key, commit_ts)),
        start_ts < commit_ts,
        !owns_pessimistic_lock(t, key, start_ts, primary),
    ensures
        !(prewrite_outcome(t, key, start_ts, primary) is Granted),
        blocked(t, key, start_ts) ==> prewrite_outcome(t, key, start_ts, primary) is LockConflict,
        !blocked(t, key, start_ts) ==> prewrite_outcome(
            t,
            key,
            start_ts,
            primary,
        ) is WriteConflict,
{
    assert(committed_after(t, key, start_ts));
}

/// A live lock keeps every other transaction from locking the key, and the refused request
/// changes nothing.
pub proof fn lemma_live_lock_excludes_others(
    t: TableView,
    key: Seq<u8>,
    held_ts: u64,
    start_ts: u64,
    for_update_ts: u64,
    primary: Seq<u8>,
    value: Seq<u8>,
)
    requires
        lock_ts(t, key) == Some(held_ts),
        start_ts != held_ts,
    ensures
        !expired(start_ts, held_ts) ==> prewrite_outcome(t, key, start_ts, primary) is LockConflict
            && after_prewrite(t, key, start_ts, primary, value) == t,
        !expired(for_update_ts, held_ts) ==> pessimistic_lock_outcome(
            t,
            key,
            start_ts,
            for_update_ts,
            primary,
        ) is LockConflict && after_pessimistic_lock(t, key, start_ts, for_update_ts, primary) == t,
{
}

/// A key that is not locked, or whose lock has expired, and that has no commit after the
/// request can be locked.
pub proof fn lemma_free_key_can_be_locked(
    t: TableView,
    key: Seq<u8>,
    start_ts: u64,
    for_update_ts: u64,
    primary: Seq<u8>,
)
    ensures
        !blocked(t, key, start_ts) && !committed_after(t, key, start_ts) ==> prewrite_outcome(
            t,
            key,
            start_ts,
            primary,
        ) is Granted,
        !blocked(t, key, for_update_ts) && !committed_after(t, key, for_update_ts)
            ==> pessimistic_lock_outcome(t, key, start_ts, for_update_ts, primary) is Granted,
{
}

/// Asking again for a pessimistic lock that was granted succeeds and changes nothing.
pub proof fn lemma_pessimistic_lock_is_idempotent(
    t: TableView,
    key: Seq<u8>,
    start_ts: u64,
    for_update_ts: u64,
    primary: Seq<u8>,
    later_ts: u64,
)
    requires
        one_lock_per_key(t),
        pessimistic_lock_outcome(t, key, start_ts, for_update_ts, primary) is Granted,
    ensures
        ({
            let u = after_pessimistic_lock(t, key, start_ts, for_update_ts, primary);
            &&& pessimistic_lock_outcome(u, key, start_ts, later_ts, primary) is Granted
            &&& after_pessimistic_lock(u, key, start_ts, later_ts, primary) == u
        }),
{
    let u = after_pessimistic_lock(t, key, start_ts, for_update_ts, primary);
    lemma_lock_ts(t, key);
    lemma_lock_round_trip(primary, true);
    assert(one_lock_per_key(u));
    lemma_lock_ts(u, key);
    assert(u.lock.contains_key((key, start_ts)));
}

/// A pessimistic lock is as good as a prewrite: the transaction that holds it can prewrite the
/// key at once, whatever was committed meanwhile, and the lock is downgraded.
pub proof fn lemma_pessimistic_lock_is_downgraded(
    t: TableView,
    key: Seq<u8>,
    start_ts: u64,
    for_update_ts: u64,
    primary: Seq<u8>,
    value: Seq<u8>,
)
    requires
        one_lock_per_key(t),
        !owns_lock(t, key, start_ts, primary) || owns_pessimistic_lock(t, key, start_ts, primary),
        pessimistic_lock_outcome(t, key, start_ts, for_update_ts, primary) is Granted,
    ensures
        ({
            let held = after_pessimistic_lock(t, key, start_ts, for_update_ts, primary);
            let u = after_prewrite(held, key, start_ts, primary, value);
            &&& owns_pessimistic_lock(held, key, start_ts, primary)
            &&& prewrite_outcome(held, key, start_ts, primary) is Granted
            &&& u.lock[(key, start_ts)] == encoded_lock(primary, false)
            &&& u.data[(key, start_ts)] == ValueView::Bytes(value)
        }),
{
    let held = after_pessimistic_lock(t, key, start_ts, for_update_ts, primary);
    lemma_lock_ts(t, key);
    lemma_lock_round_trip(primary, true);
    assert(one_lock_per_key(held));
    lemma_lock_ts(held, key);
    assert(held.lock.contains_key((key, start_ts)));
}

// ---- Commit and rollback ----

/// A rollback undoes a prewrite: on a key that had no lock, and no data of this transaction,
/// the table is as it was.
pub proof fn lemma_rollback_undoes_prewrite(
    t: TableView,
    key: Seq<u8>,
    start_ts: u64,
    primary: Seq<u8>,
    value: Seq<u8>,
)
    requires
        lock_ts(t, key) is None,
        prewrite_outcome(t, key, start_ts, primary) is Granted,
        !t.data.contains_key((key, start_ts)),
    ensures
        after_rollback(after_prewrite(t, key, start_ts, primary, value), key, start_ts) == t,
{
    lemma_latest(t.lock, key, 0, u64::MAX);
    let u = after_rollback(after_prewrite(t, key, start_ts, primary, value), key, start_ts);
    assert(!t.lock.contains_key((key, start_ts)));
    assert(u.lock =~= t.lock);
    assert(u.data =~= t.data);
}

/// A rollback undoes a pessimistic lock in the same way.
pub proof fn lemma_rollback_undoes_pessimistic_lock(
    t: TableView,
    key: Seq<u8>,
    start_ts: u64,
    for_update_ts: u64,
    primary: Seq<u8>,
)
    requires
        lock_ts(t, key) is None,
        pessimistic_lock_outcome(t, key, start_ts, for_update_ts, primary) is Granted,
        !t.data.contains_key((key, start_ts)),
    ensures
        after_rollback(
            after_pessimistic_lock(t, key, start_ts, for_update_ts, primary),
            key,
            start_ts,
        ) == t,
{
    lemma_latest(t.lock, key, 0, u64::MAX);
    let u = after_rollback(
        after_pessimistic_lock(t, key, start_ts, for_update_ts, primary),
        key,
        start_ts,
    );
    assert(!t.lock.contains_key((key, start_ts)));
    assert(u.lock =~= t.lock);
    assert(u.data =~= t.data);
}

/// A transaction ends once on a key: neither a commit nor a rollback changes anything after a
/// commit or a rollback, and a commit is then refused.
pub proof fn lemma_transaction_ends_once(
    t: TableView,
    key: Seq<u8>,
    start_ts: u64,
    commit_ts: u64,
    later_ts: u64,
)
    ensures
        ({
            let u = after_commit(t, key, start_ts, commit_ts);
            &&& !u.lock.contains_key((key, start_ts))
            &&& after_commit(u, key, start_ts, later_ts) == u
            &&& after_rollback(u, key, start_ts) == u
        }),
        ({
            let u = after_rollback(t, key, start_ts);
            &&& !u.lock.contains_key((key, start_ts))
            &&& after_commit(u, key, start_ts, later_ts) == u
            &&& after_rollback(u, key, start_ts) == u
        }),
{
}

// ---- Transactions beside each other ----

/// `a` is a request of another transaction than the one that started at `start_ts`.
pub open spec fn of_another(a: ActionView, start_ts: u64) -> bool {
    match a {
        ActionView::PessimisticLock { start_ts: s, .. } => s != start_ts,
        ActionView::Prewrite { start_ts: s, .. } => s != start_ts,
        ActionView::Commit { start_ts: s, .. } => s != start_ts,
        ActionView::Rollback { start_ts: s, .. } => s != start_ts,
        ActionView::Get { .. } | ActionView::GetTimestamp | ActionView::Sleep { .. } => true,
    }
}

/// `a` is a request of another transaction than the one from `start_ts` to `commit_ts`:
/// it carries neither of the two timestamps.
pub open spec fn foreign(a: ActionView, start_ts: u64, commit_ts: u64) -> bool {
    of_another(a, start_ts) && (a matches ActionView::Commit { commit_ts: c, .. } ==> c
        != commit_ts)
}

/// Every commit record at `commit_ts` is one of the transaction that started at `start_ts`.
pub open spec fn commits_alone(t: TableView, start_ts: u64, commit_ts: u64) -> bool {
    forall|k: Seq<u8>| #[trigger]
        t.write.contains_key((k, commit_ts)) ==> points_to(t.write, k, commit_ts, start_ts)
}

/// As long as the transaction holds its lock on `key`, its value is staged there.
pub open spec fn staged_under_lock(t: TableView, key: Seq<u8>, start_ts: u64, value: Seq<u8>) -> bool {
    t.lock.contains_key((key, start_ts)) ==> {
        &&& t.data.contains_key((key, start_ts))
        &&& t.data[(key, start_ts)] == ValueView::Bytes(value)
    }
}

/// The transaction has committed `value` for `key` at `commit_ts`: the commit record and the
/// value are there, and no lock of it is left that could take them away.
pub open spec fn durable(
    t: TableView,
    key: Seq<u8>,
    start_ts: u64,
    commit_ts: u64,
    value: Seq<u8>,
) -> bool {
    &&& points_to(t.write, key, commit_ts, start_ts)
    &&& !t.lock.contains_key((key, start_ts))
    &&& t.data.contains_key((key, start_ts))
    &&& t.data[(key, start_ts)] == ValueView::Bytes(value)
}

/// Other transactions do not commit at the timestamp of this one.
pub proof fn lemma_others_keep_commits_alone(
    t: TableView,
    a: ActionView,
    start_ts: u64,
    commit_ts: u64,
)
    requires
        commits_alone(t, start_ts, commit_ts),
        foreign(a, start_ts, commit_ts),
    ensures
        commits_alone(applied(t, a), start_ts, commit_ts),
{
    let u = applied(t, a);
    assert forall|k: Seq<u8>| #[trigger] u.write.contains_key((k, commit_ts)) implies points_to(
        u.write,
        k,
        commit_ts,
        start_ts,
    ) by {
        if let ActionView::Get { key, start_ts: now } = a {
            if let Some(ts) = lock_ts(t, key) {
                if let Some((primary, _)) = decoded_lock(t.lock[(key, ts)]) {
                    lemma_earliest_pointer(t.write, primary, ts);
                    if earliest_pointer(t.write, primary, ts) == Some(commit_ts) {
                        assert(points_to(t.write, primary, commit_ts, ts));
                        assert(t.write.contains_key((primary, commit_ts)));
                    }
                }
            }
        }
        if t.write.contains_key((k, commit_ts)) {
            assert(points_to(t.write, k, commit_ts, start_ts));
        }
    }
}

/// Other transactions may take the lock of this one away once it has expired, but they never
/// change what is staged under it.
pub proof fn lemma_others_keep_staged(
    t: TableView,
    a: ActionView,
    key: Seq<u8>,
    start_ts: u64,
    commit_ts: u64,
    value: Seq<u8>,
)
    requires
        staged_under_lock(t, key, start_ts, value),
        foreign(a, start_ts, commit_ts),
    ensures
        staged_under_lock(applied(t, a), key, start_ts, value),
{
}

/// A commit lasts: no request of another transaction takes a committed value away or changes
/// it.
pub proof fn lemma_others_keep_durable(
    t: TableView,
    a: ActionView,
    key: Seq<u8>,
    start_ts: u64,
    commit_ts: u64,
    value: Seq<u8>,
)
    requires
        durable(t, key, start_ts, commit_ts, value),
        commits_alone(t, start_ts, commit_ts),
        foreign(a, start_ts, commit_ts),
    ensures
        durable(applied(t, a), key, start_ts, commit_ts, value),
{
    let u = applied(t, a);
    lemma_others_keep_commits_alone(t, a, start_ts, commit_ts);
    lemma_latest(t.lock, key, 0, u64::MAX);
    if let ActionView::Get { key: k, start_ts: now } = a {
        lemma_latest(t.lock, k, 0, u64::MAX);
    }
    assert(u.write.contains_key((key, commit_ts)));
}

/// A committed value is what every later reader gets, up to the next commit of the key: a get
/// either shows it, or says that the key is locked by a transaction in flight.
pub proof fn lemma_durable_value_is_read(
    t: TableView,
    key: Seq<u8>,
    start_ts: u64,
    commit_ts: u64,
    value: Seq<u8>,
    read_ts: u64,
)
    requires
        durable(t, key, start_ts, commit_ts, value),
        commits_alone(t, start_ts, commit_ts),
        commit_ts <= read_ts,
        no_commit_between(resolved(t, read_ts, key), key, commit_ts, read_ts),
    ensures
        snapshot(resolved(t, read_ts, key), key, read_ts) == value,
{
    let a = ActionView::Get { key, start_ts: read_ts };
    lemma_others_keep_durable(t, a, key, start_ts, commit_ts, value);
    let u = resolved(t, read_ts, key);
    lemma_latest_is(u.write, key, 0, read_ts, commit_ts);
}

/// The transaction that started at `start_ts` has committed nothing.
pub open spec fn nothing_committed(t: TableView, start_ts: u64) -> bool {
    forall|k: Seq<u8>, c: u64| !#[trigger] points_to(t.write, k, c, start_ts)
}

/// What the transaction has staged for `key` is there only under its lock.
pub open spec fn staged_only_under_lock(t: TableView, key: Seq<u8>, start_ts: u64) -> bool {
    t.data.contains_key((key, start_ts)) ==> t.lock.contains_key((key, start_ts))
}

/// The transaction has left neither a lock nor data on `key`.
pub open spec fn released(t: TableView, key: Seq<u8>, start_ts: u64) -> bool {
    !t.lock.contains_key((key, start_ts)) && !t.data.contains_key((key, start_ts))
}

/// Other transactions take no lock in the name of this one.
pub proof fn lemma_others_take_no_lock(
    t: TableView,
    a: ActionView,
    start_ts: u64,
    key: Seq<u8>,
)
    requires
        !t.lock.contains_key((key, start_ts)),
        of_another(a, start_ts),
    ensures
        !applied(t, a).lock.contains_key((key, start_ts)),
{
}

/// Other transactions commit nothing in the name of this one, and leave none of its data
/// behind without its lock; what it has released stays released.
pub proof fn lemma_others_commit_nothing(
    t: TableView,
    a: ActionView,
    start_ts: u64,
    key: Seq<u8>,
)
    requires
        nothing_committed(t, start_ts),
        of_another(a, start_ts),
    ensures
        nothing_committed(applied(t, a), start_ts),
        staged_only_under_lock(t, key, start_ts) ==> staged_only_under_lock(
            applied(t, a),
            key,
            start_ts,
        ),
        released(t, key, start_ts) ==> released(applied(t, a), key, start_ts),
{
    let u = applied(t, a);
    if let ActionView::Get { key: k, start_ts: now } = a {
        lemma_latest(t.lock, k, 0, u64::MAX);
        if let Some(ts) = lock_ts(t, k) {
            if let Some((primary, _)) = decoded_lock(t.lock[(k, ts)]) {
                lemma_earliest_pointer(t.write, primary, ts);
            }
        }
    }
    assert forall|k: Seq<u8>, c: u64| !#[trigger] points_to(u.write, k, c, start_ts) by {
        assert(!points_to(t.write, k, c, start_ts));
        if let ActionView::Get { key: g, start_ts: now } = a {
            if let Some(ts) = lock_ts(t, g) {
                if let Some((primary, _)) = decoded_lock(t.lock[(g, ts)]) {
                    if let Some(first) = earliest_pointer(t.write, primary, ts) {
                        assert(points_to(t.write, primary, first, ts));
                    }
                }
            }
        }
    }
}

/// The table after the store has served a series of requests.
pub open spec fn applied_all(t: TableView, requests: Seq<ActionView>) -> TableView
    decreases requests.len(),
{
    if requests.len() == 0 {
        t
    } else {
        applied(applied_all(t, requests.drop_last()), requests.last())
    }
}

/// Every table that a series of requests has led to is well formed.
pub proof fn lemma_every_table_is_well_formed(requests: Seq<ActionView>)
    ensures
        well_formed(applied_all(TableView::empty(), requests)),
    decreases requests.len(),
{
    if requests.len() == 0 {
        lemma_requests_keep_table_well_formed(TableView::empty(), ActionView::GetTimestamp);
    } else {
        let before = applied_all(TableView::empty(), requests.drop_last());
        lemma_every_table_is_well_formed(requests.drop_last());
        lemma_requests_keep_table_well_formed(before, requests.last());
    }
}

/// A commit lasts through any series of requests of other transactions.
pub proof fn lemma_commit_lasts(
    t: TableView,
    requests: Seq<ActionView>,
    key: Seq<u8>,
    start_ts: u64,
    commit_ts: u64,
    value: Seq<u8>,
)
    requires
        durable(t, key, start_ts, commit_ts, value),
        commits_alone(t, start_ts, commit_ts),
        forall|i: int|
            0 <= i < requests.len() ==> foreign(#[trigger] requests[i], start_ts, commit_ts),
    ensures
        durable(applied_all(t, requests), key, start_ts, commit_ts, value),
        commits_alone(applied_all(t, requests), start_ts, commit_ts),
    decreases requests.len(),
{
    if requests.len() > 0 {
        let rest = requests.drop_last();
        let before = applied_all(t, rest);
        assert forall|i: int| 0 <= i < rest.len() implies foreign(
            #[trigger] rest[i],
            start_ts,
            commit_ts,
        ) by {
            assert(rest[i] == requests[i]);
        }
        lemma_commit_lasts(t, rest, key, start_ts, commit_ts, value);
        assert(foreign(requests[requests.len() - 1], start_ts, commit_ts));
        lemma_others_keep_commits_alone(before, requests.last(), start_ts, commit_ts);
        lemma_others_keep_durable(before, requests.last(), key, start_ts, commit_ts, value);
    }
}

// ---- Only committed values are read ----

/// Request number `i` of those served from the empty table on is a prewrite of `value` for
/// `key` at `start_ts`, and the store granted it.
pub open spec fn prewrite_granted(
    requests: Seq<ActionView>,
    i: int,
    key: Seq<u8>,
    value: Seq<u8>,
    start_ts: u64,
) -> bool {
    &&& 0 <= i < requests.len()
    &&& requests[i] matches ActionView::Prewrite { key: k, value: v, start_ts: s, primary }
    &&& k == key && v == value && s == start_ts
    &&& prewrite_outcome(
        applied_all(TableView::empty(), requests.take(i)),
        key,
        start_ts,
        primary_or_key(primary, key),
    ) is Granted
}

/// Request number `i` of those served from the empty table on is a commit of the transaction
/// that started at `start_ts`, at `commit_ts`, and the store acknowledged it.
pub open spec fn commit_acknowledged(
    requests: Seq<ActionView>,
    i: int,
    start_ts: u64,
    commit_ts: u64,
) -> bool {
    &&& 0 <= i < requests.len()
    &&& requests[i] matches ActionView::Commit { key, start_ts: s, commit_ts: c, .. }
    &&& s == start_ts && c == commit_ts
    &&& applied_all(TableView::empty(), requests.take(i)).lock.contains_key((key, start_ts))
}

/// Every staged value comes from a prewrite that was granted.
spec fn data_from_prewrites(t: TableView, requests: Seq<ActionView>) -> bool {
    forall|r: KeyView| #[trigger]
        t.data.contains_key(r) ==> (t.data[r] matches ValueView::Bytes(value) ==> exists|i: int|
            prewrite_granted(requests, i, r.0, value, r.1))
}

/// Every commit record comes from a commit that was acknowledged.
spec fn writes_from_commits(t: TableView, requests: Seq<ActionView>) -> bool {
    forall|r: KeyView| #[trigger]
        t.write.contains_key(r) ==> (t.write[r] matches ValueView::Timestamp(start_ts)
            ==> exists|i: int| commit_acknowledged(requests, i, start_ts, r.1))
}

proof fn lemma_cells_have_sources(requests: Seq<ActionView>)
    ensures
        data_from_prewrites(applied_all(TableView::empty(), requests), requests),
        writes_from_commits(applied_all(TableView::empty(), requests), requests),
    decreases requests.len(),
{
    if requests.len() > 0 {
        let rest = requests.drop_last();
        let last = requests.len() - 1;
        let a = requests.last();
        let t = applied_all(TableView::empty(), rest);
        let u = applied_all(TableView::empty(), requests);
        lemma_cells_have_sources(rest);
        assert(requests.take(last) =~= rest);
        assert forall|r: KeyView| #[trigger] u.data.contains_key(r) implies (
        u.data[r] matches ValueView::Bytes(value) ==> exists|i: int|
            prewrite_granted(requests, i, r.0, value, r.1)) by {
            if let ValueView::Bytes(value) = u.data[r] {
                if t.data.contains_key(r) && t.data[r] == u.data[r] {
                    let i = choose|i: int| prewrite_granted(rest, i, r.0, value, r.1);
                    assert(prewrite_granted(rest, i, r.0, value, r.1));
                    assert(requests.take(i) =~= rest.take(i));
                    assert(prewrite_granted(requests, i, r.0, value, r.1));
                } else {
                    assert(prewrite_granted(requests, last, r.0, value, r.1));
                }
            }
        }
        assert forall|r: KeyView| #[trigger] u.write.contains_key(r) implies (
        u.write[r] matches ValueView::Timestamp(start_ts) ==> exists|i: int|
            commit_acknowledged(requests, i, start_ts, r.1)) by {
            if let ValueView::Timestamp(start_ts) = u.write[r] {
                if t.write.contains_key(r) && t.write[r] == u.write[r] {
                    lemma_commit_stays_acknowledged(requests, start_ts, r.1);
                } else if let ActionView::Get { key, .. } = a {
                    let held_ts = lock_ts(t, key)->0;
                    let (primary, _) = decoded_lock(t.lock[(key, held_ts)])->0;
                    lemma_earliest_pointer(t.write, primary, held_ts);
                    assert(points_to(t.write, primary, r.1, start_ts));
                    assert(t.write.contains_key((primary, r.1)));
                    lemma_commit_stays_acknowledged(requests, start_ts, r.1);
                } else {
                    assert(commit_acknowledged(requests, last, start_ts, r.1));
                }
            }
        }
    }
}

proof fn lemma_commit_stays_acknowledged(
    requests: Seq<ActionView>,
    start_ts: u64,
    commit_ts: u64,
)
    requires
        requests.len() > 0,
        exists|i: int| commit_acknowledged(requests.drop_last(), i, start_ts, commit_ts),
    ensures
        exists|i: int| commit_acknowledged(requests, i, start_ts, commit_ts),
{
    let rest = requests.drop_last();
    let i = choose|i: int| commit_acknowledged(rest, i, start_ts, commit_ts);
    assert(commit_acknowledged(rest, i, start_ts, commit_ts));
    assert(requests.take(i) =~= rest.take(i));
    assert(commit_acknowledged(requests, i, start_ts, commit_ts));
}

/// No value is read that was not committed: whatever requests the store has served, a value
/// that a snapshot shows was prewritten for the key by some transaction, and the store has
/// acknowledged a commit of that transaction at or before the snapshot.
pub proof fn lemma_value_read_was_committed(requests: Seq<ActionView>, key: Seq<u8>, ts: u64)
    ensures
        ({
            let value = snapshot(applied_all(TableView::empty(), requests), key, ts);
            value.len() > 0 ==> exists|start_ts: u64, commit_ts: u64, i: int, j: int|
                commit_ts <= ts && #[trigger] prewrite_granted(requests, i, key, value, start_ts)
                    && #[trigger] commit_acknowledged(requests, j, start_ts, commit_ts)
        }),
{
    let t = applied_all(TableView::empty(), requests);
    let value = snapshot(t, key, ts);
    lemma_cells_have_sources(requests);
    lemma_latest(t.write, key, 0, ts);
    if value.len() > 0 {
        let commit_ts = latest(t.write, key, 0, ts)->0;
        let start_ts = t.write[(key, commit_ts)]->Timestamp_0;
        assert(t.write.contains_key((key, commit_ts)));
        assert(t.data.contains_key((key, start_ts)));
        let i = choose|i: int| prewrite_granted(requests, i, key, value, start_ts);
        let j = choose|j: int| commit_acknowledged(requests, j, start_ts, commit_ts);
        assert(prewrite_granted(requests, i, key, value, start_ts));
        assert(commit_acknowledged(requests, j, start_ts, commit_ts));
    }
}

// ---- Snapshots do not move ----

/// No transaction that has committed `key` still holds a lock on it.
pub open spec fn locks_unsettled(t: TableView, key: Seq<u8>) -> bool {
    forall|s: u64, c: u64|
        #![trigger t.lock.contains_key((key, s)), points_to(t.write, key, c, s)]
        t.lock.contains_key((key, s)) ==> !points_to(t.write, key, c, s)
}

/// A transaction that locks `key` anew has not committed it before.
pub open spec fn locks_afresh(t: TableView, a: ActionView, key: Seq<u8>) -> bool {
    match a {
        ActionView::PessimisticLock { key: k, start_ts, .. } => k == key ==> forall|c: u64|
            !#[trigger] points_to(t.write, key, c, start_ts),
        ActionView::Prewrite { key: k, start_ts, .. } => k == key ==> forall|c: u64|
            !#[trigger] points_to(t.write, key, c, start_ts),
        _ => true,
    }
}

/// As long as start timestamps are not used again after a commit, no transaction holds a lock
/// on a key that it has committed.
pub proof fn lemma_locks_stay_unsettled(t: TableView, a: ActionView, key: Seq<u8>)
    requires
        one_lock_per_key(t),
        locks_unsettled(t, key),
        locks_afresh(t, a, key),
    ensures
        locks_unsettled(applied(t, a), key),
{
    let u = applied(t, a);
    lemma_lock_ts(t, key);
    if let ActionView::Get { key: k, start_ts } = a {
        lemma_lock_ts(t, k);
    }
    assert forall|s: u64, c: u64|
        #![trigger u.lock.contains_key((key, s)), points_to(u.write, key, c, s)]
        u.lock.contains_key((key, s)) implies !points_to(u.write, key, c, s) by {
        if t.lock.contains_key((key, s)) {
            assert(!points_to(t.write, key, c, s));
        }
    }
}

/// The timestamp at which a get of `key` would commit it because its primary is committed.
pub open spec fn committed_by_get(t: TableView, key: Seq<u8>) -> Option<u64> {
    match lock_ts(t, key) {
        Some(ts) => match decoded_lock(t.lock[(key, ts)]) {
            Some((primary, pessimistic)) => if primary == key || pessimistic {
                None
            } else {
                earliest_pointer(t.write, primary, ts)
            },
            None => None,
        },
        None => None,
    }
}

/// `a` commits `key` at `ts` or before.
pub open spec fn commits_up_to(t: TableView, a: ActionView, key: Seq<u8>, ts: u64) -> bool {
    match a {
        ActionView::Commit { key: k, commit_ts, .. } => k == key && commit_ts <= ts,
        ActionView::Get { key: k, .. } => {
            k == key && (committed_by_get(t, key) matches Some(c) && c <= ts)
        },
        _ => false,
    }
}

/// What a snapshot shows of a key changes only by a commit of that key up to the snapshot:
/// locks, prewrites, rollbacks and later commits leave it alone.
pub proof fn lemma_snapshot_is_stable(t: TableView, a: ActionView, key: Seq<u8>, ts: u64)
    requires
        one_lock_per_key(t),
        locks_unsettled(t, key),
        locks_afresh(t, a, key),
        !commits_up_to(t, a, key, ts),
    ensures
        snapshot(applied(t, a), key, ts) == snapshot(t, key, ts),
{
    let u = applied(t, a);
    lemma_lock_ts(t, key);
    if let ActionView::Get { key: k, start_ts } = a {
        lemma_lock_ts(t, k);
    }
    assert forall|w: u64| w <= ts implies #[trigger] u.write.contains_key((key, w))
        == t.write.contains_key((key, w)) && (t.write.contains_key((key, w)) ==> u.write[(key, w)]
        == t.write[(key, w)]) by {}
    lemma_latest(t.write, key, 0, ts);
    lemma_latest(u.write, key, 0, ts);
    match latest(t.write, key, 0, ts) {
        Some(c) => {
            assert(u.write.contains_key((key, c)));
            assert forall|w: u64| w <= ts && #[trigger] u.write.contains_key((key, w)) implies w
                <= c by {
                assert(t.write.contains_key((key, w)));
            }
            lemma_latest_is(u.write, key, 0, ts, c);
            if let ValueView::Timestamp(d) = t.write[(key, c)] {
                assert(points_to(t.write, key, c, d));
                assert(stored_value(u, key, d) == stored_value(t, key, d));
            }
        },
        None => {
            assert forall|w: u64| w <= ts implies !#[trigger] u.write.contains_key((key, w)) by {
                assert(!t.write.contains_key((key, w)));
            }
        },
    }
}

} // verus!
